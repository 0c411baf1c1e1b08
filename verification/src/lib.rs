pub mod aquarius;
pub mod aquarius_clmm;
pub mod bridge;
pub mod call_args;
pub mod callers;
pub mod classic_dex;
pub mod clmm_math;
pub mod clock;
pub mod comet;
pub mod comet_math;
pub mod config;
pub mod decimal;
pub mod dedup;
pub mod economics;
pub mod execute;
pub mod invoke;
pub mod optimize;
pub mod phoenix;
pub mod pipeline;
pub mod pool_index;
pub mod prepare;
pub mod probe;
pub mod profit;
pub mod quote_client;
pub mod round_trip;
pub mod scanner;
pub mod simulation;
pub mod soroswap;
pub mod stable_math;
pub mod stats;
pub mod sushi;
pub mod telegram;
pub mod text;
pub mod trustlines;
pub mod token_logo;
pub mod token_metadata;
pub mod utils;
pub mod vault;
pub mod xlm_price;
pub mod u256;
