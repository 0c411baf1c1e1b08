//! Session / hourly profit accounting for the periodic reports.

use std::collections::VecDeque;

use vstd::prelude::*;
use vstd::string::StringExecFns;

use crate::decimal::{decimal_text, padded_text, push_decimal, push_padded};

verus! {

/// How many recent successful transactions the book keeps.
pub const RECENT_TXS: usize = 5;

/// Counters of one accounting window.
#[derive(Debug, Clone, Copy, Default, PartialEq, Eq, Structural)]
pub struct ProfitWindow {
    pub succeeded: u64,
    pub failed: u64,
    /// Broadcast was accepted, but the short status poll did not reach a
    /// terminal result. This is unknown, not a failed transaction.
    pub unknown: u64,
    pub submitted: u64,
    /// Sum of (simulated_amount_out - amount_in) on SUCCESS.
    pub gross_profit_stroops: u128,
    /// Sum of estimated (inclusion + resource) fees on SUCCESS.
    pub fee_stroops: u128,
}

/// A window with every counter zero.
pub open spec fn empty_window() -> ProfitWindow {
    ProfitWindow { succeeded: 0, failed: 0, unknown: 0, submitted: 0, gross_profit_stroops: 0, fee_stroops: 0 }
}

/// `a + b`, saturating at `u128::MAX`.
pub open spec fn sat_add_u128(a: u128, b: u128) -> u128 {
    if a + b > u128::MAX {
        u128::MAX
    } else {
        (a + b) as u128
    }
}

/// A window after one more success with the given profit and fee.
pub open spec fn window_with_success(w: ProfitWindow, gross_profit: u128, fee: u128) -> ProfitWindow {
    ProfitWindow {
        succeeded: (w.succeeded + 1) as u64,
        gross_profit_stroops: sat_add_u128(w.gross_profit_stroops, gross_profit),
        fee_stroops: sat_add_u128(w.fee_stroops, fee),
        ..w
    }
}

impl ProfitWindow {
    /// Gross profit less fees, each first taken as an `i128`.
    pub open spec fn net_value(&self) -> int {
        (self.gross_profit_stroops as i128) - (self.fee_stroops as i128)
    }

    pub fn net_profit_stroops(&self) -> (r: i128)
        requires
            i128::MIN <= self.net_value() <= i128::MAX,
        ensures
            r == self.net_value(),
    {
        self.gross_profit_stroops as i128 - self.fee_stroops as i128
    }

    /// Hand the window over and leave it empty.
    pub fn take(&mut self) -> (r: Self)
        ensures
            r == *old(self),
            *final(self) == empty_window(),
    {
        let r = *self;
        *self = ProfitWindow {
            succeeded: 0,
            failed: 0,
            unknown: 0,
            submitted: 0,
            gross_profit_stroops: 0,
            fee_stroops: 0,
        };
        r
    }
}

/// A recent successful transaction.
#[derive(Debug, Clone)]
pub struct RecentTx {
    pub hash: String,
    pub amount_in: u128,
    pub gross_profit: u128,
    pub fee: u128,
}

/// Session and hourly windows plus the most recent successes, newest first.
#[derive(Debug)]
pub struct ProfitBook {
    session: ProfitWindow,
    hour: ProfitWindow,
    recent: VecDeque<RecentTx>,
}

impl ProfitBook {
    pub closed spec fn session(&self) -> ProfitWindow {
        self.session
    }

    pub closed spec fn hour(&self) -> ProfitWindow {
        self.hour
    }

    /// The recent successes, newest first.
    pub closed spec fn recent(&self) -> Seq<RecentTx> {
        self.recent@
    }

    /// The hourly window counts part of what the session counts: no counter
    /// of the hour exceeds the session's.
    pub open spec fn hour_within_session(&self) -> bool {
        &&& self.hour().succeeded <= self.session().succeeded
        &&& self.hour().failed <= self.session().failed
        &&& self.hour().unknown <= self.session().unknown
        &&& self.hour().submitted <= self.session().submitted
        &&& self.hour().gross_profit_stroops <= self.session().gross_profit_stroops
        &&& self.hour().fee_stroops <= self.session().fee_stroops
    }

    /// At most `RECENT_TXS` recent successes are kept.
    pub open spec fn well_formed(&self) -> bool {
        self.recent().len() <= RECENT_TXS
    }

    /// An empty book.
    pub fn new() -> (r: Self)
        ensures
            r.well_formed(),
            r.session() == empty_window(),
            r.hour() == empty_window(),
            r.recent().len() == 0,
            r.hour_within_session(),
    {
        ProfitBook {
            session: ProfitWindow {
                succeeded: 0,
                failed: 0,
                unknown: 0,
                submitted: 0,
                gross_profit_stroops: 0,
                fee_stroops: 0,
            },
            hour: ProfitWindow {
                succeeded: 0,
                failed: 0,
                unknown: 0,
                submitted: 0,
                gross_profit_stroops: 0,
                fee_stroops: 0,
            },
            recent: VecDeque::new(),
        }
    }

    pub fn record_submitted(&mut self)
        requires
            old(self).session().submitted < u64::MAX,
            old(self).hour().submitted < u64::MAX,
        ensures
            old(self).hour_within_session() ==> final(self).hour_within_session(),
            final(self).session() == (ProfitWindow { submitted: (old(self).session().submitted + 1) as u64, ..old(self).session() }),
            final(self).hour() == (ProfitWindow { submitted: (old(self).hour().submitted + 1) as u64, ..old(self).hour() }),
            final(self).recent() == old(self).recent(),
    {
        self.session.submitted = self.session.submitted + 1;
        self.hour.submitted = self.hour.submitted + 1;
    }

    /// Count a success, add its profit and fee (saturating), and put it at
    /// the front of the recent list, which keeps its newest `RECENT_TXS`.
    pub fn record_success(&mut self, hash: &str, amount_in: u128, gross_profit: u128, fee: u128)
        requires
            old(self).well_formed(),
            old(self).session().succeeded < u64::MAX,
            old(self).hour().succeeded < u64::MAX,
        ensures
            old(self).hour_within_session() ==> final(self).hour_within_session(),
            final(self).well_formed(),
            final(self).session() == window_with_success(old(self).session(), gross_profit, fee),
            final(self).hour() == window_with_success(old(self).hour(), gross_profit, fee),
            final(self).recent().len() == (if old(self).recent().len() < RECENT_TXS {
                old(self).recent().len() + 1
            } else {
                RECENT_TXS as nat
            }),
            final(self).recent()[0].hash@ == hash@,
            final(self).recent()[0].amount_in == amount_in,
            final(self).recent()[0].gross_profit == gross_profit,
            final(self).recent()[0].fee == fee,
            forall|i: int| 1 <= i < final(self).recent().len() ==> final(self).recent()[i] == old(self).recent()[i - 1],
    {
        self.session.succeeded = self.session.succeeded + 1;
        self.session.gross_profit_stroops = self.session.gross_profit_stroops.saturating_add(gross_profit);
        self.session.fee_stroops = self.session.fee_stroops.saturating_add(fee);
        self.hour.succeeded = self.hour.succeeded + 1;
        self.hour.gross_profit_stroops = self.hour.gross_profit_stroops.saturating_add(gross_profit);
        self.hour.fee_stroops = self.hour.fee_stroops.saturating_add(fee);
        self.recent.push_front(RecentTx { hash: hash.to_owned(), amount_in, gross_profit, fee });
        if self.recent.len() > RECENT_TXS {
            self.recent.pop_back();
        }
    }

    pub fn record_failed(&mut self)
        requires
            old(self).session().failed < u64::MAX,
            old(self).hour().failed < u64::MAX,
        ensures
            old(self).hour_within_session() ==> final(self).hour_within_session(),
            final(self).session() == (ProfitWindow { failed: (old(self).session().failed + 1) as u64, ..old(self).session() }),
            final(self).hour() == (ProfitWindow { failed: (old(self).hour().failed + 1) as u64, ..old(self).hour() }),
            final(self).recent() == old(self).recent(),
    {
        self.session.failed = self.session.failed + 1;
        self.hour.failed = self.hour.failed + 1;
    }

    pub fn record_unknown(&mut self)
        requires
            old(self).session().unknown < u64::MAX,
            old(self).hour().unknown < u64::MAX,
        ensures
            old(self).hour_within_session() ==> final(self).hour_within_session(),
            final(self).session() == (ProfitWindow { unknown: (old(self).session().unknown + 1) as u64, ..old(self).session() }),
            final(self).hour() == (ProfitWindow { unknown: (old(self).hour().unknown + 1) as u64, ..old(self).hour() }),
            final(self).recent() == old(self).recent(),
    {
        self.session.unknown = self.session.unknown + 1;
        self.hour.unknown = self.hour.unknown + 1;
    }

    /// Snapshot session + take (reset) the hourly window for a report:
    /// `(hour, session, recent)`.
    pub fn snapshot_for_hourly_report(&mut self) -> (r: (ProfitWindow, ProfitWindow, Vec<RecentTx>))
        ensures
            old(self).hour_within_session() ==> final(self).hour_within_session(),
            r.0 == old(self).hour(),
            r.1 == old(self).session(),
            r.2@ == old(self).recent(),
            final(self).hour() == empty_window(),
            final(self).session() == old(self).session(),
            final(self).recent() == old(self).recent(),
    {
        let hour = self.hour.take();
        let session = self.session;
        let mut recent: Vec<RecentTx> = Vec::new();
        let mut i: usize = 0;
        while i < self.recent.len()
            invariant
                i <= self.recent@.len(),
                recent@ == self.recent@.subrange(0, i as int),
            decreases self.recent.len() - i,
        {
            let tx = &self.recent[i];
            recent.push(
                RecentTx { hash: tx.hash.clone(), amount_in: tx.amount_in, gross_profit: tx.gross_profit, fee: tx.fee },
            );
            proof {
                assert(self.recent@.subrange(0, i + 1) =~= self.recent@.subrange(0, i as int).push(self.recent@[i as int]));
            }
            i = i + 1;
        }
        proof {
            assert(self.recent@.subrange(0, i as int) =~= self.recent@);
        }
        (hour, session, recent)
    }
}

impl Default for ProfitBook {
    fn default() -> (r: Self)
        ensures
            r.well_formed(),
            r.session() == empty_window(),
            r.hour() == empty_window(),
            r.recent().len() == 0,
    {
        ProfitBook::new()
    }
}

/// `stroops` in XLM with four decimals, cut (not rounded) and signed:
/// `[-]whole.dddd`.
pub open spec fn xlm4_text(stroops: int) -> Seq<char> {
    let abs: int = if stroops < 0 {
        -stroops
    } else {
        stroops
    };
    let whole = abs / 10_000_000;
    let frac4 = (abs % 10_000_000) / 1_000;
    (if stroops < 0 {
        seq!['-']
    } else {
        seq![]
    }) + decimal_text(whole as nat) + seq!['.'] + padded_text(frac4 as nat, 4)
}

pub fn format_xlm4(stroops: i128) -> (r: String)
    ensures
        r@ == xlm4_text(stroops as int),
{
    let neg = stroops < 0;
    let abs: u128 = if neg {
        (0 - (stroops + 1)) as u128 + 1
    } else {
        stroops as u128
    };
    let whole = abs / 10_000_000;
    let frac = abs % 10_000_000;
    let frac4 = frac / 1_000;
    let mut out = String::new();
    proof {
        reveal_strlit("-");
        reveal_strlit(".");
    }
    if neg {
        out.append("-");
    }
    push_decimal(&mut out, whole);
    out.append(".");
    push_padded(&mut out, frac4, 4);
    proof {
        assert(out@ =~= xlm4_text(stroops as int));
    }
    out
}

pub fn format_xlm4_u(stroops: u128) -> (r: String)
    ensures
        r@ == xlm4_text((stroops as i128) as int),
{
    format_xlm4(stroops as i128)
}

} // verus!
