//! What a read-only contract call needs before it is simulated: the
//! contract's id, and a function name that fits an XDR symbol.

use vstd::prelude::*;

use crate::utils::{contract_id_of, decode_contract_id};

verus! {

/// Longest function name an XDR symbol holds, in bytes.
pub const SYMBOL_LIMIT: usize = 32;

/// Why a call cannot be simulated.
#[derive(Debug, Clone, Copy, PartialEq, Eq, Structural)]
pub enum EnvelopeError {
    /// The contract address is not a contract strkey.
    InvalidContractAddress,
    /// The function name is longer than a symbol holds.
    InvalidFunctionName,
}

/// The contract id of a simulated call: its address decoded, then its
/// function name checked to fit a symbol (at most 32 bytes).
pub fn simulation_target(contract_address: &str, function_name: &str) -> (r: Result<[u8; 32], EnvelopeError>)
    ensures
        contract_id_of(contract_address@) is None ==> r == Err::<[u8; 32], EnvelopeError>(
            EnvelopeError::InvalidContractAddress,
        ),
        contract_id_of(contract_address@) is Some && function_name.len() > SYMBOL_LIMIT ==> r == Err::<
            [u8; 32],
            EnvelopeError,
        >(EnvelopeError::InvalidFunctionName),
        contract_id_of(contract_address@) is Some && function_name.len() <= SYMBOL_LIMIT ==> (r matches Ok(
            id,
        ) && Some(id@) == contract_id_of(contract_address@)),
{
    let id = match decode_contract_id(contract_address) {
        Ok(k) => k,
        Err(_) => return Err(EnvelopeError::InvalidContractAddress),
    };
    if function_name.len() > SYMBOL_LIMIT {
        return Err(EnvelopeError::InvalidFunctionName);
    }
    Ok(id)
}

} // verus!
