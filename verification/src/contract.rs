//! The money contract's wire interface: a closed function selector with
//! explicit encode and decode — an unknown selector is rejected, never a
//! panic — and the length-prefixed instruction payload format.

use vstd::prelude::*;
use crate::codec::{sdec_bytes, decode_bytes};

verus! {

/// The functions the money contract exposes.
#[derive(Clone, Copy, PartialEq, Eq, Structural, Debug)]
pub enum MoneyFunction {
    Transfer,
}

/// The state update produced by a transfer call.
#[derive(Clone, Copy, PartialEq, Eq, Structural, Debug)]
pub struct MoneyTransferUpdate {}

/// The selector byte of each contract function.
pub open spec fn spec_function_byte(f: MoneyFunction) -> u8 {
    match f {
        MoneyFunction::Transfer => 0,
    }
}

impl MoneyFunction {
    /// The selector this function travels as.
    pub fn to_byte(&self) -> (r: u8)
        ensures
            r == spec_function_byte(*self),
    {
        match self {
            MoneyFunction::Transfer => 0,
        }
    }

    /// Reads a selector byte; an unknown selector is rejected.
    pub fn from_byte(b: u8) -> (r: Option<MoneyFunction>)
        ensures
            match r {
                Some(f) => b == spec_function_byte(f),
                None => forall|f: MoneyFunction| b != spec_function_byte(f),
            },
    {
        if b == 0 {
            Some(MoneyFunction::Transfer)
        } else {
            None
        }
    }
}

/// The update bytes a transfer instruction produces: the transfer
/// selector followed by the (empty) update body.
pub fn encode_transfer_update(update: &MoneyTransferUpdate) -> (r: Vec<u8>)
    ensures
        r@ == seq![spec_function_byte(MoneyFunction::Transfer)],
{
    let mut out: Vec<u8> = Vec::new();
    out.push(0);
    proof {
        assert(out@ =~= seq![spec_function_byte(MoneyFunction::Transfer)]);
    }
    out
}

/// Reads update bytes back: the selector they carry, if it is known and
/// the body is well-formed.
pub fn decode_update(data: &Vec<u8>) -> (r: Option<MoneyFunction>)
    ensures
        match r {
            Some(f) => data@.len() >= 1 && data@[0] == spec_function_byte(f),
            None => data@.len() < 1 || forall|f: MoneyFunction|
                data@[0] != spec_function_byte(f),
        },
{
    if data.len() < 1 {
        return None;
    }
    MoneyFunction::from_byte(data[0])
}

/// Reads an instruction payload: a length-prefixed byte string, as the
/// contract entrypoint receives it.
pub fn deserialize(input: &Vec<u8>) -> (r: Option<Vec<u8>>)
    ensures
        match r {
            Some(data) => sdec_bytes(input@) matches Some((d, _)) && data@ == d,
            None => sdec_bytes(input@) is None,
        },
{
    proof {
        assert(input@.skip(0) =~= input@);
    }
    match decode_bytes(input, 0) {
        Some((data, _consumed)) => Some(data),
        None => None,
    }
}

} // verus!
