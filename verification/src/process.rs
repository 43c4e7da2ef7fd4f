use vstd::prelude::*;

use crate::account_state::LedgerEntry;
use crate::account_state::ProgramAccountState;
use crate::account_state::spec_deposit;
use crate::account_state::spec_withdraw;
use crate::codec::encoded_image;
use crate::codec::encoded_len;
use crate::codec::read_u64_at;
use crate::codec::spec_decode;
use crate::codec::spec_u64_at;
use crate::errors::LedgerError;
use crate::keys::Key;

verus! {

/// One decoded external request: an opcode byte selects the operation and the
/// following eight bytes carry the amount, little-endian.
#[derive(Clone, Copy, Debug, PartialEq, Eq, Structural)]
pub enum LedgerInstruction {
    Deposit { amount: u64 },
    Withdraw { amount: u64 },
}

/// Parses raw request bytes: opcode 0 asks for a deposit, 1 for a withdrawal,
/// and bytes one through eight past the opcode hold the little-endian amount.
/// Shorter data, or any other opcode, is rejected as `InvalidData`.
pub fn parse_instruction(data: &Vec<u8>) -> (r: Result<LedgerInstruction, LedgerError>)
    ensures
        r is Ok <==> (data@.len() >= 9 && (data@[0] == 0 || data@[0] == 1)),
        data@.len() >= 9 && data@[0] == 0 ==> r == Ok::<LedgerInstruction, LedgerError>(
            LedgerInstruction::Deposit { amount: spec_u64_at(data@, 1) },
        ),
        data@.len() >= 9 && data@[0] == 1 ==> r == Ok::<LedgerInstruction, LedgerError>(
            LedgerInstruction::Withdraw { amount: spec_u64_at(data@, 1) },
        ),
        r is Err ==> r == Err::<LedgerInstruction, LedgerError>(LedgerError::InvalidData),
{
    if data.len() < 9 {
        return Err(LedgerError::InvalidData);
    }
    let amount = read_u64_at(data, 1);
    if data[0] == 0 {
        Ok(LedgerInstruction::Deposit { amount })
    } else if data[0] == 1 {
        Ok(LedgerInstruction::Withdraw { amount })
    } else {
        Err(LedgerError::InvalidData)
    }
}

/// What one call starts from: a buffer not yet marked initialized stands for
/// a genuinely fresh ledger, while one already marked initialized must decode
/// strictly.
pub open spec fn spec_load_tolerant(src: Seq<u8>) -> Option<(bool, Seq<LedgerEntry>)> {
    if src.len() == 0 || src[0] != 1 {
        Some((false, Seq::<LedgerEntry>::empty()))
    } else {
        spec_decode(src)
    }
}

/// One full deposit call against the persisted buffer: load the state
/// tolerantly, mark it initialized, apply the deposit, and re-encode the
/// result over the whole buffer. Every failure — corrupt buffer, balance
/// overflow, or a ledger grown past the buffer — leaves the buffer exactly
/// as it was.
pub fn apply_deposit(data: &mut Vec<u8>, key: Key, amount: u64) -> (r: Result<(), LedgerError>)
    ensures
        final(data)@.len() == old(data)@.len(),
        r is Err ==> final(data)@ == old(data)@,
        spec_load_tolerant(old(data)@) is None ==> r == Err::<(), LedgerError>(
            LedgerError::InvalidData,
        ),
        (spec_load_tolerant(old(data)@) matches Some(ld) ==> (match spec_deposit(
            ld.1,
            key,
            amount,
        ) {
            Err(e) => r == Err::<(), LedgerError>(e),
            Ok(t) => {
                if encoded_len(t) <= old(data)@.len() && t.len() <= u32::MAX {
                    r is Ok && final(data)@ == encoded_image(true, t, old(data)@.len() as int)
                } else {
                    r == Err::<(), LedgerError>(LedgerError::InvalidData)
                }
            },
        })),
{
    let mut st = match ProgramAccountState::unpack_unchecked(data) {
        Ok(st) => st,
        Err(e) => {
            return Err(e);
        },
    };
    if !st.is_initialized() {
        st.set_initialized();
    }
    match st.deposit(key, amount) {
        Ok(_) => {},
        Err(e) => {
            return Err(e);
        },
    }
    st.pack_into_slice(data)
}

/// One full withdrawal call against the persisted buffer: load the state
/// tolerantly, mark it initialized, apply the withdrawal, and re-encode the
/// result over the whole buffer. Every failure — corrupt buffer, unknown key,
/// insufficient funds, or a buffer too small for the re-encoded ledger —
/// leaves the buffer exactly as it was.
pub fn apply_withdraw(data: &mut Vec<u8>, key: Key, amount: u64) -> (r: Result<(), LedgerError>)
    ensures
        final(data)@.len() == old(data)@.len(),
        r is Err ==> final(data)@ == old(data)@,
        spec_load_tolerant(old(data)@) is None ==> r == Err::<(), LedgerError>(
            LedgerError::InvalidData,
        ),
        (spec_load_tolerant(old(data)@) matches Some(ld) ==> (match spec_withdraw(
            ld.1,
            key,
            amount,
        ) {
            Err(e) => r == Err::<(), LedgerError>(e),
            Ok(t) => {
                if encoded_len(t) <= old(data)@.len() && t.len() <= u32::MAX {
                    r is Ok && final(data)@ == encoded_image(true, t, old(data)@.len() as int)
                } else {
                    r == Err::<(), LedgerError>(LedgerError::InvalidData)
                }
            },
        })),
{
    let mut st = match ProgramAccountState::unpack_unchecked(data) {
        Ok(st) => st,
        Err(e) => {
            return Err(e);
        },
    };
    if !st.is_initialized() {
        st.set_initialized();
    }
    match st.withdraw(key, amount) {
        Ok(_) => {},
        Err(e) => {
            return Err(e);
        },
    }
    st.pack_into_slice(data)
}

} // verus!
