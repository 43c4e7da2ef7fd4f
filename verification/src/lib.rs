//! A fixed-capacity ledger of per-key balances, together with a codec that
//! round-trips the ledger to and from a byte buffer of a fixed, pre-declared
//! length. Deposits, withdrawals and removals are guarded by strict overdraft
//! and overflow checks; every operation either succeeds or leaves the ledger
//! exactly as it was.

mod account_state;
mod codec;
mod errors;
mod keys;
mod process;

pub use errors::LedgerError;

pub use keys::Key;
pub use keys::key_lt;
pub use keys::lemma_key_order;

pub use account_state::LedgerEntry;
pub use account_state::ProgramAccountState;
pub use account_state::balance_of;
pub use account_state::has_key;
pub use account_state::index_of_key;
pub use account_state::insert_sorted;
pub use account_state::lemma_deposit_additive;
pub use account_state::lemma_index_of_key;
pub use account_state::lemma_insert_sorted_facts;
pub use account_state::lemma_no_negative_balance;
pub use account_state::lemma_overdraft_rejected;
pub use account_state::lemma_remove_facts;
pub use account_state::lemma_unknown_key;
pub use account_state::lemma_update_facts;
pub use account_state::lemma_withdraw_exact;
pub use account_state::sorted_by_key;
pub use account_state::spec_deposit;
pub use account_state::spec_remove;
pub use account_state::spec_withdraw;

pub use codec::ACCOUNT_STATE_SPACE;
pub use codec::ENTRY_BYTES;
pub use codec::HEADER_BYTES;
pub use codec::MAX_LEDGER_ENTRIES;
pub use codec::decoded_entries;
pub use codec::encoded_byte;
pub use codec::encoded_image;
pub use codec::encoded_len;
pub use codec::entry_at;
pub use codec::entry_byte;
pub use codec::entry_word;
pub use codec::lemma_encode_deterministic;
pub use codec::lemma_round_trip;
pub use codec::spec_decode;
pub use codec::spec_u32_at;
pub use codec::spec_u64_at;
pub use codec::u32_byte;
pub use codec::u64_byte;

pub use process::LedgerInstruction;
pub use process::apply_deposit;
pub use process::apply_withdraw;
pub use process::parse_instruction;
pub use process::spec_load_tolerant;
