use account_ledger::Key;
use account_ledger::LedgerError;
use account_ledger::ProgramAccountState;

fn key(n: u64) -> Key {
    Key { w0: 0, w1: 0, w2: 0, w3: n }
}

#[test]
fn fresh_ledger_is_empty_and_uninitialized() {
    let st = ProgramAccountState::new();
    assert!(!st.is_initialized());
    assert_eq!(st.entry_count(), 0);
    let df = ProgramAccountState::default();
    assert!(st == df);
}

#[test]
fn set_initialized_is_idempotent() {
    let mut st = ProgramAccountState::new();
    st.set_initialized();
    assert!(st.is_initialized());
    st.set_initialized();
    assert!(st.is_initialized());
    assert_eq!(st.entry_count(), 0);
}

#[test]
fn deposit_creates_on_first_use() {
    let mut st = ProgramAccountState::new();
    assert_eq!(st.deposit(key(7), 41), Ok(()));
    assert_eq!(st.entry_count(), 1);
    assert_eq!(st.balance(&key(7)), Ok(41));
}

#[test]
fn deposit_is_additive() {
    let mut st = ProgramAccountState::new();
    assert_eq!(st.deposit(key(7), 41), Ok(()));
    assert_eq!(st.deposit(key(7), 59), Ok(()));
    assert_eq!(st.entry_count(), 1);
    assert_eq!(st.balance(&key(7)), Ok(100));
}

#[test]
fn deposit_zero_creates_zero_balance_entry() {
    let mut st = ProgramAccountState::new();
    assert_eq!(st.deposit(key(3), 0), Ok(()));
    assert_eq!(st.entry_count(), 1);
    assert_eq!(st.balance(&key(3)), Ok(0));
}

#[test]
fn deposit_overflow_rejected_unmodified() {
    let mut st = ProgramAccountState::new();
    assert_eq!(st.deposit(key(9), u64::MAX), Ok(()));
    assert_eq!(st.deposit(key(9), 1), Err(LedgerError::Overflow));
    assert_eq!(st.balance(&key(9)), Ok(u64::MAX));
    assert_eq!(st.entry_count(), 1);
}

#[test]
fn withdraw_exactness_leaves_zero_balance_entry() {
    let mut st = ProgramAccountState::new();
    assert_eq!(st.deposit(key(5), 100), Ok(()));
    assert_eq!(st.withdraw(key(5), 100), Ok(()));
    assert_eq!(st.balance(&key(5)), Ok(0));
    assert_eq!(st.entry_count(), 1);
}

#[test]
fn overdraft_rejected_unmodified() {
    let mut st = ProgramAccountState::new();
    assert_eq!(st.deposit(key(5), 50), Ok(()));
    let mut snapshot = ProgramAccountState::new();
    assert_eq!(snapshot.deposit(key(5), 50), Ok(()));
    assert_eq!(st.withdraw(key(5), 51), Err(LedgerError::InsufficientFunds));
    assert_eq!(st.balance(&key(5)), Ok(50));
    assert!(st == snapshot);
}

#[test]
fn withdraw_zero_succeeds_on_existing_key() {
    let mut st = ProgramAccountState::new();
    assert_eq!(st.deposit(key(1), 10), Ok(()));
    assert_eq!(st.withdraw(key(1), 0), Ok(()));
    assert_eq!(st.balance(&key(1)), Ok(10));
}

#[test]
fn unknown_key_withdraw_fails_uninitialized() {
    let mut st = ProgramAccountState::new();
    assert_eq!(st.withdraw(key(1), 1), Err(LedgerError::UninitializedAccount));
    assert_eq!(st.withdraw(key(1), 0), Err(LedgerError::UninitializedAccount));
    assert_eq!(st.entry_count(), 0);
}

#[test]
fn unknown_key_remove_fails_key_not_found() {
    let mut st = ProgramAccountState::new();
    assert_eq!(st.remove(&key(1)), Err(LedgerError::KeyNotFound));
    assert_eq!(st.entry_count(), 0);
}

#[test]
fn remove_returns_prior_balance_and_deletes() {
    let mut st = ProgramAccountState::new();
    assert_eq!(st.deposit(key(2), 77), Ok(()));
    assert_eq!(st.remove(&key(2)), Ok(77));
    assert_eq!(st.entry_count(), 0);
    assert_eq!(st.balance(&key(2)), Err(LedgerError::UninitializedAccount));
}

#[test]
fn remove_works_on_zero_balance() {
    let mut st = ProgramAccountState::new();
    assert_eq!(st.deposit(key(2), 0), Ok(()));
    assert_eq!(st.remove(&key(2)), Ok(0));
    assert_eq!(st.entry_count(), 0);
}

#[test]
fn entries_kept_in_ascending_key_order() {
    let mut st = ProgramAccountState::new();
    assert_eq!(st.deposit(key(30), 3), Ok(()));
    assert_eq!(st.deposit(key(10), 1), Ok(()));
    assert_eq!(st.deposit(key(20), 2), Ok(()));
    assert_eq!(st.entry_count(), 3);
    assert_eq!(st.entry_at(0).key, key(10));
    assert_eq!(st.entry_at(1).key, key(20));
    assert_eq!(st.entry_at(2).key, key(30));
    assert_eq!(st.entry_at(0).balance, 1);
    assert_eq!(st.entry_at(1).balance, 2);
    assert_eq!(st.entry_at(2).balance, 3);
}

#[test]
fn key_words_order_most_significant_first() {
    let mut st = ProgramAccountState::new();
    let high = Key { w0: 1, w1: 0, w2: 0, w3: 0 };
    let low = Key { w0: 0, w1: 9, w2: 9, w3: 9 };
    assert_eq!(st.deposit(high, 2), Ok(()));
    assert_eq!(st.deposit(low, 1), Ok(()));
    assert_eq!(st.entry_at(0).key, low);
    assert_eq!(st.entry_at(1).key, high);
}

#[test]
fn mixed_operations_keep_balances_independent() {
    let mut st = ProgramAccountState::new();
    assert_eq!(st.deposit(key(1), 100), Ok(()));
    assert_eq!(st.deposit(key(2), 200), Ok(()));
    assert_eq!(st.withdraw(key(1), 40), Ok(()));
    assert_eq!(st.remove(&key(2)), Ok(200));
    assert_eq!(st.deposit(key(3), 5), Ok(()));
    assert_eq!(st.balance(&key(1)), Ok(60));
    assert_eq!(st.balance(&key(2)), Err(LedgerError::UninitializedAccount));
    assert_eq!(st.balance(&key(3)), Ok(5));
    assert_eq!(st.entry_count(), 2);
}
