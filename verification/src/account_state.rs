use vstd::prelude::*;

use crate::errors::LedgerError;
use crate::keys::Key;
use crate::keys::key_lt;

verus! {

/// One ledger entry: an identity key and its unsigned 64-bit balance.
#[derive(Clone, Copy, Debug, PartialEq, Eq, Structural)]
pub struct LedgerEntry {
    pub key: Key,
    pub balance: u64,
}

/// Entries strictly ascending in key order: keys are unique and the layout of
/// the table is deterministic, so re-encoding an unchanged ledger is
/// byte-identical.
pub open spec fn sorted_by_key(s: Seq<LedgerEntry>) -> bool {
    forall|i: int, j: int| 0 <= i < j < s.len() ==> key_lt(s[i].key, s[j].key)
}

/// Whether some entry of `s` carries key `k`.
pub open spec fn has_key(s: Seq<LedgerEntry>, k: Key) -> bool {
    exists|i: int| 0 <= i < s.len() && s[i].key == k
}

/// The index of the entry carrying `k`; unique when `sorted_by_key(s)` holds.
pub open spec fn index_of_key(s: Seq<LedgerEntry>, k: Key) -> int {
    choose|i: int| 0 <= i < s.len() && s[i].key == k
}

/// The balance recorded for `k`; meaningful only when `has_key(s, k)`.
pub open spec fn balance_of(s: Seq<LedgerEntry>, k: Key) -> u64 {
    s[index_of_key(s, k)].balance
}

/// `s` with `e` inserted at its ordered position.
pub open spec fn insert_sorted(s: Seq<LedgerEntry>, e: LedgerEntry) -> Seq<LedgerEntry>
    decreases s.len(),
{
    if s.len() == 0 {
        seq![e]
    } else if key_lt(e.key, s[0].key) {
        seq![e] + s
    } else {
        seq![s[0]] + insert_sorted(s.subrange(1, s.len() as int), e)
    }
}

/// What a deposit does to a table: add to the existing entry, failing on
/// 64-bit overflow, or create the entry at its ordered position on first use.
pub open spec fn spec_deposit(s: Seq<LedgerEntry>, k: Key, a: u64) -> Result<
    Seq<LedgerEntry>,
    LedgerError,
> {
    if has_key(s, k) {
        if balance_of(s, k) + a <= u64::MAX {
            Ok(s.update(index_of_key(s, k), LedgerEntry { key: k, balance: (balance_of(s, k) + a) as u64 }))
        } else {
            Err(LedgerError::Overflow)
        }
    } else {
        Ok(insert_sorted(s, LedgerEntry { key: k, balance: a }))
    }
}

/// What a withdrawal does to a table: the key must exist and cover the
/// amount; the balance is debited in place, the entry stays even at zero.
pub open spec fn spec_withdraw(s: Seq<LedgerEntry>, k: Key, a: u64) -> Result<
    Seq<LedgerEntry>,
    LedgerError,
> {
    if !has_key(s, k) {
        Err(LedgerError::UninitializedAccount)
    } else if balance_of(s, k) < a {
        Err(LedgerError::InsufficientFunds)
    } else {
        Ok(s.update(index_of_key(s, k), LedgerEntry { key: k, balance: (balance_of(s, k) - a) as u64 }))
    }
}

/// What a removal does to a table: the key must exist; its entry is deleted,
/// whatever the balance, and the prior balance is handed back.
pub open spec fn spec_remove(s: Seq<LedgerEntry>, k: Key) -> Result<
    (u64, Seq<LedgerEntry>),
    LedgerError,
> {
    if has_key(s, k) {
        Ok((balance_of(s, k), s.remove(index_of_key(s, k))))
    } else {
        Err(LedgerError::KeyNotFound)
    }
}

/// In a sorted table the entry at index `i` is the one `index_of_key` finds
/// for its key, so `balance_of` reads exactly that entry.
pub proof fn lemma_index_of_key(s: Seq<LedgerEntry>, i: int)
    requires
        sorted_by_key(s),
        0 <= i < s.len(),
    ensures
        has_key(s, s[i].key),
        index_of_key(s, s[i].key) == i,
        balance_of(s, s[i].key) == s[i].balance,
{
    assert(has_key(s, s[i].key));
    let j = index_of_key(s, s[i].key);
    assert(0 <= j < s.len() && s[j].key == s[i].key);
    if j < i {
        assert(key_lt(s[j].key, s[i].key));
        assert(false);
    }
    if i < j {
        assert(key_lt(s[i].key, s[j].key));
        assert(false);
    }
}

/// A key that every entry before `i` precedes and that precedes the entry at
/// `i` is absent from a sorted table.
pub proof fn lemma_key_absent(s: Seq<LedgerEntry>, k: Key, i: int)
    requires
        sorted_by_key(s),
        0 <= i <= s.len(),
        forall|j: int| 0 <= j < i ==> key_lt(#[trigger] s[j].key, k),
        i < s.len() ==> key_lt(k, s[i].key),
    ensures
        !has_key(s, k),
{
    assert forall|j: int| 0 <= j < s.len() implies s[j].key != k by {
        if j >= i {
            if i < j {
                assert(key_lt(s[i].key, s[j].key));
            }
        }
    }
}

/// Updating an entry without changing its key keeps the table sorted.
pub proof fn lemma_update_keeps_sorted(s: Seq<LedgerEntry>, i: int, e: LedgerEntry)
    requires
        sorted_by_key(s),
        0 <= i < s.len(),
        e.key == s[i].key,
    ensures
        sorted_by_key(s.update(i, e)),
{
    let t = s.update(i, e);
    assert forall|p: int, q: int| 0 <= p < q < t.len() implies key_lt(t[p].key, t[q].key) by {
        assert(t[p].key == s[p].key);
        assert(t[q].key == s[q].key);
    }
}

/// Inserting a fresh key at its ordered position keeps the table sorted, and
/// the result is exactly `insert_sorted`.
pub proof fn lemma_insert_sorted_at(s: Seq<LedgerEntry>, e: LedgerEntry, i: int)
    requires
        sorted_by_key(s),
        0 <= i <= s.len(),
        forall|j: int| 0 <= j < i ==> key_lt(#[trigger] s[j].key, e.key),
        i < s.len() ==> key_lt(e.key, s[i].key),
    ensures
        insert_sorted(s, e) == s.insert(i, e),
        sorted_by_key(s.insert(i, e)),
    decreases s.len(),
{
    let t = s.insert(i, e);
    assert forall|p: int, q: int| 0 <= p < q < t.len() implies key_lt(t[p].key, t[q].key) by {
        if q < i {
            assert(t[p] == s[p] && t[q] == s[q]);
        } else if q == i {
            assert(t[p] == s[p] && t[q] == e);
        } else {
            assert(t[q] == s[q - 1] && i <= q - 1 < s.len());
            if p < i {
                assert(t[p] == s[p]);
                if i <= q - 1 && i < s.len() && i < q - 1 {
                    assert(key_lt(s[i].key, s[q - 1].key));
                }
            } else if p == i {
                assert(t[p] == e);
                if i < q - 1 {
                    assert(key_lt(s[i].key, s[q - 1].key));
                }
            } else {
                assert(t[p] == s[p - 1]);
            }
        }
    }
    if s.len() == 0 {
        assert(insert_sorted(s, e) =~= s.insert(0, e));
    } else if key_lt(e.key, s[0].key) {
        if i > 0 {
            assert(key_lt(s[0].key, e.key));
            assert(false);
        }
        assert(insert_sorted(s, e) == seq![e] + s);
        assert(seq![e] + s =~= s.insert(0, e));
    } else {
        if i == 0 {
            assert(key_lt(e.key, s[0].key));
            assert(false);
        }
        let u = s.subrange(1, s.len() as int);
        assert(sorted_by_key(u)) by {
            assert forall|p: int, q: int| 0 <= p < q < u.len() implies key_lt(
                u[p].key,
                u[q].key,
            ) by {
                assert(u[p] == s[p + 1] && u[q] == s[q + 1]);
            }
        }
        assert forall|j: int| 0 <= j < i - 1 implies key_lt(#[trigger] u[j].key, e.key) by {
            assert(u[j] == s[j + 1]);
        }
        assert(i - 1 < u.len() ==> key_lt(e.key, u[i - 1].key));
        lemma_insert_sorted_at(u, e, i - 1);
        assert(insert_sorted(s, e) == seq![s[0]] + u.insert(i - 1, e));
        assert(seq![s[0]] + u.insert(i - 1, e) =~= s.insert(i, e)) by {
            let lhs = seq![s[0]] + u.insert(i - 1, e);
            assert forall|j: int| 0 <= j < lhs.len() implies lhs[j] == s.insert(i, e)[j] by {
                if j == 0 {
                } else if j < i {
                    assert(lhs[j] == u.insert(i - 1, e)[j - 1]);
                    assert(u.insert(i - 1, e)[j - 1] == u[j - 1]);
                    assert(u[j - 1] == s[j]);
                } else if j == i {
                    assert(lhs[j] == u.insert(i - 1, e)[j - 1]);
                } else {
                    assert(lhs[j] == u.insert(i - 1, e)[j - 1]);
                    assert(u.insert(i - 1, e)[j - 1] == u[j - 2]);
                    assert(u[j - 2] == s[j - 1]);
                }
            }
        }
    }
}

/// The balance table: an initialization flag, set once and never cleared,
/// plus per-key balances held in strictly ascending key order. Absence of a
/// key is zero balance; no entry is ever a placeholder.
#[derive(Debug)]
pub struct ProgramAccountState {
    pub(crate) is_initialized: bool,
    pub(crate) entries: Vec<LedgerEntry>,
}

impl ProgramAccountState {
    /// The initialization flag.
    pub closed spec fn inited(&self) -> bool {
        self.is_initialized
    }

    /// The table of entries, in storage order.
    pub closed spec fn table(&self) -> Seq<LedgerEntry> {
        self.entries@
    }

    /// Well-formed: entries strictly ascending in key order.
    pub open spec fn wf(&self) -> bool {
        sorted_by_key(self.table())
    }

    /// Lets the codec, in its own module, see through the closed view.
    pub(crate) proof fn lemma_parts(&self)
        ensures
            self.inited() == self.is_initialized,
            self.table() == self.entries@,
    {
    }

    /// A fresh, uninitialized, empty ledger.
    pub fn new() -> (r: ProgramAccountState)
        ensures
            r.wf(),
            !r.inited(),
            r.table() == Seq::<LedgerEntry>::empty(),
    {
        ProgramAccountState { is_initialized: false, entries: Vec::new() }
    }

    /// Sets the initialization flag; idempotent, and the flag is never reset.
    pub fn set_initialized(&mut self)
        ensures
            final(self).inited(),
            final(self).table() == old(self).table(),
    {
        self.is_initialized = true;
    }

    /// Reads the initialization flag.
    pub fn is_initialized(&self) -> (r: bool)
        ensures
            r == self.inited(),
    {
        self.is_initialized
    }

    /// The number of entries in the table.
    pub fn entry_count(&self) -> (n: usize)
        ensures
            n == self.table().len(),
    {
        self.entries.len()
    }

    /// The entry at position `i` of the table, in storage order.
    pub fn entry_at(&self, i: usize) -> (e: LedgerEntry)
        requires
            i < self.table().len(),
        ensures
            e == self.table()[i as int],
    {
        self.entries[i]
    }

    /// Index of `key` in the table, or its ordered insertion point if absent.
    fn locate(&self, key: &Key) -> (i: usize)
        requires
            self.wf(),
        ensures
            i <= self.table().len(),
            forall|j: int| 0 <= j < i ==> key_lt(#[trigger] self.table()[j].key, *key),
            i < self.table().len() ==> !key_lt(self.table()[i as int].key, *key),
    {
        let mut i: usize = 0;
        while i < self.entries.len()
            invariant
                i <= self.entries.len(),
                forall|j: int| 0 <= j < i ==> key_lt(#[trigger] self.entries@[j].key, *key),
            decreases self.entries.len() - i,
        {
            if !self.entries[i].key.less_than(key) {
                return i;
            }
            i = i + 1;
        }
        i
    }

    /// Balance query: the balance recorded for `key`, or
    /// `UninitializedAccount` if the key has no entry.
    pub fn balance(&self, key: &Key) -> (r: Result<u64, LedgerError>)
        requires
            self.wf(),
        ensures
            has_key(self.table(), *key) ==> r == Ok::<u64, LedgerError>(
                balance_of(self.table(), *key),
            ),
            !has_key(self.table(), *key) ==> r == Err::<u64, LedgerError>(
                LedgerError::UninitializedAccount,
            ),
    {
        let i = self.locate(key);
        if i < self.entries.len() && self.entries[i].key == *key {
            proof {
                lemma_index_of_key(self.table(), i as int);
            }
            Ok(self.entries[i].balance)
        } else {
            proof {
                if i < self.table().len() {
                    crate::keys::lemma_key_order(self.table()[i as int].key, *key, *key);
                }
                lemma_key_absent(self.table(), *key, i as int);
            }
            Err(LedgerError::UninitializedAccount)
        }
    }

    /// Insert-or-add: adds `amount` to `key`'s balance, creating the entry on
    /// first use. Fails with `Overflow`, leaving the ledger unchanged, exactly
    /// when the addition would pass the 64-bit ceiling.
    pub fn deposit(&mut self, key: Key, amount: u64) -> (r: Result<(), LedgerError>)
        requires
            old(self).wf(),
        ensures
            final(self).wf(),
            final(self).inited() == old(self).inited(),
            (match spec_deposit(old(self).table(), key, amount) {
                Ok(t) => r is Ok && final(self).table() == t,
                Err(e) => r == Err::<(), LedgerError>(e) && final(self).table() == old(
                    self,
                ).table(),
            }),
    {
        let ghost s0 = self.table();
        let i = self.locate(&key);
        if i < self.entries.len() && self.entries[i].key == key {
            proof {
                lemma_index_of_key(s0, i as int);
            }
            let bal = self.entries[i].balance;
            if amount <= u64::MAX - bal {
                self.entries[i] = LedgerEntry { key, balance: bal + amount };
                proof {
                    lemma_update_keeps_sorted(s0, i as int, LedgerEntry { key, balance: (bal + amount) as u64 });
                }
                Ok(())
            } else {
                Err(LedgerError::Overflow)
            }
        } else {
            proof {
                if i < self.table().len() {
                    crate::keys::lemma_key_order(self.table()[i as int].key, key, key);
                }
                lemma_key_absent(s0, key, i as int);
                lemma_insert_sorted_at(s0, LedgerEntry { key, balance: amount }, i as int);
            }
            self.entries.insert(i, LedgerEntry { key, balance: amount });
            Ok(())
        }
    }

    /// Checked subtract: debits `amount` from `key`'s balance in place. Fails
    /// with `UninitializedAccount` if the key has no entry (existence precedes
    /// the value check, even for amount zero), and with `InsufficientFunds` if
    /// the balance cannot cover the amount; either failure leaves the ledger
    /// unmodified. The entry stays even when the balance reaches zero.
    pub fn withdraw(&mut self, key: Key, amount: u64) -> (r: Result<(), LedgerError>)
        requires
            old(self).wf(),
        ensures
            final(self).wf(),
            final(self).inited() == old(self).inited(),
            (match spec_withdraw(old(self).table(), key, amount) {
                Ok(t) => r is Ok && final(self).table() == t,
                Err(e) => r == Err::<(), LedgerError>(e) && final(self).table() == old(
                    self,
                ).table(),
            }),
    {
        let ghost s0 = self.table();
        let i = self.locate(&key);
        if i < self.entries.len() && self.entries[i].key == key {
            proof {
                lemma_index_of_key(s0, i as int);
            }
            let bal = self.entries[i].balance;
            if bal < amount {
                Err(LedgerError::InsufficientFunds)
            } else {
                self.entries[i] = LedgerEntry { key, balance: bal - amount };
                proof {
                    lemma_update_keeps_sorted(s0, i as int, LedgerEntry { key, balance: (bal - amount) as u64 });
                }
                Ok(())
            }
        } else {
            proof {
                if i < self.table().len() {
                    crate::keys::lemma_key_order(self.table()[i as int].key, key, key);
                }
                lemma_key_absent(s0, key, i as int);
            }
            Err(LedgerError::UninitializedAccount)
        }
    }

    /// Delete-and-return: removes `key`'s entry outright, whatever its
    /// balance (zero included), and returns the prior balance. Fails with
    /// `KeyNotFound`, leaving the ledger unmodified, if the key has no entry.
    pub fn remove(&mut self, key: &Key) -> (r: Result<u64, LedgerError>)
        requires
            old(self).wf(),
        ensures
            final(self).wf(),
            final(self).inited() == old(self).inited(),
            (match spec_remove(old(self).table(), *key) {
                Ok(t) => r == Ok::<u64, LedgerError>(t.0) && final(self).table() == t.1,
                Err(e) => r == Err::<u64, LedgerError>(e) && final(self).table() == old(
                    self,
                ).table(),
            }),
    {
        let ghost s0 = self.table();
        let i = self.locate(key);
        if i < self.entries.len() && self.entries[i].key == *key {
            proof {
                lemma_index_of_key(s0, i as int);
                lemma_remove_keeps_sorted(s0, i as int);
            }
            let e = self.entries.remove(i);
            Ok(e.balance)
        } else {
            proof {
                if i < self.table().len() {
                    crate::keys::lemma_key_order(self.table()[i as int].key, *key, *key);
                }
                lemma_key_absent(s0, *key, i as int);
            }
            Err(LedgerError::KeyNotFound)
        }
    }
}

impl PartialEq for ProgramAccountState {
    fn eq(&self, other: &Self) -> (r: bool) {
        if self.is_initialized != other.is_initialized {
            return false;
        }
        if self.entries.len() != other.entries.len() {
            return false;
        }
        let mut i: usize = 0;
        while i < self.entries.len()
            invariant
                i <= self.entries.len(),
                self.entries.len() == other.entries.len(),
                forall|j: int| 0 <= j < i ==> self.entries@[j] == other.entries@[j],
            decreases self.entries.len() - i,
        {
            if self.entries[i] != other.entries[i] {
                return false;
            }
            i = i + 1;
        }
        proof {
            assert(self.entries@ =~= other.entries@);
        }
        true
    }
}

impl vstd::std_specs::cmp::PartialEqSpecImpl for ProgramAccountState {
    open spec fn obeys_eq_spec() -> bool {
        true
    }

    open spec fn eq_spec(&self, other: &Self) -> bool {
        self.inited() == other.inited() && self.table() == other.table()
    }
}

impl Default for ProgramAccountState {
    /// The default ledger is fresh: uninitialized and empty.
    fn default() -> (r: ProgramAccountState)
        ensures
            r.wf(),
            !r.inited(),
            r.table() == Seq::<LedgerEntry>::empty(),
    {
        ProgramAccountState::new()
    }
}

/// The ordered insertion point of a fresh key exists in any sorted table.
proof fn lemma_insertion_point(s: Seq<LedgerEntry>, k: Key) -> (i: int)
    requires
        sorted_by_key(s),
        !has_key(s, k),
    ensures
        0 <= i <= s.len(),
        forall|j: int| 0 <= j < i ==> key_lt(#[trigger] s[j].key, k),
        i < s.len() ==> key_lt(k, s[i].key),
    decreases s.len(),
{
    if s.len() == 0 {
        0
    } else if key_lt(k, s[0].key) {
        0
    } else {
        assert(s[0].key != k) by {
            if s[0].key == k {
                assert(has_key(s, k));
            }
        }
        crate::keys::lemma_key_order(k, s[0].key, s[0].key);
        let sub = s.subrange(1, s.len() as int);
        assert(sorted_by_key(sub)) by {
            assert forall|p: int, q: int| 0 <= p < q < sub.len() implies key_lt(
                sub[p].key,
                sub[q].key,
            ) by {
                assert(sub[p] == s[p + 1] && sub[q] == s[q + 1]);
            }
        }
        assert(!has_key(sub, k)) by {
            if has_key(sub, k) {
                let j = choose|j: int| 0 <= j < sub.len() && sub[j].key == k;
                assert(s[j + 1].key == k);
                assert(has_key(s, k));
            }
        }
        let i0 = lemma_insertion_point(sub, k);
        assert forall|j: int| 0 <= j < i0 + 1 implies key_lt(#[trigger] s[j].key, k) by {
            if j > 0 {
                assert(sub[j - 1] == s[j]);
                assert(key_lt(sub[j - 1].key, k));
            }
        }
        assert(i0 + 1 < s.len() ==> key_lt(k, s[i0 + 1].key)) by {
            if i0 < sub.len() {
                assert(sub[i0] == s[i0 + 1]);
            }
        }
        i0 + 1
    }
}

/// What inserting a fresh key leaves behind: the table stays sorted, gains
/// exactly one entry carrying exactly the deposited balance, and every other
/// key's presence and balance are untouched.
pub proof fn lemma_insert_sorted_facts(s: Seq<LedgerEntry>, e: LedgerEntry)
    requires
        sorted_by_key(s),
        !has_key(s, e.key),
    ensures
        sorted_by_key(insert_sorted(s, e)),
        insert_sorted(s, e).len() == s.len() + 1,
        has_key(insert_sorted(s, e), e.key),
        balance_of(insert_sorted(s, e), e.key) == e.balance,
        forall|k2: Key| k2 != e.key ==> (has_key(insert_sorted(s, e), k2) <==> has_key(s, k2)),
        forall|k2: Key| k2 != e.key && has_key(s, k2) ==> balance_of(insert_sorted(s, e), k2)
            == balance_of(s, k2),
{
    let i = lemma_insertion_point(s, e.key);
    lemma_insert_sorted_at(s, e, i);
    let t = s.insert(i, e);
    assert(t[i] == e);
    lemma_index_of_key(t, i);
    assert forall|k2: Key| k2 != e.key implies (has_key(t, k2) <==> has_key(s, k2)) by {
        if has_key(s, k2) {
            let j = choose|j: int| 0 <= j < s.len() && s[j].key == k2;
            if j < i {
                assert(t[j] == s[j]);
                assert(has_key(t, k2));
            } else {
                assert(t[j + 1] == s[j]);
                assert(has_key(t, k2));
            }
        }
        if has_key(t, k2) {
            let j = choose|j: int| 0 <= j < t.len() && t[j].key == k2;
            if j < i {
                assert(s[j] == t[j]);
                assert(has_key(s, k2));
            } else {
                assert(j != i);
                assert(s[j - 1] == t[j]);
                assert(has_key(s, k2));
            }
        }
    }
    assert forall|k2: Key| k2 != e.key && has_key(s, k2) implies balance_of(t, k2) == balance_of(
        s,
        k2,
    ) by {
        let j = choose|j: int| 0 <= j < s.len() && s[j].key == k2;
        lemma_index_of_key(s, j);
        if j < i {
            assert(t[j] == s[j]);
            lemma_index_of_key(t, j);
        } else {
            assert(t[j + 1] == s[j]);
            lemma_index_of_key(t, j + 1);
        }
    }
}

/// What rewriting one key's balance leaves behind: the table stays sorted,
/// keeps its length, records the new balance for the key, and every other
/// key's presence and balance are untouched.
pub proof fn lemma_update_facts(s: Seq<LedgerEntry>, k: Key, b: u64)
    requires
        sorted_by_key(s),
        has_key(s, k),
    ensures
        sorted_by_key(s.update(index_of_key(s, k), LedgerEntry { key: k, balance: b })),
        s.update(index_of_key(s, k), LedgerEntry { key: k, balance: b }).len() == s.len(),
        has_key(s.update(index_of_key(s, k), LedgerEntry { key: k, balance: b }), k),
        balance_of(s.update(index_of_key(s, k), LedgerEntry { key: k, balance: b }), k) == b,
        forall|k2: Key| k2 != k ==> (has_key(
            s.update(index_of_key(s, k), LedgerEntry { key: k, balance: b }),
            k2,
        ) <==> has_key(s, k2)),
        forall|k2: Key| k2 != k && has_key(s, k2) ==> balance_of(
            s.update(index_of_key(s, k), LedgerEntry { key: k, balance: b }),
            k2,
        ) == balance_of(s, k2),
{
    let i = index_of_key(s, k);
    assert(0 <= i < s.len() && s[i].key == k);
    let e = LedgerEntry { key: k, balance: b };
    lemma_update_keeps_sorted(s, i, e);
    let t = s.update(i, e);
    assert(t[i] == e);
    lemma_index_of_key(t, i);
    assert forall|k2: Key| k2 != k implies (has_key(t, k2) <==> has_key(s, k2)) by {
        if has_key(s, k2) {
            let j = choose|j: int| 0 <= j < s.len() && s[j].key == k2;
            assert(j != i);
            assert(t[j] == s[j]);
            assert(has_key(t, k2));
        }
        if has_key(t, k2) {
            let j = choose|j: int| 0 <= j < t.len() && t[j].key == k2;
            assert(j != i);
            assert(s[j] == t[j]);
            assert(has_key(s, k2));
        }
    }
    assert forall|k2: Key| k2 != k && has_key(s, k2) implies balance_of(t, k2) == balance_of(
        s,
        k2,
    ) by {
        let j = choose|j: int| 0 <= j < s.len() && s[j].key == k2;
        assert(j != i);
        lemma_index_of_key(s, j);
        assert(t[j] == s[j]);
        lemma_index_of_key(t, j);
    }
}

/// What deleting one key's entry leaves behind: the table stays sorted,
/// shrinks by one, no longer carries the key, and every other key's presence
/// and balance are untouched.
pub proof fn lemma_remove_facts(s: Seq<LedgerEntry>, k: Key)
    requires
        sorted_by_key(s),
        has_key(s, k),
    ensures
        sorted_by_key(s.remove(index_of_key(s, k))),
        s.remove(index_of_key(s, k)).len() == s.len() - 1,
        !has_key(s.remove(index_of_key(s, k)), k),
        forall|k2: Key| k2 != k ==> (has_key(s.remove(index_of_key(s, k)), k2) <==> has_key(
            s,
            k2,
        )),
        forall|k2: Key| k2 != k && has_key(s, k2) ==> balance_of(s.remove(index_of_key(s, k)), k2)
            == balance_of(s, k2),
{
    let i = index_of_key(s, k);
    assert(0 <= i < s.len() && s[i].key == k);
    lemma_remove_keeps_sorted(s, i);
    let t = s.remove(i);
    assert(!has_key(t, k)) by {
        if has_key(t, k) {
            let j = choose|j: int| 0 <= j < t.len() && t[j].key == k;
            if j < i {
                assert(t[j] == s[j]);
                lemma_index_of_key(s, j);
            } else {
                assert(t[j] == s[j + 1]);
                lemma_index_of_key(s, j + 1);
            }
            lemma_index_of_key(s, i);
        }
    }
    assert forall|k2: Key| k2 != k implies (has_key(t, k2) <==> has_key(s, k2)) by {
        if has_key(s, k2) {
            let j = choose|j: int| 0 <= j < s.len() && s[j].key == k2;
            assert(j != i);
            if j < i {
                assert(t[j] == s[j]);
                assert(has_key(t, k2));
            } else {
                assert(t[j - 1] == s[j]);
                assert(has_key(t, k2));
            }
        }
        if has_key(t, k2) {
            let j = choose|j: int| 0 <= j < t.len() && t[j].key == k2;
            if j < i {
                assert(s[j] == t[j]);
                assert(has_key(s, k2));
            } else {
                assert(s[j + 1] == t[j]);
                assert(has_key(s, k2));
            }
        }
    }
    assert forall|k2: Key| k2 != k && has_key(s, k2) implies balance_of(t, k2) == balance_of(
        s,
        k2,
    ) by {
        let j = choose|j: int| 0 <= j < s.len() && s[j].key == k2;
        assert(j != i);
        lemma_index_of_key(s, j);
        if j < i {
            assert(t[j] == s[j]);
            lemma_index_of_key(t, j);
        } else {
            assert(t[j - 1] == s[j]);
            lemma_index_of_key(t, j - 1);
        }
    }
}

/// No negative balance: balances are unsigned 64-bit values, and
/// `spec_withdraw` only succeeds when the balance covers the amount, so no
/// sequence of deposits and withdrawals can drive any balance below zero.
pub proof fn lemma_no_negative_balance(s: Seq<LedgerEntry>, k: Key)
    ensures
        0 <= balance_of(s, k) <= u64::MAX,
{
}

/// Deposit is additive and creates on first use: depositing `a` and then `b`
/// to the same fresh key creates exactly one entry and leaves it holding
/// exactly `a + b`.
pub proof fn lemma_deposit_additive(s: Seq<LedgerEntry>, k: Key, a: u64, b: u64)
    requires
        sorted_by_key(s),
        !has_key(s, k),
        a + b <= u64::MAX,
    ensures
        spec_deposit(s, k, a) matches Ok(s1) && balance_of(s1, k) == a && s1.len() == s.len() + 1
            && (spec_deposit(s1, k, b) matches Ok(s2) && balance_of(s2, k) == a + b && s2.len()
            == s.len() + 1),
{
    lemma_insert_sorted_facts(s, LedgerEntry { key: k, balance: a });
    let s1 = insert_sorted(s, LedgerEntry { key: k, balance: a });
    lemma_update_facts(s1, k, (a + b) as u64);
}

/// Withdraw exactness: depositing `a` to a fresh key and withdrawing all of
/// it leaves the key present with balance exactly zero — a withdrawal never
/// deletes an entry, even at zero balance.
pub proof fn lemma_withdraw_exact(s: Seq<LedgerEntry>, k: Key, a: u64)
    requires
        sorted_by_key(s),
        !has_key(s, k),
    ensures
        spec_deposit(s, k, a) matches Ok(s1) && (spec_withdraw(s1, k, a) matches Ok(s2)
            && has_key(s2, k) && balance_of(s2, k) == 0 && s2.len() == s1.len()),
{
    lemma_insert_sorted_facts(s, LedgerEntry { key: k, balance: a });
    let s1 = insert_sorted(s, LedgerEntry { key: k, balance: a });
    lemma_update_facts(s1, k, 0);
}

/// Overdraft rejected: withdrawing more than the recorded balance fails with
/// `InsufficientFunds`; the operation contracts add that the ledger is then
/// left unmodified.
pub proof fn lemma_overdraft_rejected(s: Seq<LedgerEntry>, k: Key, a: u64)
    requires
        has_key(s, k),
        balance_of(s, k) < a,
    ensures
        spec_withdraw(s, k, a) == Err::<Seq<LedgerEntry>, LedgerError>(
            LedgerError::InsufficientFunds,
        ),
{
}

/// Unknown keys: withdrawing from a key with no entry fails
/// `UninitializedAccount` (existence precedes the amount check), and removing
/// one fails `KeyNotFound`.
pub proof fn lemma_unknown_key(s: Seq<LedgerEntry>, k: Key, a: u64)
    requires
        !has_key(s, k),
    ensures
        spec_withdraw(s, k, a) == Err::<Seq<LedgerEntry>, LedgerError>(
            LedgerError::UninitializedAccount,
        ),
        spec_remove(s, k) == Err::<(u64, Seq<LedgerEntry>), LedgerError>(LedgerError::KeyNotFound),
{
}

/// Removing an entry keeps the table sorted.
pub proof fn lemma_remove_keeps_sorted(s: Seq<LedgerEntry>, i: int)
    requires
        sorted_by_key(s),
        0 <= i < s.len(),
    ensures
        sorted_by_key(s.remove(i)),
{
    let t = s.remove(i);
    assert forall|p: int, q: int| 0 <= p < q < t.len() implies key_lt(t[p].key, t[q].key) by {
        if q < i {
            assert(t[p] == s[p] && t[q] == s[q]);
        } else if p < i {
            assert(t[p] == s[p] && t[q] == s[q + 1]);
        } else {
            assert(t[p] == s[p + 1] && t[q] == s[q + 1]);
        }
    }
}

} // verus!
