//! The engine's output store and the read-only snapshot of remote state it
//! is assembled from.

use vstd::prelude::*;

verus! {

/// A 20-byte contract address.
#[derive(Debug)]
pub struct Address {
    pub bytes: Vec<u8>,
}

impl View for Address {
    type V = Seq<u8>;

    open spec fn view(&self) -> Seq<u8> {
        self.bytes@
    }
}

impl Address {
    pub open spec fn wf(&self) -> bool {
        self.bytes@.len() == 20
    }

    /// Whether two addresses hold the same bytes.
    pub fn same(&self, other: &Address) -> (r: bool)
        ensures
            r == (self@ == other@),
    {
        let n = self.bytes.len();
        if n != other.bytes.len() {
            proof {
                assert(self@.len() != other@.len());
            }
            return false;
        }
        let mut j: usize = 0;
        while j < n
            invariant
                j <= n,
                n == self.bytes@.len(),
                n == other.bytes@.len(),
                forall|i: int| 0 <= i < j ==> self.bytes@[i] == other.bytes@[i],
            decreases n - j,
        {
            if self.bytes[j] != other.bytes[j] {
                return false;
            }
            j += 1;
        }
        proof {
            assert(self@ =~= other@);
        }
        true
    }

    /// A copy of the address, byte for byte.
    pub fn duplicate(&self) -> (r: Address)
        ensures
            r@ == self@,
    {
        let mut bytes: Vec<u8> = Vec::new();
        let mut j: usize = 0;
        let n = self.bytes.len();
        while j < n
            invariant
                j <= n,
                n == self.bytes@.len(),
                bytes@ =~= self.bytes@.subrange(0, j as int),
            decreases n - j,
        {
            bytes.push(self.bytes[j]);
            j += 1;
        }
        proof {
            assert(bytes@ =~= self.bytes@);
        }
        Address { bytes }
    }
}

/// The account metadata kept for a contract: balance, nonce, code hash and
/// bytecode.
#[derive(Debug)]
pub struct AccountRecord {
    pub balance: crate::word::Word,
    pub nonce: u64,
    pub code_hash: crate::word::Word,
    pub code: Vec<u8>,
}

impl View for AccountRecord {
    type V = (Seq<u8>, u64, Seq<u8>, Seq<u8>);

    open spec fn view(&self) -> (Seq<u8>, u64, Seq<u8>, Seq<u8>) {
        (self.balance@, self.nonce, self.code_hash@, self.code@)
    }
}

impl AccountRecord {
    pub open spec fn wf(&self) -> bool {
        self.balance.wf() && self.code_hash.wf()
    }

    /// A copy of the record, field for field.
    pub fn duplicate(&self) -> (r: AccountRecord)
        ensures
            r@ == self@,
            r.wf() == self.wf(),
    {
        let mut code: Vec<u8> = Vec::new();
        let mut j: usize = 0;
        let n = self.code.len();
        while j < n
            invariant
                j <= n,
                n == self.code@.len(),
                code@ =~= self.code@.subrange(0, j as int),
            decreases n - j,
        {
            code.push(self.code[j]);
            j += 1;
        }
        proof {
            assert(code@ =~= self.code@);
        }
        AccountRecord {
            balance: self.balance.duplicate(),
            nonce: self.nonce,
            code_hash: self.code_hash.duplicate(),
            code,
        }
    }
}

/// The account the first entry for this address holds, if any.
pub open spec fn acct_find(entries: Seq<(Address, AccountRecord)>, a: Seq<u8>) -> Option<
    AccountRecord,
>
    decreases entries.len(),
{
    if entries.len() == 0 {
        None
    } else if entries.first().0@ == a {
        Some(entries.first().1)
    } else {
        acct_find(entries.drop_first(), a)
    }
}

/// The word the first entry for this (address, slot) pair holds, if any.
pub open spec fn slot_find(entries: Seq<((Address, crate::word::Word), crate::word::Word)>, a: Seq<
    u8,
>, s: Seq<u8>) -> Option<Seq<u8>>
    decreases entries.len(),
{
    if entries.len() == 0 {
        None
    } else if entries.first().0.0@ == a && entries.first().0.1@ == s {
        Some(entries.first().1@)
    } else {
        slot_find(entries.drop_first(), a, s)
    }
}

proof fn lemma_acct_find_skip(entries: Seq<(Address, AccountRecord)>, a: Seq<u8>, j: int)
    requires
        0 <= j <= entries.len(),
        forall|k: int| 0 <= k < j ==> #[trigger] entries[k].0@ != a,
    ensures
        acct_find(entries, a) == acct_find(entries.subrange(j, entries.len() as int), a),
    decreases j,
{
    if j > 0 {
        assert(entries[0].0@ != a);
        let t1 = entries.drop_first();
        assert(t1 =~= entries.subrange(1, entries.len() as int));
        assert(forall|k: int| 0 <= k < j - 1 ==> #[trigger] t1[k].0@ != a) by {
            assert(forall|k: int| 0 <= k < j - 1 ==> t1[k] == entries[k + 1]);
        }
        lemma_acct_find_skip(t1, a, j - 1);
        assert(acct_find(entries, a) == acct_find(t1, a));
        let rec = t1.subrange(j - 1, t1.len() as int);
        assert(rec =~= entries.subrange(j, entries.len() as int));
    } else {
        assert(entries.subrange(0, entries.len() as int) =~= entries);
    }
}

proof fn lemma_slot_find_skip(
    entries: Seq<((Address, crate::word::Word), crate::word::Word)>,
    a: Seq<u8>,
    s: Seq<u8>,
    j: int,
)
    requires
        0 <= j <= entries.len(),
        forall|k: int| 0 <= k < j ==> #[trigger] entries[k].0.0@ != a || #[trigger] entries[k].0.1@
            != s,
    ensures
        slot_find(entries, a, s) == slot_find(entries.subrange(j, entries.len() as int), a, s),
    decreases j,
{
    if j > 0 {
        assert(entries[0].0.0@ != a || entries[0].0.1@ != s);
        let t1 = entries.drop_first();
        assert(t1 =~= entries.subrange(1, entries.len() as int));
        assert(forall|k: int|
            0 <= k < j - 1 ==> #[trigger] t1[k].0.0@ != a || #[trigger] t1[k].0.1@ != s) by {
            assert(forall|k: int| 0 <= k < j - 1 ==> t1[k] == entries[k + 1]);
        }
        lemma_slot_find_skip(t1, a, s, j - 1);
        assert(slot_find(entries, a, s) == slot_find(t1, a, s));
        let rec = t1.subrange(j - 1, t1.len() as int);
        assert(rec =~= entries.subrange(j, entries.len() as int));
    } else {
        assert(entries.subrange(0, entries.len() as int) =~= entries);
    }
}

/// Appending an account entry resolves its address and leaves others as
/// they were.
proof fn lemma_acct_find_push(
    entries: Seq<(Address, AccountRecord)>,
    e: (Address, AccountRecord),
    a: Seq<u8>,
)
    ensures
        acct_find(entries.push(e), a) == if acct_find(entries, a) is Some {
            acct_find(entries, a)
        } else if e.0@ == a {
            Some(e.1)
        } else {
            None
        },
    decreases entries.len(),
{
    if entries.len() == 0 {
        assert(entries.push(e).first() == e);
        assert(entries.push(e).drop_first() =~= Seq::<(Address, AccountRecord)>::empty());
        assert(acct_find(Seq::<(Address, AccountRecord)>::empty(), a) is None);
        assert(acct_find(entries, a) is None);
    } else {
        assert(entries.push(e).first() == entries.first());
        assert(entries.push(e).drop_first() =~= entries.drop_first().push(e));
        lemma_acct_find_push(entries.drop_first(), e, a);
        assert(acct_find(entries.push(e), a) == if entries.first().0@ == a {
            Some(entries.first().1)
        } else {
            acct_find(entries.drop_first().push(e), a)
        });
        assert(acct_find(entries, a) == if entries.first().0@ == a {
            Some(entries.first().1)
        } else {
            acct_find(entries.drop_first(), a)
        });
    }
}

/// Appending a storage entry resolves its key and leaves others as they
/// were.
proof fn lemma_slot_find_push(
    entries: Seq<((Address, crate::word::Word), crate::word::Word)>,
    e: ((Address, crate::word::Word), crate::word::Word),
    a: Seq<u8>,
    s: Seq<u8>,
)
    ensures
        slot_find(entries.push(e), a, s) == if slot_find(entries, a, s) is Some {
            slot_find(entries, a, s)
        } else if e.0.0@ == a && e.0.1@ == s {
            Some(e.1@)
        } else {
            None
        },
    decreases entries.len(),
{
    if entries.len() == 0 {
        assert(entries.push(e).first() == e);
        assert(entries.push(e).drop_first() =~= Seq::<((Address, crate::word::Word),
            crate::word::Word)>::empty());
        assert(slot_find(Seq::<((Address, crate::word::Word), crate::word::Word)>::empty(), a, s)
            is None);
        assert(slot_find(entries, a, s) is None);
    } else {
        assert(entries.push(e).first() == entries.first());
        assert(entries.push(e).drop_first() =~= entries.drop_first().push(e));
        lemma_slot_find_push(entries.drop_first(), e, a, s);
        assert(slot_find(entries.push(e), a, s) == if entries.first().0.0@ == a
            && entries.first().0.1@ == s {
            Some(entries.first().1@)
        } else {
            slot_find(entries.drop_first().push(e), a, s)
        });
        assert(slot_find(entries, a, s) == if entries.first().0.0@ == a && entries.first().0.1@
            == s {
            Some(entries.first().1@)
        } else {
            slot_find(entries.drop_first(), a, s)
        });
    }
}

/// Scans an account list for an address.
fn find_account<'a>(entries: &'a Vec<(Address, AccountRecord)>, a: &Address) -> (r: Option<
    &'a AccountRecord,
>)
    ensures
        match r {
            Some(rec) => acct_find(entries@, a@) == Some(*rec),
            None => acct_find(entries@, a@) is None,
        },
{
    let n = entries.len();
    let mut j: usize = 0;
    while j < n
        invariant
            j <= n,
            n == entries@.len(),
            forall|k: int| 0 <= k < j ==> #[trigger] entries@[k].0@ != a@,
        decreases n - j,
    {
        if entries[j].0.same(a) {
            proof {
                lemma_acct_find_skip(entries@, a@, j as int);
                assert(entries@.subrange(j as int, n as int).first() == entries@[j as int]);
            }
            return Some(&entries[j].1);
        }
        j += 1;
    }
    proof {
        lemma_acct_find_skip(entries@, a@, n as int);
        assert(entries@.subrange(n as int, n as int) =~= Seq::<(Address, AccountRecord)>::empty());
    }
    None
}

/// Scans a storage list for an (address, slot) pair.
fn find_slot<'a>(
    entries: &'a Vec<((Address, crate::word::Word), crate::word::Word)>,
    a: &Address,
    s: &crate::word::Word,
) -> (r: Option<&'a crate::word::Word>)
    ensures
        match r {
            Some(w) => slot_find(entries@, a@, s@) == Some(w@),
            None => slot_find(entries@, a@, s@) is None,
        },
{
    let n = entries.len();
    let mut j: usize = 0;
    while j < n
        invariant
            j <= n,
            n == entries@.len(),
            forall|k: int| 0 <= k < j ==> #[trigger] entries@[k].0.0@ != a@ || #[trigger]
            entries@[k].0.1@ != s@,
        decreases n - j,
    {
        if entries[j].0.0.same(a) && entries[j].0.1.same(s) {
            proof {
                lemma_slot_find_skip(entries@, a@, s@, j as int);
                assert(entries@.subrange(j as int, n as int).first() == entries@[j as int]);
            }
            return Some(&entries[j].1);
        }
        j += 1;
    }
    proof {
        lemma_slot_find_skip(entries@, a@, s@, n as int);
        assert(entries@.subrange(n as int, n as int) =~= Seq::<((Address, crate::word::Word),
            crate::word::Word)>::empty());
    }
    None
}

/// Read-only remote state, fetched once at a fixed block height: what the
/// remote state client returned for each queried account and storage slot.
/// An absent entry stands for a failed or missing fetch.
#[derive(Debug)]
pub struct RemoteSnapshot {
    pub block_number: u64,
    pub accounts: Vec<(Address, AccountRecord)>,
    pub storage: Vec<((Address, crate::word::Word), crate::word::Word)>,
}

impl RemoteSnapshot {
    pub open spec fn account_of(&self, a: Seq<u8>) -> Option<AccountRecord> {
        acct_find(self.accounts@, a)
    }

    pub open spec fn storage_at(&self, a: Seq<u8>, s: Seq<u8>) -> Option<Seq<u8>> {
        slot_find(self.storage@, a, s)
    }

    /// The account metadata fetched for an address, if the fetch succeeded.
    pub fn get_account(&self, a: &Address) -> (r: Option<&AccountRecord>)
        ensures
            match r {
                Some(rec) => self.account_of(a@) == Some(*rec),
                None => self.account_of(a@) is None,
            },
    {
        find_account(&self.accounts, a)
    }

    /// The word fetched for a storage slot, if the fetch succeeded.
    pub fn get_storage(&self, a: &Address, s: &crate::word::Word) -> (r: Option<
        &crate::word::Word,
    >)
        ensures
            match r {
                Some(w) => self.storage_at(a@, s@) == Some(w@),
                None => self.storage_at(a@, s@) is None,
            },
    {
        find_slot(&self.storage, a, s)
    }
}

/// The engine's output: account metadata per address, and one 256-bit word
/// per (address, slot) key. Storage is only ever held for an address whose
/// account record is present.
#[derive(Debug)]
pub struct LocalStateStore {
    accounts: Vec<(Address, AccountRecord)>,
    storage: Vec<((Address, crate::word::Word), crate::word::Word)>,
}

impl LocalStateStore {
    pub closed spec fn accounts_seq(&self) -> Seq<(Address, AccountRecord)> {
        self.accounts@
    }

    pub closed spec fn storage_seq(&self) -> Seq<((Address, crate::word::Word), crate::word::Word)> {
        self.storage@
    }

    pub closed spec fn account_of(&self, a: Seq<u8>) -> Option<AccountRecord> {
        acct_find(self.accounts@, a)
    }

    pub closed spec fn storage_at(&self, a: Seq<u8>, s: Seq<u8>) -> Option<Seq<u8>> {
        slot_find(self.storage@, a, s)
    }

    /// No storage entry's address lacks an account record.
    pub closed spec fn wf(&self) -> bool {
        forall|i: int|
            0 <= i < self.storage@.len() ==> acct_find(
                self.accounts@,
                (#[trigger] self.storage@[i].0.0)@,
            ) is Some
    }

    /// An empty store.
    pub fn new() -> (r: LocalStateStore)
        ensures
            r.wf(),
            r.accounts_seq().len() == 0,
            r.storage_seq().len() == 0,
            forall|a: Seq<u8>| r.account_of(a) is None,
            forall|a: Seq<u8>, s: Seq<u8>| r.storage_at(a, s) is None,
    {
        let r = LocalStateStore { accounts: Vec::new(), storage: Vec::new() };
        proof {
            assert(r.accounts@ =~= Seq::<(Address, AccountRecord)>::empty());
            assert(r.storage@ =~= Seq::<((Address, crate::word::Word),
                crate::word::Word)>::empty());
        }
        r
    }

    /// Records an account's metadata. An address is only recorded once.
    pub fn insert_account_info(&mut self, address: Address, info: AccountRecord)
        requires
            old(self).wf(),
            old(self).account_of(address@) is None,
        ensures
            final(self).wf(),
            final(self).account_of(address@) == Some(info),
            forall|a: Seq<u8>| a != address@ ==> final(self).account_of(a) == old(
                self,
            ).account_of(a),
            final(self).storage_seq() == old(self).storage_seq(),
            forall|a: Seq<u8>, s: Seq<u8>|
                final(self).storage_at(a, s) == old(self).storage_at(a, s),
            final(self).accounts_seq() == old(self).accounts_seq().push((address, info)),
    {
        proof {
            assert forall|a: Seq<u8>|
                acct_find(self.accounts@.push((address, info)), a) == if acct_find(
                    self.accounts@,
                    a,
                ) is Some {
                    acct_find(self.accounts@, a)
                } else if address@ == a {
                    Some(info)
                } else {
                    None
                } by {
                lemma_acct_find_push(self.accounts@, (address, info), a);
            }
        }
        let ghost prev = self.accounts@;
        self.accounts.push((address, info));
        proof {
            assert(self.accounts@ == prev.push((address, info)));
            assert forall|i: int|
                0 <= i < self.storage@.len() implies acct_find(
                self.accounts@,
                (#[trigger] self.storage@[i].0.0)@,
            ) is Some by {
                assert(acct_find(prev, self.storage@[i].0.0@) is Some);
            }
        }
    }

    /// Records one fetched storage word. The account must already be
    /// recorded, so the store never holds storage for an unknown address.
    pub fn insert_account_storage(
        &mut self,
        address: Address,
        slot: crate::word::Word,
        value: crate::word::Word,
    )
        requires
            old(self).wf(),
            old(self).account_of(address@) is Some,
            old(self).storage_at(address@, slot@) is None,
        ensures
            final(self).wf(),
            final(self).storage_at(address@, slot@) == Some(value@),
            forall|a: Seq<u8>, s: Seq<u8>|
                a != address@ || s != slot@ ==> final(self).storage_at(a, s) == old(
                    self,
                ).storage_at(a, s),
            final(self).accounts_seq() == old(self).accounts_seq(),
            forall|a: Seq<u8>| final(self).account_of(a) == old(self).account_of(a),
            final(self).storage_seq() == old(self).storage_seq().push(
                ((address, slot), value),
            ),
    {
        proof {
            assert forall|a: Seq<u8>, s: Seq<u8>|
                slot_find(self.storage@.push(((address, slot), value)), a, s) == if slot_find(
                    self.storage@,
                    a,
                    s,
                ) is Some {
                    slot_find(self.storage@, a, s)
                } else if address@ == a && slot@ == s {
                    Some(value@)
                } else {
                    None
                } by {
                lemma_slot_find_push(self.storage@, ((address, slot), value), a, s);
            }
        }
        let ghost prev = self.storage@;
        self.storage.push(((address, slot), value));
        proof {
            assert(self.storage@ == prev.push(((address, slot), value)));
        }
    }

    /// The account recorded for an address, if any.
    pub fn get_account(&self, a: &Address) -> (r: Option<&AccountRecord>)
        ensures
            match r {
                Some(rec) => self.account_of(a@) == Some(*rec),
                None => self.account_of(a@) is None,
            },
    {
        find_account(&self.accounts, a)
    }

    /// The word recorded for a storage slot, if any.
    pub fn get_storage(&self, a: &Address, s: &crate::word::Word) -> (r: Option<
        &crate::word::Word,
    >)
        ensures
            match r {
                Some(w) => self.storage_at(a@, s@) == Some(w@),
                None => self.storage_at(a@, s@) is None,
            },
    {
        find_slot(&self.storage, a, s)
    }

    /// The recorded accounts, in insertion order.
    pub fn accounts_list(&self) -> (r: &Vec<(Address, AccountRecord)>)
        ensures
            r@ == self.accounts_seq(),
    {
        &self.accounts
    }

    /// The recorded storage entries, in insertion order.
    pub fn storage_list(&self) -> (r: &Vec<((Address, crate::word::Word), crate::word::Word)>)
        ensures
            r@ == self.storage_seq(),
    {
        &self.storage
    }
}

/// A storage entry's key appears among the entries whenever lookup finds it.
proof fn lemma_slot_find_witness(
    entries: Seq<((Address, crate::word::Word), crate::word::Word)>,
    a: Seq<u8>,
    s: Seq<u8>,
)
    requires
        slot_find(entries, a, s) is Some,
    ensures
        exists|i: int|
            0 <= i < entries.len() && (#[trigger] entries[i].0.0)@ == a && entries[i].0.1@ == s,
    decreases entries.len(),
{
    if entries.first().0.0@ == a && entries.first().0.1@ == s {
        assert(entries[0].0.0@ == a && entries[0].0.1@ == s);
    } else {
        lemma_slot_find_witness(entries.drop_first(), a, s);
        let i = choose|i: int|
            0 <= i < entries.drop_first().len() && (#[trigger] entries.drop_first()[i].0.0)@ == a
                && entries.drop_first()[i].0.1@ == s;
        assert(entries.drop_first()[i] == entries[i + 1]);
        assert((entries[i + 1].0.0)@ == a && entries[i + 1].0.1@ == s);
    }
}

/// A well-formed store never holds a storage entry for an address with no
/// corresponding account entry.
pub proof fn lemma_store_covered(store: &LocalStateStore, a: Seq<u8>, s: Seq<u8>)
    requires
        store.wf(),
        store.storage_at(a, s) is Some,
    ensures
        store.account_of(a) is Some,
{
    lemma_slot_find_witness(store.storage@, a, s);
    let i = choose|i: int|
        0 <= i < store.storage@.len() && (#[trigger] store.storage@[i].0.0)@ == a
            && store.storage@[i].0.1@ == s;
    assert(acct_find(store.accounts@, store.storage@[i].0.0@) is Some);
}

} // verus!
