//! Digesting a fork configuration: for every declared contract, derive the
//! storage slots its variables and configured mapping entries occupy, read
//! each from the remote snapshot, and assemble the local state store.

use vstd::prelude::*;

use crate::derive::{derive_entry_slot, mapping_slot_of, spec_key_bytes};
use crate::errors::DigestError;
use crate::layout::{find_type_spec, StorageItem, StorageLayout, StorageType};
use crate::store::{Address, LocalStateStore, RemoteSnapshot};
use crate::word::{be32, dec_value, is_dec_seq, parse_dec_u64, pow256, Word};

verus! {

/// The run's configuration: where to fetch from, at which block height, and
/// which contracts to reconstruct.
#[derive(Debug)]
pub struct ForkConfig {
    pub output_path: Option<String>,
    pub output_filename: String,
    pub provider: String,
    pub block_number: u64,
    pub contracts: Vec<ContractData>,
}

/// One declared contract: its address, where its layout artifact lives, and
/// the hex keys to materialize per mapping variable label.
#[derive(Debug)]
pub struct ContractData {
    pub address: Address,
    pub artifacts_path: String,
    pub mappings: Vec<(String, Vec<String>)>,
}

/// What one contract's processing came to: `None` on success, otherwise the
/// failure kind, plus how many unsupported items were skipped with a
/// diagnostic.
#[derive(Debug)]
pub struct ContractReport {
    pub failure: Option<DigestError>,
    pub skipped: u64,
}

/// No two declared contracts share an address.
pub open spec fn unique_addresses(contracts: Seq<ContractData>) -> bool {
    forall|p: int, q: int|
        0 <= p < q < contracts.len() ==> (#[trigger] contracts[p].address)@ != (
        #[trigger] contracts[q].address)@
}

/// The configured key list the first entry for this label holds, if any.
pub open spec fn keys_find(mappings: Seq<(String, Vec<String>)>, label: Seq<char>) -> Option<
    Vec<String>,
>
    decreases mappings.len(),
{
    if mappings.len() == 0 {
        None
    } else if mappings.first().0@ == label {
        Some(mappings.first().1)
    } else {
        keys_find(mappings.drop_first(), label)
    }
}

/// The views of a sequence of words.
pub open spec fn word_views(ws: Seq<Word>) -> Seq<Seq<u8>> {
    Seq::new(ws.len(), |i: int| ws[i]@)
}

/// The slots the configured keys of one mapping derive to, in order; the
/// first invalid key decides the error.
pub open spec fn spec_mapping_slots(keys: Seq<String>, width: nat, declared: Seq<u8>) -> Result<
    Seq<Seq<u8>>,
    DigestError,
>
    decreases keys.len(),
{
    if keys.len() == 0 {
        Ok(Seq::empty())
    } else {
        match spec_key_bytes(keys.first()@) {
            Option::None => Err(DigestError::ConfigError),
            Option::Some(kb) => {
                if kb.len() > 32 || kb.len() > width {
                    Err(DigestError::KeyTooLongError)
                } else {
                    match spec_mapping_slots(keys.drop_first(), width, declared) {
                        Err(e) => Err(e),
                        Ok(rest) => Ok(seq![mapping_slot_of(kb, declared)] + rest),
                    }
                }
            },
        }
    }
}

/// What one storage item comes to: a flag saying whether it was skipped as
/// unsupported (with a diagnostic), and the slots to fetch; or the error
/// that makes its contract fail.
///
/// A Simple item requests exactly its declared slot. A Mapping item whose
/// value type is Simple requests one derived slot per configured key — none
/// when no keys are configured. A Mapping item whose value or key type is
/// itself a Mapping is skipped. A type id absent from the table is an
/// `UnknownTypeError`.
pub open spec fn spec_item_outcome(
    item: StorageItem,
    types: Seq<(String, StorageType)>,
    mappings: Seq<(String, Vec<String>)>,
) -> Result<(bool, Seq<Seq<u8>>), DigestError> {
    match find_type_spec(types, item.type_@) {
        Option::None => Err(DigestError::UnknownTypeError),
        Option::Some(t) => match t {
            StorageType::Simple { .. } => {
                if is_dec_seq(item.slot@) && dec_value(item.slot@) < pow256(32) {
                    Ok((false, seq![be32(dec_value(item.slot@))]))
                } else {
                    Err(DigestError::ParseError)
                }
            },
            StorageType::Mapping { key, value, .. } => match find_type_spec(types, value@) {
                Option::None => Err(DigestError::UnknownTypeError),
                Option::Some(StorageType::Mapping { .. }) => Ok((true, Seq::empty())),
                Option::Some(StorageType::Simple { .. }) => match find_type_spec(types, key@) {
                    Option::None => Err(DigestError::UnknownTypeError),
                    Option::Some(StorageType::Mapping { .. }) => Ok((true, Seq::empty())),
                    Option::Some(StorageType::Simple { number_of_bytes: nb, .. }) => {
                        if !(is_dec_seq(nb@) && dec_value(nb@) < 0x1_0000_0000_0000_0000) {
                            Err(DigestError::ParseError)
                        } else if !(is_dec_seq(item.slot@) && dec_value(item.slot@) < pow256(
                            32,
                        )) {
                            Err(DigestError::ParseError)
                        } else {
                            match keys_find(mappings, item.label@) {
                                Option::None => Ok((false, Seq::empty())),
                                Option::Some(keys) => match spec_mapping_slots(
                                    keys@,
                                    dec_value(nb@),
                                    be32(dec_value(item.slot@)),
                                ) {
                                    Err(e) => Err(e),
                                    Ok(slots) => Ok((false, slots)),
                                },
                            }
                        }
                    },
                },
            },
        },
    }
}

/// What a whole layout comes to: how many items were skipped and every slot
/// to fetch, in item order; the first failing item decides the error.
pub open spec fn spec_contract_slots(
    items: Seq<StorageItem>,
    types: Seq<(String, StorageType)>,
    mappings: Seq<(String, Vec<String>)>,
) -> Result<(nat, Seq<Seq<u8>>), DigestError>
    decreases items.len(),
{
    if items.len() == 0 {
        Ok((0, Seq::empty()))
    } else {
        match spec_item_outcome(items.first(), types, mappings) {
            Err(e) => Err(e),
            Ok(o) => match spec_contract_slots(items.drop_first(), types, mappings) {
                Err(e) => Err(e),
                Ok(rest) => Ok(
                    (((if o.0 {
                        1nat
                    } else {
                        0nat
                    }) + rest.0), o.1 + rest.1),
                ),
            },
        }
    }
}

/// A Simple item's one derived slot is its declared slot, byte for byte:
/// the canonical 32-byte encoding of the declared decimal slot number,
/// whatever any byte width says.
pub proof fn lemma_simple_item_slot(
    item: StorageItem,
    types: Seq<(String, StorageType)>,
    mappings: Seq<(String, Vec<String>)>,
)
    requires
        find_type_spec(types, item.type_@) matches Some(t) && t matches StorageType::Simple {
            ..
        },
        is_dec_seq(item.slot@),
        dec_value(item.slot@) < pow256(32),
    ensures
        spec_item_outcome(item, types, mappings) == Ok::<_, DigestError>(
            (false, seq![be32(dec_value(item.slot@))]),
        ),
        crate::word::be_nat(be32(dec_value(item.slot@))) == dec_value(item.slot@),
{
    crate::word::lemma_be_bytes_value(dec_value(item.slot@), 32);
}

/// A mapping whose value type is itself a mapping yields zero derived-slot
/// requests and one diagnostic, never an error and never a slot.
pub proof fn lemma_nested_mapping_skipped(
    item: StorageItem,
    types: Seq<(String, StorageType)>,
    mappings: Seq<(String, Vec<String>)>,
    value_id: String,
)
    requires
        find_type_spec(types, item.type_@) matches Some(t) && t matches StorageType::Mapping {
            value,
            ..
        } && value == value_id,
        find_type_spec(types, value_id@) matches Some(v) && v matches StorageType::Mapping { .. },
    ensures
        spec_item_outcome(item, types, mappings) == Ok::<_, DigestError>(
            (true, Seq::<Seq<u8>>::empty()),
        ),
{
}

/// Finds the configured key list for a variable label.
fn keys_get<'a>(mappings: &'a Vec<(String, Vec<String>)>, label: &String) -> (r: Option<
    &'a Vec<String>,
>)
    ensures
        match r {
            Some(ks) => keys_find(mappings@, label@) == Some(*ks),
            None => keys_find(mappings@, label@) is None,
        },
{
    let n = mappings.len();
    let mut j: usize = 0;
    while j < n
        invariant
            j <= n,
            n == mappings@.len(),
            forall|k: int| 0 <= k < j ==> #[trigger] mappings@[k].0@ != label@,
        decreases n - j,
    {
        if mappings[j].0.eq(label) {
            proof {
                lemma_keys_find_skip(mappings@, label@, j as int);
                assert(mappings@.subrange(j as int, n as int).first() == mappings@[j as int]);
            }
            return Some(&mappings[j].1);
        }
        j += 1;
    }
    proof {
        lemma_keys_find_skip(mappings@, label@, n as int);
        assert(mappings@.subrange(n as int, n as int) =~= Seq::<(String, Vec<String>)>::empty());
    }
    None
}

proof fn lemma_keys_find_skip(mappings: Seq<(String, Vec<String>)>, label: Seq<char>, j: int)
    requires
        0 <= j <= mappings.len(),
        forall|k: int| 0 <= k < j ==> #[trigger] mappings[k].0@ != label,
    ensures
        keys_find(mappings, label) == keys_find(
            mappings.subrange(j, mappings.len() as int),
            label,
        ),
    decreases j,
{
    if j > 0 {
        assert(mappings[0].0@ != label);
        let t1 = mappings.drop_first();
        assert(t1 =~= mappings.subrange(1, mappings.len() as int));
        assert(forall|k: int| 0 <= k < j - 1 ==> #[trigger] t1[k].0@ != label) by {
            assert(forall|k: int| 0 <= k < j - 1 ==> t1[k] == mappings[k + 1]);
        }
        lemma_keys_find_skip(t1, label, j - 1);
        let rec = t1.subrange(j - 1, t1.len() as int);
        assert(rec =~= mappings.subrange(j, mappings.len() as int));
    } else {
        assert(mappings.subrange(0, mappings.len() as int) =~= mappings);
    }
}

/// Derives the slot requests of one storage item against its layout and the
/// contract's configured keys; reports whether the item was skipped as an
/// unsupported nested mapping.
pub fn derive_item(item: &StorageItem, layout: &StorageLayout, contract: &ContractData) -> (out:
    Result<(bool, Vec<Word>), DigestError>)
    ensures
        match out {
            Ok(r) => {
                &&& spec_item_outcome(*item, layout.types@, contract.mappings@) matches Ok(o)
                    && o.0 == r.0 && o.1 == word_views(r.1@)
                &&& forall|i: int| 0 <= i < r.1@.len() ==> (#[trigger] r.1@[i]).wf()
            },
            Err(e) => spec_item_outcome(*item, layout.types@, contract.mappings@) matches Err(e2)
                && e2 == e,
        },
{
    let t = match layout.find_type(&item.type_) {
        None => {
            return Err(DigestError::UnknownTypeError);
        },
        Some(t) => t,
    };
    match t {
        StorageType::Simple { .. } => {
            let w = match Word::from_decimal(item.slot.as_str()) {
                Ok(w) => w,
                Err(e) => {
                    return Err(e);
                },
            };
            let mut slots: Vec<Word> = Vec::new();
            slots.push(w);
            proof {
                assert(word_views(slots@) =~= seq![be32(dec_value(item.slot@))]);
            }
            Ok((false, slots))
        },
        StorageType::Mapping { key, value, .. } => {
            let vt = match layout.find_type(value) {
                None => {
                    return Err(DigestError::UnknownTypeError);
                },
                Some(vt) => vt,
            };
            match vt {
                StorageType::Mapping { .. } => {
                    proof {
                        assert(word_views(Seq::<Word>::empty()) =~= Seq::<Seq<u8>>::empty());
                    }
                    return Ok((true, Vec::new()));
                },
                StorageType::Simple { .. } => {},
            }
            let kt = match layout.find_type(key) {
                None => {
                    return Err(DigestError::UnknownTypeError);
                },
                Some(kt) => kt,
            };
            let nb = match kt {
                StorageType::Mapping { .. } => {
                    proof {
                        assert(word_views(Seq::<Word>::empty()) =~= Seq::<Seq<u8>>::empty());
                    }
                    return Ok((true, Vec::new()));
                },
                StorageType::Simple { number_of_bytes, .. } => number_of_bytes,
            };
            let width = match parse_dec_u64(nb.as_str()) {
                Ok(v) => v,
                Err(e) => {
                    return Err(e);
                },
            };
            let declared = match Word::from_decimal(item.slot.as_str()) {
                Ok(w) => w,
                Err(e) => {
                    return Err(e);
                },
            };
            let keys = match keys_get(&contract.mappings, &item.label) {
                None => {
                    proof {
                        assert(word_views(Seq::<Word>::empty()) =~= Seq::<Seq<u8>>::empty());
                    }
                    return Ok((false, Vec::new()));
                },
                Some(ks) => ks,
            };
            let ghost d = declared@;
            let ghost w_spec = width as nat;
            let n = keys.len();
            let mut slots: Vec<Word> = Vec::new();
            let mut j: usize = 0;
            proof {
                assert(keys@.subrange(0, n as int) =~= keys@);
            }
            while j < n
                invariant
                    j <= n,
                    n == keys@.len(),
                    declared.wf(),
                    d == declared@,
                    w_spec == width as nat,
                    forall|i: int| 0 <= i < slots@.len() ==> (#[trigger] slots@[i]).wf(),
                    spec_item_outcome(*item, layout.types@, contract.mappings@) == (match
                    spec_mapping_slots(keys@, w_spec, d) {
                        Err(e) => Err::<(bool, Seq<Seq<u8>>), DigestError>(e),
                        Ok(s) => Ok((false, s)),
                    }),
                    spec_mapping_slots(keys@, w_spec, d) == match spec_mapping_slots(
                        keys@.subrange(j as int, n as int),
                        w_spec,
                        d,
                    ) {
                        Err(e) => Err(e),
                        Ok(rest) => Ok(word_views(slots@) + rest),
                    },
                decreases n - j,
            {
                let ghost suffix = keys@.subrange(j as int, n as int);
                proof {
                    assert(suffix.len() > 0);
                    assert(suffix.first() == keys@[j as int]);
                    assert(suffix.drop_first() =~= keys@.subrange(j + 1, n as int));
                }
                match derive_entry_slot(keys[j].as_str(), width, &declared) {
                    Ok(w) => {
                        let ghost prev = slots@;
                        slots.push(w);
                        proof {
                            assert(word_views(prev.push(w)) =~= word_views(prev) + seq![w@]);
                            assert(forall|rest: Seq<Seq<u8>>|
                                (word_views(prev) + seq![w@]) + rest =~= word_views(prev) + (
                                seq![w@] + rest));
                        }
                    },
                    Err(e) => {
                        return Err(e);
                    },
                }
                j += 1;
            }
            proof {
                assert(keys@.subrange(n as int, n as int) =~= Seq::<String>::empty());
                assert(spec_mapping_slots(Seq::<String>::empty(), w_spec, d) matches Ok(r) && r
                    =~= Seq::<Seq<u8>>::empty());
                assert(word_views(slots@) + Seq::<Seq<u8>>::empty() =~= word_views(slots@));
            }
            Ok((false, slots))
        },
    }
}

/// Walks a contract's storage layout: derives every item's slot requests,
/// reads each derived slot from the snapshot, and records the words in the
/// store. Returns how many unsupported items were skipped with a
/// diagnostic, or the error that is fatal for this contract.
///
/// The store is only ever extended, and only under this contract's address;
/// a recorded word is always the snapshot's.
#[verifier::loop_isolation(false)]
pub fn create_storage_layout(
    contract_data: &ContractData,
    storage_layout: &StorageLayout,
    snapshot: &RemoteSnapshot,
    db: &mut LocalStateStore,
) -> (out: Result<u64, DigestError>)
    requires
        old(db).wf(),
        old(db).account_of(contract_data.address@) is Some,
    ensures
        final(db).wf(),
        final(db).accounts_seq() == old(db).accounts_seq(),
        forall|a: Seq<u8>| final(db).account_of(a) == old(db).account_of(a),
        forall|a: Seq<u8>, s: Seq<u8>|
            old(db).storage_at(a, s) is Some ==> final(db).storage_at(a, s) == old(
                db,
            ).storage_at(a, s),
        forall|a: Seq<u8>, s: Seq<u8>|
            final(db).storage_at(a, s) != old(db).storage_at(a, s) ==> a
                == contract_data.address@ && final(db).storage_at(a, s) == snapshot.storage_at(
                a,
                s,
            ),
        match out {
            Ok(skipped) => spec_contract_slots(
                storage_layout.storage@,
                storage_layout.types@,
                contract_data.mappings@,
            ) matches Ok(r) && skipped == r.0 && (forall|k: int|
                0 <= k < r.1.len() ==> snapshot.storage_at(
                    contract_data.address@,
                    #[trigger] r.1[k],
                ) is Some && final(db).storage_at(contract_data.address@, r.1[k]) is Some),
            Err(e) => match spec_contract_slots(
                storage_layout.storage@,
                storage_layout.types@,
                contract_data.mappings@,
            ) {
                Err(e2) => e == e2,
                Ok(r) => e == DigestError::RemoteFetchError && exists|k: int|
                    0 <= k < r.1.len() && snapshot.storage_at(
                        contract_data.address@,
                        #[trigger] r.1[k],
                    ) is None,
            },
        },
{
    let ghost t_tab = storage_layout.types@;
    let ghost maps = contract_data.mappings@;
    let ghost items = storage_layout.storage@;
    let ghost addr_v = contract_data.address@;
    let n = storage_layout.storage.len();
    let mut all_slots: Vec<Word> = Vec::new();
    let mut skips: u64 = 0;
    let mut j: usize = 0;
    proof {
        assert(items.subrange(0, n as int) =~= items);
        assert(word_views(all_slots@) =~= Seq::<Seq<u8>>::empty());
    }
    while j < n
        invariant
            j <= n,
            n == items.len(),
            items == storage_layout.storage@,
            t_tab == storage_layout.types@,
            maps == contract_data.mappings@,
            skips <= j,
            forall|i: int| 0 <= i < all_slots@.len() ==> (#[trigger] all_slots@[i]).wf(),
            spec_contract_slots(items, t_tab, maps) == (match spec_contract_slots(
                items.subrange(j as int, n as int),
                t_tab,
                maps,
            ) {
                Err(e) => Err::<(nat, Seq<Seq<u8>>), DigestError>(e),
                Ok(rest) => Ok(((skips + rest.0) as nat, word_views(all_slots@) + rest.1)),
            }),
        decreases n - j,
    {
        let ghost suffix = items.subrange(j as int, n as int);
        proof {
            assert(suffix.first() == items[j as int]);
            assert(suffix.drop_first() =~= items.subrange(j + 1, n as int));
        }
        match derive_item(&storage_layout.storage[j], storage_layout, contract_data) {
            Err(e) => {
                return Err(e);
            },
            Ok((sk, mut slots)) => {
                if sk {
                    skips = skips + 1;
                }
                let ghost prev_all = all_slots@;
                let ghost sv = slots@;
                let ghost o1 = word_views(slots@);
                all_slots.append(&mut slots);
                proof {
                    assert(all_slots@ == prev_all + sv);
                    assert(word_views(prev_all + sv) =~= word_views(prev_all) + o1);
                    assert(forall|r: Seq<Seq<u8>>|
                        (word_views(prev_all) + o1) + r =~= word_views(prev_all) + (o1 + r));
                }
            },
        }
        j += 1;
    }
    proof {
        assert(items.subrange(n as int, n as int) =~= Seq::<StorageItem>::empty());
        assert(spec_contract_slots(Seq::<StorageItem>::empty(), t_tab, maps) matches Ok(r)
            && r.1 =~= Seq::<Seq<u8>>::empty());
        assert(word_views(all_slots@) + Seq::<Seq<u8>>::empty() =~= word_views(all_slots@));
    }
    let ghost big_r1 = word_views(all_slots@);
    proof {
        assert(spec_contract_slots(items, t_tab, maps) matches Ok(r) && r.0 == skips && r.1
            == big_r1);
    }
    let m = all_slots.len();
    let mut k: usize = 0;
    while k < m
        invariant
            k <= m,
            m == all_slots@.len(),
            addr_v == contract_data.address@,
            items == storage_layout.storage@,
            t_tab == storage_layout.types@,
            maps == contract_data.mappings@,
            big_r1 == word_views(all_slots@),
            big_r1.len() == m,
            spec_contract_slots(items, t_tab, maps) matches Ok(r) && r.0 == skips && r.1
                == big_r1,
            db.wf(),
            db.accounts_seq() == old(db).accounts_seq(),
            forall|a: Seq<u8>| db.account_of(a) == old(db).account_of(a),
            db.account_of(addr_v) is Some,
            forall|a: Seq<u8>, s: Seq<u8>|
                old(db).storage_at(a, s) is Some ==> db.storage_at(a, s) == old(db).storage_at(
                    a,
                    s,
                ),
            forall|a: Seq<u8>, s: Seq<u8>|
                db.storage_at(a, s) != old(db).storage_at(a, s) ==> a == addr_v
                    && db.storage_at(a, s) == snapshot.storage_at(a, s),
            forall|i: int|
                0 <= i < k ==> snapshot.storage_at(addr_v, #[trigger] big_r1[i]) is Some
                    && db.storage_at(addr_v, big_r1[i]) is Some,
        decreases m - k,
    {
        let slot = &all_slots[k];
        proof {
            assert(big_r1[k as int] == slot@);
        }
        match snapshot.get_storage(&contract_data.address, slot) {
            None => {
                proof {
                    assert(snapshot.storage_at(addr_v, big_r1[k as int]) is None);
                }
                return Err(DigestError::RemoteFetchError);
            },
            Some(v) => {
                let vdup = v.duplicate();
                match db.get_storage(&contract_data.address, slot) {
                    Some(_) => {},
                    None => {
                        db.insert_account_storage(
                            contract_data.address.duplicate(),
                            slot.duplicate(),
                            vdup,
                        );
                    },
                }
            },
        }
        k += 1;
    }
    Ok(skips)
}

/// Every configured key of this contract is well-formed hex.
pub open spec fn keys_ok(cd: ContractData) -> bool {
    forall|j: int, k: int|
        0 <= j < cd.mappings@.len() && 0 <= k < cd.mappings@[j].1@.len() ==> spec_key_bytes(
            (#[trigger] cd.mappings@[j].1@[k])@,
        ) is Some
}

/// Whether the configuration can be digested at all: the artifact list
/// lines up with the contracts, no address repeats, and every configured
/// key is well-formed hex. Anything less is a `ConfigError` that aborts
/// the whole run before any state is assembled.
pub open spec fn config_ok(contracts: Seq<ContractData>, layouts: Seq<Option<StorageLayout>>) -> bool {
    &&& layouts.len() == contracts.len()
    &&& unique_addresses(contracts)
    &&& forall|i: int| 0 <= i < contracts.len() ==> keys_ok(#[trigger] contracts[i])
}

/// Whether one of the first `upto` declared contracts has this address.
pub open spec fn addr_among(contracts: Seq<ContractData>, upto: int, a: Seq<u8>) -> bool {
    exists|j: int| 0 <= j < upto && (#[trigger] contracts[j].address)@ == a
}

/// What a finished run owes for one declared contract, given its parsed
/// layout (`None` when the artifact could not be read or parsed), the
/// snapshot, the assembled store and the contract's report.
pub open spec fn contract_report_ok(
    cd: ContractData,
    layout: Option<StorageLayout>,
    snapshot: RemoteSnapshot,
    store: LocalStateStore,
    rep: ContractReport,
) -> bool {
    &&& (layout is None ==> rep.failure == Some(DigestError::ParseError))
    &&& (rep.failure is None ==> {
        &&& layout is Some
        &&& snapshot.account_of(cd.address@) matches Some(acc) && (store.account_of(cd.address@)
            matches Some(rec) && rec@ == acc@)
        &&& spec_contract_slots(
            layout.unwrap().storage@,
            layout.unwrap().types@,
            cd.mappings@,
        ) matches Ok(r) && rep.skipped == r.0 && (forall|k: int|
            0 <= k < r.1.len() ==> snapshot.storage_at(cd.address@, #[trigger] r.1[k]) is Some
                && store.storage_at(cd.address@, r.1[k]) == snapshot.storage_at(
                cd.address@,
                r.1[k],
            ))
    })
    &&& (match (layout, rep.failure) {
        (Some(l), Some(e)) => {
            ||| snapshot.account_of(cd.address@) is None && e == DigestError::RemoteFetchError
            ||| spec_contract_slots(l.storage@, l.types@, cd.mappings@) matches Err(e2) && e2 == e
            ||| spec_contract_slots(l.storage@, l.types@, cd.mappings@) matches Ok(r) && e
                == DigestError::RemoteFetchError && (exists|k: int|
                0 <= k < r.1.len() && snapshot.storage_at(
                    cd.address@,
                    #[trigger] r.1[k],
                ) is None)
        },
        _ => true,
    })
}

/// Digests the whole configuration against a remote snapshot: for each
/// declared contract, records its account metadata and every derived
/// storage slot's word, and reports, per contract, success or the failure
/// kind. One contract's failure never stops its siblings; a malformed
/// configuration (a duplicate address, a key that is not hex, or an
/// artifact list that does not line up) aborts the run before any state is
/// assembled.
#[verifier::loop_isolation(false)]
pub fn digest_config(
    fork_config: &ForkConfig,
    layouts: &Vec<Option<StorageLayout>>,
    snapshot: &RemoteSnapshot,
) -> (out: Result<(LocalStateStore, Vec<ContractReport>), DigestError>)
    ensures
        match out {
            Err(e) => e == DigestError::ConfigError && !config_ok(
                fork_config.contracts@,
                layouts@,
            ),
            Ok(sr) => {
                &&& config_ok(fork_config.contracts@, layouts@)
                &&& sr.0.wf()
                &&& forall|a: Seq<u8>|
                    #[trigger] sr.0.account_of(a) is Some ==> addr_among(
                        fork_config.contracts@,
                        fork_config.contracts@.len() as int,
                        a,
                    )
                &&& forall|a: Seq<u8>, s: Seq<u8>|
                    #[trigger] sr.0.storage_at(a, s) is Some ==> sr.0.storage_at(a, s)
                        == snapshot.storage_at(a, s)
                &&& forall|a: Seq<u8>|
                    #[trigger] sr.0.account_of(a) is Some ==> (snapshot.account_of(a) matches
                    Some(x) && sr.0.account_of(a).unwrap()@ == x@)
                &&& sr.1@.len() == fork_config.contracts@.len()
                &&& forall|i: int|
                    0 <= i < sr.1@.len() ==> contract_report_ok(
                        #[trigger] fork_config.contracts@[i],
                        layouts@[i],
                        *snapshot,
                        sr.0,
                        sr.1@[i],
                    )
            },
        },
{
    let n = fork_config.contracts.len();
    if layouts.len() != n {
        return Err(DigestError::ConfigError);
    }
    // a duplicate contract address is a malformed configuration
    let mut p: usize = 0;
    while p < n
        invariant
            p <= n,
            forall|x: int, y: int|
                0 <= x < p && x < y < n ==> (#[trigger] fork_config.contracts@[x].address)@ != (
                #[trigger] fork_config.contracts@[y].address)@,
        decreases n - p,
    {
        let mut q: usize = p + 1;
        while q < n
            invariant
                p < q <= n,
                forall|y: int|
                    p < y < q ==> fork_config.contracts@[p as int].address@ != (
                    #[trigger] fork_config.contracts@[y].address)@,
            decreases n - q,
        {
            if fork_config.contracts[p].address.same(&fork_config.contracts[q].address) {
                proof {
                    assert(!unique_addresses(fork_config.contracts@));
                }
                return Err(DigestError::ConfigError);
            }
            q += 1;
        }
        p += 1;
    }
    assert(unique_addresses(fork_config.contracts@));
    // a configured key that is not hex is a malformed configuration
    let mut ci: usize = 0;
    while ci < n
        invariant
            ci <= n,
            forall|x: int| 0 <= x < ci ==> keys_ok(#[trigger] fork_config.contracts@[x]),
        decreases n - ci,
    {
        let cd = &fork_config.contracts[ci];
        let m = cd.mappings.len();
        let mut mj: usize = 0;
        while mj < m
            invariant
                mj <= m,
                forall|j: int, k: int|
                    0 <= j < mj && 0 <= k < cd.mappings@[j].1@.len() ==> spec_key_bytes(
                        (#[trigger] cd.mappings@[j].1@[k])@,
                    ) is Some,
            decreases m - mj,
        {
            let keys = &cd.mappings[mj].1;
            let kn = keys.len();
            let mut kk: usize = 0;
            while kk < kn
                invariant
                    kk <= kn,
                    forall|k: int|
                        0 <= k < kk ==> spec_key_bytes((#[trigger] keys@[k])@) is Some,
                decreases kn - kk,
            {
                match crate::hexstr::hex_decode(keys[kk].as_str()) {
                    Ok(_) => {},
                    Err(_) => {
                        proof {
                            assert(cd.mappings@[mj as int].1@[kk as int] == keys@[kk as int]);
                            assert(!keys_ok(fork_config.contracts@[ci as int]));
                        }
                        return Err(DigestError::ConfigError);
                    },
                }
                kk += 1;
            }
            proof {
                assert(keys@ == cd.mappings@[mj as int].1@);
            }
            mj += 1;
        }
        proof {
            assert(keys_ok(fork_config.contracts@[ci as int]));
        }
        ci += 1;
    }
    let mut db = LocalStateStore::new();
    let mut reports: Vec<ContractReport> = Vec::new();
    let mut i: usize = 0;
    while i < n
        invariant
            i <= n,
            reports@.len() == i,
            db.wf(),
            forall|a: Seq<u8>|
                #[trigger] db.account_of(a) is Some ==> addr_among(
                    fork_config.contracts@,
                    i as int,
                    a,
                ),
            forall|a: Seq<u8>, s: Seq<u8>|
                #[trigger] db.storage_at(a, s) is Some ==> db.storage_at(a, s)
                    == snapshot.storage_at(a, s),
            forall|a: Seq<u8>|
                #[trigger] db.account_of(a) is Some ==> (snapshot.account_of(a) matches Some(x)
                    && db.account_of(a).unwrap()@ == x@),
            forall|j: int|
                0 <= j < i ==> contract_report_ok(
                    #[trigger] fork_config.contracts@[j],
                    layouts@[j],
                    *snapshot,
                    db,
                    reports@[j],
                ),
        decreases n - i,
    {
        let cd = &fork_config.contracts[i];
        let ghost addr_v = cd.address@;
        let mut failure: Option<DigestError> = None;
        let mut skipped: u64 = 0;
        let ghost db_before = db;
        match &layouts[i] {
            None => {
                failure = Some(DigestError::ParseError);
            },
            Some(layout) => {
                match snapshot.get_account(&cd.address) {
                    None => {
                        failure = Some(DigestError::RemoteFetchError);
                    },
                    Some(acc) => {
                        let rec = acc.duplicate();
                        proof {
                            if db.account_of(addr_v) is Some {
                                assert(addr_among(fork_config.contracts@, i as int, addr_v));
                                let j = choose|j: int|
                                    0 <= j < i && (#[trigger] fork_config.contracts@[j].address)@
                                        == addr_v;
                                assert(fork_config.contracts@[j].address@
                                    == fork_config.contracts@[i as int].address@);
                                assert(false);
                            }
                            assert forall|s: Seq<u8>| db.storage_at(addr_v, s) is None by {
                                if db.storage_at(addr_v, s) is Some {
                                    crate::store::lemma_store_covered(&db, addr_v, s);
                                }
                            }
                        }
                        db.insert_account_info(cd.address.duplicate(), rec);
                        match create_storage_layout(cd, layout, snapshot, &mut db) {
                            Ok(sk) => {
                                skipped = sk;
                            },
                            Err(e) => {
                                failure = Some(e);
                            },
                        }
                    },
                }
            },
        }
        let ghost rep = (ContractReport { failure, skipped });
        proof {
            assert(contract_report_ok(
                fork_config.contracts@[i as int],
                layouts@[i as int],
                *snapshot,
                db,
                rep,
            ));
            assert forall|a: Seq<u8>| #[trigger] db.account_of(a) is Some implies addr_among(
                fork_config.contracts@,
                i + 1,
                a,
            ) by {
                if a == addr_v {
                    assert((fork_config.contracts@[i as int].address)@ == a);
                } else {
                    assert(db_before.account_of(a) is Some);
                    assert(addr_among(fork_config.contracts@, i as int, a));
                    let j = choose|j: int|
                        0 <= j < i && (#[trigger] fork_config.contracts@[j].address)@ == a;
                    assert(0 <= j < i + 1 && (fork_config.contracts@[j].address)@ == a);
                }
            }
            assert forall|j: int| 0 <= j < i implies contract_report_ok(
                #[trigger] fork_config.contracts@[j],
                layouts@[j],
                *snapshot,
                db,
                reports@[j],
            ) by {
                assert(contract_report_ok(
                    fork_config.contracts@[j],
                    layouts@[j],
                    *snapshot,
                    db_before,
                    reports@[j],
                ));
                assert(fork_config.contracts@[j].address@ != addr_v);
            }
        }
        reports.push(ContractReport { failure, skipped });
        i += 1;
    }
    Ok((db, reports))
}

} // verus!
