//! Storage layout artifacts: the typed records a compiler-emitted layout
//! decodes into, and the shape-driven classification of type descriptors.

use vstd::prelude::*;

use crate::errors::DigestError;

verus! {

/// One entry of a layout artifact's `storage` list: a declared variable.
#[derive(Debug)]
pub struct StorageItem {
    pub ast_id: usize,
    pub contract: String,
    pub label: String,
    pub offset: usize,
    /// The declared slot number, a decimal string.
    pub slot: String,
    /// The id of the variable's type in the layout's type table.
    pub type_: String,
}

/// A classified type descriptor: a single-level mapping, or anything scalar.
#[derive(Debug)]
#[allow(inconsistent_fields)]
pub enum StorageType {
    /// A `key type -> value type` mapping; its entries live at hashed slots.
    Mapping {
        encoding: String,
        key: String,
        value: String,
        label: Option<String>,
        number_of_bytes: Option<String>,
    },
    /// A scalar that occupies its declared slot as-is.
    Simple { encoding: String, label: String, number_of_bytes: String },
}

/// A type descriptor as it comes out of the artifact, before its shape is
/// known: every field it may carry, each possibly absent.
#[derive(Debug)]
pub struct RawTypeDescriptor {
    pub encoding: Option<String>,
    pub label: Option<String>,
    pub number_of_bytes: Option<String>,
    pub key: Option<String>,
    pub value: Option<String>,
}

/// Whether a raw descriptor has the Mapping shape: `key` and `value`
/// alongside `encoding`; `label` and `numberOfBytes` may be absent.
pub open spec fn matches_mapping(r: RawTypeDescriptor) -> bool {
    r.encoding is Some && r.key is Some && r.value is Some
}

/// Whether a raw descriptor has the Simple shape: `encoding`, `label` and
/// `numberOfBytes` all present.
pub open spec fn matches_simple(r: RawTypeDescriptor) -> bool {
    r.encoding is Some && r.label is Some && r.number_of_bytes is Some
}

/// The classification a raw descriptor resolves to: the Mapping shape is
/// attempted first, the Simple shape second; `None` if neither fits.
pub open spec fn classify_spec(r: RawTypeDescriptor) -> Option<StorageType> {
    if matches_mapping(r) {
        Some(
            (StorageType::Mapping {
                encoding: r.encoding.unwrap(),
                key: r.key.unwrap(),
                value: r.value.unwrap(),
                label: r.label,
                number_of_bytes: r.number_of_bytes,
            }),
        )
    } else if matches_simple(r) {
        Some(
            (StorageType::Simple {
                encoding: r.encoding.unwrap(),
                label: r.label.unwrap(),
                number_of_bytes: r.number_of_bytes.unwrap(),
            }),
        )
    } else {
        None
    }
}

/// A descriptor that fits both the Mapping and the Simple shape resolves to
/// Mapping: the ordered attempt tries the Mapping shape first.
pub proof fn lemma_ambiguous_descriptor_is_mapping(r: RawTypeDescriptor)
    requires
        matches_mapping(r),
        matches_simple(r),
    ensures
        classify_spec(r) matches Some(t) && (t matches StorageType::Mapping { .. }),
{
}

/// Classifies a raw descriptor, trying the Mapping shape before the Simple
/// shape; a descriptor fitting neither is a `ParseError`.
pub fn classify_type(r: RawTypeDescriptor) -> (out: Result<StorageType, DigestError>)
    ensures
        match classify_spec(r) {
            Some(t) => out == Ok::<StorageType, DigestError>(t),
            None => out == Err::<StorageType, DigestError>(DigestError::ParseError),
        },
{
    let RawTypeDescriptor { encoding, label, number_of_bytes, key, value } = r;
    match (encoding, key, value) {
        (Some(encoding), Some(key), Some(value)) => Ok(
            StorageType::Mapping { encoding, key, value, label, number_of_bytes },
        ),
        (Some(encoding), _, _) => {
            match (label, number_of_bytes) {
                (Some(label), Some(number_of_bytes)) => Ok(
                    StorageType::Simple { encoding, label, number_of_bytes },
                ),
                _ => Err(DigestError::ParseError),
            }
        },
        _ => Err(DigestError::ParseError),
    }
}

/// A compiler-emitted artifact, as far as this engine reads it: the storage
/// layout it carries.
#[derive(Debug)]
pub struct Artifacts {
    pub storage_layout: StorageLayout,
}

/// A parsed storage layout: the declared variables in order, and the type
/// table as an id-keyed association list.
#[derive(Debug)]
pub struct StorageLayout {
    pub storage: Vec<StorageItem>,
    pub types: Vec<(String, StorageType)>,
}

/// The descriptor a type id resolves to in a type table: the first entry
/// with that id, if any.
pub open spec fn find_type_spec(types: Seq<(String, StorageType)>, id: Seq<char>) -> Option<
    StorageType,
>
    decreases types.len(),
{
    if types.len() == 0 {
        None
    } else if types.first().0@ == id {
        Some(types.first().1)
    } else {
        find_type_spec(types.drop_first(), id)
    }
}

/// Skipping entries whose id does not match leaves the resolution unchanged.
proof fn lemma_find_type_skip(types: Seq<(String, StorageType)>, id: Seq<char>, j: int)
    requires
        0 <= j <= types.len(),
        forall|k: int| 0 <= k < j ==> #[trigger] types[k].0@ != id,
    ensures
        find_type_spec(types, id) == find_type_spec(types.subrange(j, types.len() as int), id),
    decreases j,
{
    if j > 0 {
        assert(types.len() > 0);
        assert(types[0].0@ != id);
        assert(types.first().0@ != id);
        let t1 = types.drop_first();
        assert(t1 =~= types.subrange(1, types.len() as int));
        assert(forall|k: int| 0 <= k < j - 1 ==> #[trigger] t1[k].0@ != id) by {
            assert(forall|k: int| 0 <= k < j - 1 ==> t1[k] == types[k + 1]);
        }
        lemma_find_type_skip(t1, id, j - 1);
        assert(find_type_spec(types, id) == find_type_spec(t1, id));
        let rec = t1.subrange(j - 1, t1.len() as int);
        assert(rec =~= types.subrange(j, types.len() as int));
        assert(find_type_spec(t1, id) == find_type_spec(rec, id));
    } else {
        assert(types.subrange(0, types.len() as int) =~= types);
    }
}

impl StorageLayout {
    /// Type ids in the table are unique.
    pub open spec fn wf(&self) -> bool {
        forall|i: int, j: int|
            0 <= i < j < self.types@.len() ==> #[trigger] self.types@[i].0@ != #[trigger] self
                .types@[j].0@
    }

    /// Resolves a type id against the table; `None` means the id is absent
    /// (an `UnknownTypeError` for whoever needed it).
    pub fn find_type(&self, id: &String) -> (r: Option<&StorageType>)
        ensures
            match r {
                Some(t) => find_type_spec(self.types@, id@) == Some(*t),
                None => find_type_spec(self.types@, id@) is None,
            },
    {
        let n = self.types.len();
        let mut j: usize = 0;
        while j < n
            invariant
                j <= n,
                n == self.types@.len(),
                forall|k: int| 0 <= k < j ==> #[trigger] self.types@[k].0@ != id@,
            decreases n - j,
        {
            if self.types[j].0.eq(id) {
                proof {
                    lemma_find_type_skip(self.types@, id@, j as int);
                    assert(self.types@.subrange(j as int, n as int).first() == self.types@[j as int]);
                }
                return Some(&self.types[j].1);
            }
            j += 1;
        }
        proof {
            lemma_find_type_skip(self.types@, id@, n as int);
            assert(self.types@.subrange(n as int, n as int) =~= Seq::<(String,
                StorageType,
            )>::empty());
        }
        None
    }
}

/// Whether a whole raw type table is well-formed: every descriptor fits a
/// shape and no id repeats.
pub open spec fn raw_table_ok(raw: Seq<(String, RawTypeDescriptor)>) -> bool {
    (forall|j: int| 0 <= j < raw.len() ==> classify_spec(#[trigger] raw[j].1) is Some)
        && (forall|i: int, j: int|
        0 <= i < j < raw.len() ==> #[trigger] raw[i].0@ != #[trigger] raw[j].0@)
}

/// Builds a layout from the artifact's items and its raw type table,
/// classifying every descriptor (Mapping shape first); a descriptor fitting
/// no shape, or a repeated type id, is a `ParseError`.
#[verifier::rlimit(100)]
#[verifier::spinoff_prover]
pub fn parse_storage_layout(
    items: Vec<StorageItem>,
    raw_types: Vec<(String, RawTypeDescriptor)>,
) -> (out: Result<StorageLayout, DigestError>)
    ensures
        match out {
            Ok(layout) => raw_table_ok(raw_types@) && layout.wf() && layout.storage@ == items@
                && layout.types@.len() == raw_types@.len() && forall|j: int|
                0 <= j < raw_types@.len() ==> #[trigger] layout.types@[j].0 == raw_types@[j].0
                    && Some(layout.types@[j].1) == classify_spec(raw_types@[j].1),
            Err(e) => e == DigestError::ParseError && !raw_table_ok(raw_types@),
        },
{
    let ghost raw = raw_types@;
    let mut types: Vec<(String, StorageType)> = Vec::new();
    let mut rest = raw_types;
    let ghost total = raw.len();
    while rest.len() > 0
        invariant
            types@.len() + rest@.len() == total,
            raw == raw_types@,
            raw.len() == total,
            forall|k: int| 0 <= k < rest@.len() ==> #[trigger] rest@[k]
                == raw[types@.len() + k],
            forall|j: int| 0 <= j < types@.len() ==> #[trigger] types@[j].0 == raw[j].0 && Some(
                types@[j].1,
            ) == classify_spec(raw[j].1),
            forall|i: int, j: int|
                0 <= i < j < types@.len() ==> #[trigger] types@[i].0@ != #[trigger] types@[j].0@,
        decreases rest@.len(),
    {
        let ghost idx = types@.len() as int;
        let ghost prev_rest = rest@;
        let (id, r) = rest.remove(0);
        proof {
            assert(prev_rest[0] == raw[idx]);
            assert(id == raw[idx].0 && r == raw[idx].1);
            assert(forall|k: int| 0 <= k < rest@.len() ==> #[trigger] rest@[k] == raw[idx + 1 + k])
                by {
                assert(forall|k: int| 0 <= k < rest@.len() ==> rest@[k] == prev_rest[k + 1]);
            }
        }
        // a repeated id would make later resolutions ambiguous
        let mut j: usize = 0;
        let n = types.len();
        while j < n
            invariant
                j <= n,
                n == types@.len(),
                raw == raw_types@,
                n < raw.len(),
                id == raw[n as int].0,
                forall|k: int| 0 <= k < types@.len() ==> #[trigger] types@[k].0 == raw[k].0,
                forall|k: int| 0 <= k < j ==> #[trigger] types@[k].0@ != id@,
            decreases n - j,
        {
            if types[j].0.eq(&id) {
                proof {
                    assert(types@[j as int].0 == raw[j as int].0);
                    assert(raw[j as int].0@ == raw[n as int].0@);
                    assert(!raw_table_ok(raw));
                }
                return Err(DigestError::ParseError);
            }
            j += 1;
        }
        match classify_type(r) {
            Ok(t) => {
                types.push((id, t));
            },
            Err(e) => {
                proof {
                    assert(classify_spec(raw[idx].1) is None);
                    assert(!raw_table_ok(raw));
                }
                return Err(e);
            },
        }
    }
    proof {
        assert(types@.len() == raw.len());
        assert forall|j: int| 0 <= j < raw.len() implies classify_spec(
            #[trigger] raw[j].1,
        ) is Some by {
            assert(types@[j].0 == raw[j].0 && Some(types@[j].1) == classify_spec(raw[j].1));
        }
        assert forall|i: int, j: int|
            0 <= i < j < raw.len() implies #[trigger] raw[i].0@ != #[trigger] raw[j].0@ by {
            assert(types@[i].0 == raw[i].0 && Some(types@[i].1) == classify_spec(raw[i].1));
            assert(types@[j].0 == raw[j].0 && Some(types@[j].1) == classify_spec(raw[j].1));
            assert(types@[i].0@ != types@[j].0@);
        }
        assert(raw_table_ok(raw));
    }
    let layout = StorageLayout { storage: items, types };
    proof {
        assert(layout.wf());
        assert forall|j: int| 0 <= j < raw.len() implies #[trigger] layout.types@[j].0
            == raw[j].0 && Some(layout.types@[j].1) == classify_spec(raw[j].1) by {
            assert(types@[j].0 == raw[j].0 && Some(types@[j].1) == classify_spec(raw[j].1));
        }
    }
    Ok(layout)
}

/// An exploratory, finer taxonomy of scalar descriptors; the derivation path
/// classifies by shape alone and does not consult it.
#[allow(inconsistent_fields)]
pub enum BasicType {
    Address { encoding: String, label: String, number_of_bytes: String },
    UInt256 { encoding: String, label: String, number_of_bytes: String },
    String { encoding: String, label: String, number_of_bytes: String },
    Mapping {
        encoding: String,
        key: String,
        value: String,
        label: Option<String>,
        number_of_bytes: Option<String>,
    },
}

} // verus!
