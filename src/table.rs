//! The delta decoder table: descriptor lists by structure name, seeded with the
//! list that describes descriptors themselves.
use vstd::prelude::*;
use vstd::slice::slice_to_vec;

use crate::delta::{
    bytes_eq, descs_view, DescriptorModel, FieldDescriptor, FLAG_FLOAT, FLAG_INTEGER, FLAG_STRING,
};

verus! {

/// `delta_description_t` with its NUL.
pub open spec fn delta_description_name() -> Seq<u8> {
    seq![100u8, 101, 108, 116, 97, 95, 100, 101, 115, 99, 114, 105, 112, 116, 105, 111, 110, 95, 116, 0]
}

pub fn delta_description_name_bytes() -> (r: Vec<u8>)
    ensures
        r@ == delta_description_name(),
{
    vec![100u8, 101, 108, 116, 97, 95, 100, 101, 115, 99, 114, 105, 112, 116, 105, 111, 110, 95, 116, 0]
}

/// `fieldType` with its NUL.
pub open spec fn field_type_name() -> Seq<u8> {
    seq![102u8, 105, 101, 108, 100, 84, 121, 112, 101, 0]
}

pub fn field_type_name_bytes() -> (r: Vec<u8>)
    ensures
        r@ == field_type_name(),
{
    vec![102u8, 105, 101, 108, 100, 84, 121, 112, 101, 0]
}

/// `fieldName` with its NUL.
pub open spec fn field_name_name() -> Seq<u8> {
    seq![102u8, 105, 101, 108, 100, 78, 97, 109, 101, 0]
}

pub fn field_name_name_bytes() -> (r: Vec<u8>)
    ensures
        r@ == field_name_name(),
{
    vec![102u8, 105, 101, 108, 100, 78, 97, 109, 101, 0]
}

/// `fieldOffset` with its NUL.
pub open spec fn field_offset_name() -> Seq<u8> {
    seq![102u8, 105, 101, 108, 100, 79, 102, 102, 115, 101, 116, 0]
}

pub fn field_offset_name_bytes() -> (r: Vec<u8>)
    ensures
        r@ == field_offset_name(),
{
    vec![102u8, 105, 101, 108, 100, 79, 102, 102, 115, 101, 116, 0]
}

/// `fieldSize` with its NUL.
pub open spec fn field_size_name() -> Seq<u8> {
    seq![102u8, 105, 101, 108, 100, 83, 105, 122, 101, 0]
}

pub fn field_size_name_bytes() -> (r: Vec<u8>)
    ensures
        r@ == field_size_name(),
{
    vec![102u8, 105, 101, 108, 100, 83, 105, 122, 101, 0]
}

/// `significant_bits` with its NUL.
pub open spec fn significant_bits_name() -> Seq<u8> {
    seq![115u8, 105, 103, 110, 105, 102, 105, 99, 97, 110, 116, 95, 98, 105, 116, 115, 0]
}

pub fn significant_bits_name_bytes() -> (r: Vec<u8>)
    ensures
        r@ == significant_bits_name(),
{
    vec![115u8, 105, 103, 110, 105, 102, 105, 99, 97, 110, 116, 95, 98, 105, 116, 115, 0]
}

/// `premultiply` with its NUL.
pub open spec fn premultiply_name() -> Seq<u8> {
    seq![112u8, 114, 101, 109, 117, 108, 116, 105, 112, 108, 121, 0]
}

pub fn premultiply_name_bytes() -> (r: Vec<u8>)
    ensures
        r@ == premultiply_name(),
{
    vec![112u8, 114, 101, 109, 117, 108, 116, 105, 112, 108, 121, 0]
}

/// `postmultiply` with its NUL.
pub open spec fn postmultiply_name() -> Seq<u8> {
    seq![112u8, 111, 115, 116, 109, 117, 108, 116, 105, 112, 108, 121, 0]
}

pub fn postmultiply_name_bytes() -> (r: Vec<u8>)
    ensures
        r@ == postmultiply_name(),
{
    vec![112u8, 111, 115, 116, 109, 117, 108, 116, 105, 112, 108, 121, 0]
}

/// `entity_state_t` with its NUL.
pub open spec fn entity_state_name() -> Seq<u8> {
    seq![101u8, 110, 116, 105, 116, 121, 95, 115, 116, 97, 116, 101, 95, 116, 0]
}

pub fn entity_state_name_bytes() -> (r: Vec<u8>)
    ensures
        r@ == entity_state_name(),
{
    vec![101u8, 110, 116, 105, 116, 121, 95, 115, 116, 97, 116, 101, 95, 116, 0]
}

/// `entity_state_player_t` with its NUL.
pub open spec fn entity_state_player_name() -> Seq<u8> {
    seq![101u8, 110, 116, 105, 116, 121, 95, 115, 116, 97, 116, 101, 95, 112, 108, 97, 121, 101, 114, 95, 116, 0]
}

pub fn entity_state_player_name_bytes() -> (r: Vec<u8>)
    ensures
        r@ == entity_state_player_name(),
{
    vec![101u8, 110, 116, 105, 116, 121, 95, 115, 116, 97, 116, 101, 95, 112, 108, 97, 121, 101, 114, 95, 116, 0]
}

/// `custom_entity_state_t` with its NUL.
pub open spec fn custom_entity_state_name() -> Seq<u8> {
    seq![99u8, 117, 115, 116, 111, 109, 95, 101, 110, 116, 105, 116, 121, 95, 115, 116, 97, 116, 101, 95, 116, 0]
}

pub fn custom_entity_state_name_bytes() -> (r: Vec<u8>)
    ensures
        r@ == custom_entity_state_name(),
{
    vec![99u8, 117, 115, 116, 111, 109, 95, 101, 110, 116, 105, 116, 121, 95, 115, 116, 97, 116, 101, 95, 116, 0]
}

/// `clientdata_t` with its NUL.
pub open spec fn clientdata_name() -> Seq<u8> {
    seq![99u8, 108, 105, 101, 110, 116, 100, 97, 116, 97, 95, 116, 0]
}

pub fn clientdata_name_bytes() -> (r: Vec<u8>)
    ensures
        r@ == clientdata_name(),
{
    vec![99u8, 108, 105, 101, 110, 116, 100, 97, 116, 97, 95, 116, 0]
}

/// `weapon_data_t` with its NUL.
pub open spec fn weapon_data_name() -> Seq<u8> {
    seq![119u8, 101, 97, 112, 111, 110, 95, 100, 97, 116, 97, 95, 116, 0]
}

pub fn weapon_data_name_bytes() -> (r: Vec<u8>)
    ensures
        r@ == weapon_data_name(),
{
    vec![119u8, 101, 97, 112, 111, 110, 95, 100, 97, 116, 97, 95, 116, 0]
}
/// Whether no two entries share a key.
pub open spec fn keys_unique<V>(s: Seq<(Seq<u8>, V)>) -> bool {
    forall|i: int, j: int|
        0 <= i < s.len() && 0 <= j < s.len() && #[trigger] s[i].0 == #[trigger] s[j].0 ==> i == j
}

/// The value under key `k`, if any entry has that key.
pub open spec fn table_get<V>(s: Seq<(Seq<u8>, V)>, k: Seq<u8>) -> Option<V> {
    if exists|i: int| 0 <= i < s.len() && s[i].0 == k {
        Some(s[choose|i: int| 0 <= i < s.len() && s[i].0 == k].1)
    } else {
        None
    }
}

pub proof fn lemma_table_get_at<V>(s: Seq<(Seq<u8>, V)>, i: int)
    requires
        keys_unique(s),
        0 <= i < s.len(),
    ensures
        table_get(s, s[i].0) == Some(s[i].1),
{
    let k = s[i].0;
    assert(exists|j: int| 0 <= j < s.len() && s[j].0 == k);
    let j = choose|j: int| 0 <= j < s.len() && s[j].0 == k;
    assert(s[i].0 == s[j].0);
}

/// The descriptor list of one structure.
pub struct DdtEntry {
    pub name: Vec<u8>,
    pub fields: Vec<FieldDescriptor>,
}

/// Descriptor lists by structure name (names carry their NUL).
pub struct DeltaDecoderTable {
    pub entries: Vec<DdtEntry>,
}

pub type TableModel = Seq<(Seq<u8>, Seq<DescriptorModel>)>;

impl View for DeltaDecoderTable {
    type V = TableModel;

    open spec fn view(&self) -> TableModel {
        self.entries@.map_values(|e: DdtEntry| (e.name@, descs_view(e.fields@)))
    }
}

/// A copy of a descriptor list.
pub fn copy_descs(v: &Vec<FieldDescriptor>) -> (r: Vec<FieldDescriptor>)
    ensures
        descs_view(r@) == descs_view(v@),
{
    let mut r: Vec<FieldDescriptor> = Vec::new();
    let mut i: usize = 0;
    while i < v.len()
        invariant
            i <= v@.len(),
            r@.len() == i,
            forall|k: int| 0 <= k < i ==> #[trigger] r@[k]@ == v@[k]@,
        decreases v@.len() - i,
    {
        let d = &v[i];
        r.push(
            FieldDescriptor {
                name: slice_to_vec(d.name.as_slice()),
                flags: d.flags,
                offset: d.offset,
                size: d.size,
                bits: d.bits,
                premultiply: d.premultiply,
                postmultiply: d.postmultiply,
            },
        );
        i = i + 1;
    }
    assert(descs_view(r@) =~= descs_view(v@));
    r
}

/// A table as a map from structure name to descriptor list.
pub open spec fn table_map(t: TableModel) -> Map<Seq<u8>, Seq<DescriptorModel>> {
    Map::new(|k: Seq<u8>| table_get(t, k) is Some, |k: Seq<u8>| table_get(t, k)->Some_0)
}

/// The list under `k` in `m`, if there is one.
pub open spec fn map_get(m: Map<Seq<u8>, Seq<DescriptorModel>>, k: Seq<u8>) -> Option<
    Seq<DescriptorModel>,
> {
    if m.dom().contains(k) {
        Some(m[k])
    } else {
        None
    }
}

pub open spec fn desc_model(name: Seq<u8>, flags: u32, bits: u32, premultiply: u32) -> DescriptorModel {
    DescriptorModel { name, flags, offset: 0, size: 0, bits, premultiply, postmultiply: 4000 }
}

/// The built-in list that describes a field descriptor, by which
/// `DeltaDescription` messages are read.
pub open spec fn meta_descriptors() -> Seq<DescriptorModel> {
    seq![
        desc_model(field_type_name(), FLAG_INTEGER, 32, 4000),
        desc_model(field_name_name(), FLAG_STRING, 1, 4000),
        desc_model(field_offset_name(), FLAG_INTEGER, 16, 4000),
        desc_model(field_size_name(), FLAG_INTEGER, 8, 4000),
        desc_model(significant_bits_name(), FLAG_INTEGER, 8, 4000),
        desc_model(premultiply_name(), FLAG_FLOAT, 32, 16_000_000),
        desc_model(postmultiply_name(), FLAG_FLOAT, 32, 16_000_000),
    ]
}

fn descriptor(name: Vec<u8>, flags: u32, bits: u32, premultiply: u32) -> (r: FieldDescriptor)
    ensures
        r@ == desc_model(name@, flags, bits, premultiply),
{
    FieldDescriptor { name, flags, offset: 0, size: 0, bits, premultiply, postmultiply: 4000 }
}

/// A table that holds only the built-in entry `delta_description_t`.
pub fn get_initial_delta() -> (r: DeltaDecoderTable)
    ensures
        r.wf(),
        r@ == seq![(delta_description_name(), meta_descriptors())],
        table_map(r@) == map![delta_description_name() => meta_descriptors()],
{
    let fields = vec![
        descriptor(field_type_name_bytes(), FLAG_INTEGER, 32, 4000),
        descriptor(field_name_name_bytes(), FLAG_STRING, 1, 4000),
        descriptor(field_offset_name_bytes(), FLAG_INTEGER, 16, 4000),
        descriptor(field_size_name_bytes(), FLAG_INTEGER, 8, 4000),
        descriptor(significant_bits_name_bytes(), FLAG_INTEGER, 8, 4000),
        descriptor(premultiply_name_bytes(), FLAG_FLOAT, 32, 16_000_000),
        descriptor(postmultiply_name_bytes(), FLAG_FLOAT, 32, 16_000_000),
    ];
    let r = DeltaDecoderTable {
        entries: vec![DdtEntry { name: delta_description_name_bytes(), fields }],
    };
    proof {
        assert(descs_view(fields@) =~= meta_descriptors());
        assert(r@ =~= seq![(delta_description_name(), meta_descriptors())]);
        lemma_table_get_at(r@, 0);
        assert forall|k: Seq<u8>| k != delta_description_name() implies table_get(r@, k) is None by {
        }
        assert(table_map(r@) =~= map![delta_description_name() => meta_descriptors()]);
    }
    r
}

impl DeltaDecoderTable {
    pub open spec fn wf(&self) -> bool {
        keys_unique(self@)
    }

    pub open spec fn map(&self) -> Map<Seq<u8>, Seq<DescriptorModel>> {
        table_map(self@)
    }

    /// An empty table.
    pub fn new() -> (r: Self)
        ensures
            r.wf(),
            r@ == Seq::<(Seq<u8>, Seq<DescriptorModel>)>::empty(),
    {
        let r = DeltaDecoderTable { entries: Vec::new() };
        assert(r@ =~= Seq::<(Seq<u8>, Seq<DescriptorModel>)>::empty());
        r
    }

    fn index_of(&self, name: &[u8]) -> (r: Option<usize>)
        requires
            self.wf(),
        ensures
            match r {
                Some(i) => i < self@.len() && self@[i as int].0 == name@,
                None => forall|i: int| 0 <= i < self@.len() ==> self@[i].0 != name@,
            },
    {
        let mut i: usize = 0;
        while i < self.entries.len()
            invariant
                i <= self@.len(),
                self@.len() == self.entries@.len(),
                forall|j: int| 0 <= j < i ==> self@[j].0 != name@,
            decreases self@.len() - i,
        {
            if bytes_eq(self.entries[i].name.as_slice(), name) {
                return Some(i);
            }
            i = i + 1;
        }
        None
    }

    /// The descriptor list under `name`.
    pub fn get(&self, name: &[u8]) -> (r: Option<&Vec<FieldDescriptor>>)
        requires
            self.wf(),
        ensures
            match r {
                Some(f) => table_get(self@, name@) == Some(descs_view(f@)) && map_get(
                    self.map(),
                    name@,
                ) == Some(descs_view(f@)),
                None => table_get(self@, name@) is None && map_get(self.map(), name@) is None,
            },
    {
        match self.index_of(name) {
            Some(i) => {
                proof {
                    lemma_table_get_at(self@, i as int);
                }
                Some(&self.entries[i].fields)
            },
            None => None,
        }
    }

    /// Puts `fields` under `name`, in place of any list that was there.
    pub fn insert(&mut self, name: Vec<u8>, fields: Vec<FieldDescriptor>)
        requires
            old(self).wf(),
        ensures
            final(self).wf(),
            forall|k: Seq<u8>|
                #[trigger] table_get(final(self)@, k) == if k == name@ {
                    Some(descs_view(fields@))
                } else {
                    table_get(old(self)@, k)
                },
            final(self).map() == old(self).map().insert(name@, descs_view(fields@)),
    {
        let ghost before = self@;
        let ghost key = name@;
        let ghost val = descs_view(fields@);
        let ghost kept;
        match self.index_of(name.as_slice()) {
            Some(i) => {
                self.entries.remove(i);
                proof {
                    kept = before.remove(i as int);
                    assert(self@ =~= kept);
                    assert(0 <= i < before.len() && kept == before.remove(i as int)
                        && before[i as int].0 == key);
                }
            },
            None => {
                proof {
                    kept = before;
                }
            },
        }
        assert(kept.len() == before.len() ==> kept == before);
        assert(kept.len() != before.len() ==> exists|i: int|
            0 <= i < before.len() && kept == before.remove(i) && before[i].0 == key);
        assert(forall|j: int| 0 <= j < kept.len() ==> kept[j].0 != key);
        assert(keys_unique(kept));
        assert forall|k: Seq<u8>| k != key implies table_get(kept, k) == table_get(before, k) by {
            if exists|j: int| 0 <= j < before.len() && before[j].0 == k {
                let j = choose|j: int| 0 <= j < before.len() && before[j].0 == k;
                lemma_table_get_at(before, j);
                let m = if kept.len() == before.len() {
                    j
                } else {
                    let i = choose|i: int|
                        0 <= i < before.len() && kept == before.remove(i) && before[i].0 == key;
                    if j < i {
                        j
                    } else {
                        j - 1
                    }
                };
                assert(kept[m] == before[j]);
                lemma_table_get_at(kept, m);
            } else {
                assert forall|m: int| 0 <= m < kept.len() implies kept[m].0 != k by {
                    assert(before.contains(kept[m]));
                }
            }
        }
        self.entries.push(DdtEntry { name, fields });
        proof {
            let after = self@;
            assert(after =~= kept.push((key, val)));
            assert(keys_unique(after));
            lemma_table_get_at(after, kept.len() as int);
            assert forall|k: Seq<u8>| k != key implies table_get(after, k) == table_get(kept, k) by {
                if exists|j: int| 0 <= j < kept.len() && kept[j].0 == k {
                    let j = choose|j: int| 0 <= j < kept.len() && kept[j].0 == k;
                    lemma_table_get_at(kept, j);
                    lemma_table_get_at(after, j);
                }
            }
            assert(table_map(after) =~= table_map(before).insert(key, val));
        }
    }
}

} // verus!
