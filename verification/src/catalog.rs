//! The type catalog: a process-wide, read-mostly index of every record type
//! the host registers, each tagged with the capabilities it supports and,
//! for default-constructible types, the field list of a default instance.
//! Lookup by short name is first-registered-wins: a duplicate short name is
//! a documented ambiguity, not an error.

use vstd::prelude::*;

use crate::model::views_of;
use crate::record::{record_wf, Field, FieldModel, RecordModel};
use crate::text::{contains_chars, contains_seq, lower_seq, str_eq, str_to_chars, to_lower_chars};

verus! {

/// One registered record type: its stable key, names, capability set, and
/// the fields of a default instance.
#[derive(Debug)]
pub struct TypeDescriptor {
    pub key: u64,
    pub full_name: String,
    pub short_name: String,
    pub attachable: bool,
    pub default_constructible: bool,
    pub reflectable: bool,
    pub default_fields: Vec<Field>,
}

/// The model of a registered type.
pub struct DescriptorModel {
    pub key: u64,
    pub full_name: Seq<char>,
    pub short_name: Seq<char>,
    pub attachable: bool,
    pub default_constructible: bool,
    pub reflectable: bool,
    pub default_fields: Seq<FieldModel>,
}

impl View for TypeDescriptor {
    type V = DescriptorModel;

    open spec fn view(&self) -> DescriptorModel {
        DescriptorModel {
            key: self.key,
            full_name: self.full_name@,
            short_name: self.short_name@,
            attachable: self.attachable,
            default_constructible: self.default_constructible,
            reflectable: self.reflectable,
            default_fields: views_of(self.default_fields@),
        }
    }
}

/// A descriptor is well formed when its default instance would make a well
/// formed record of its own type.
pub open spec fn descriptor_wf(d: DescriptorModel) -> bool {
    record_wf(RecordModel { type_key: d.key, fields: d.default_fields })
}

/// The catalog: every registered type, in registration order.
#[derive(Debug)]
pub struct Catalog {
    pub types: Vec<TypeDescriptor>,
}

impl View for Catalog {
    type V = Seq<DescriptorModel>;

    open spec fn view(&self) -> Seq<DescriptorModel> {
        views_of(self.types@)
    }
}

/// Keys are distinct and every descriptor is well formed.
pub open spec fn catalog_wf(cm: Seq<DescriptorModel>) -> bool {
    &&& forall|i: int, j: int|
        0 <= i < j < cm.len() ==> (#[trigger] cm[i].key) != (#[trigger] cm[j].key)
    &&& forall|i: int| 0 <= i < cm.len() ==> descriptor_wf(#[trigger] cm[i])
}

/// The first index at or after `i` (below `n`) that `pick` accepts.
pub open spec fn first_picked(n: int, pick: spec_fn(int) -> bool, i: int) -> Option<int>
    decreases n - i,
{
    if i >= n {
        None
    } else if pick(i) {
        Some(i)
    } else {
        first_picked(n, pick, i + 1)
    }
}

/// What `first_picked` finds is the first accepted index; when it finds
/// nothing, none is accepted.
pub proof fn lemma_first_picked(n: int, pick: spec_fn(int) -> bool, i: int)
    ensures
        match first_picked(n, pick, i) {
            Some(k) => i <= k < n && pick(k) && (forall|j: int| i <= j < k ==> !#[trigger] pick(j)),
            None => forall|j: int| i <= j < n ==> !#[trigger] pick(j),
        },
    decreases n - i,
{
    if i < n && !pick(i) {
        lemma_first_picked(n, pick, i + 1);
    }
}

/// Lookup by key.
pub open spec fn key_pick(cm: Seq<DescriptorModel>, key: u64) -> spec_fn(int) -> bool {
    |i: int| cm[i].key == key
}

/// Lookup by fully-qualified type name.
pub open spec fn name_pick(cm: Seq<DescriptorModel>, name: Seq<char>) -> spec_fn(int) -> bool {
    |i: int| cm[i].full_name == name
}

/// Lookup by short display name.
pub open spec fn short_pick(cm: Seq<DescriptorModel>, name: Seq<char>) -> spec_fn(int) -> bool {
    |i: int| cm[i].short_name == name
}

/// A type the add-component search offers for `filter`: attachable,
/// default-constructible, and its short name contains the filter text,
/// case-folded in ASCII.
pub open spec fn search_pick(cm: Seq<DescriptorModel>, filter: Seq<char>) -> spec_fn(int) -> bool {
    |i: int|
        cm[i].attachable && cm[i].default_constructible && contains_seq(
            lower_seq(cm[i].short_name),
            lower_seq(filter),
        )
}

/// The keys of the descriptors at the given indices.
pub open spec fn keys_at(cm: Seq<DescriptorModel>, idx: Seq<int>) -> Seq<u64> {
    idx.map_values(|i: int| cm[i].key)
}

/// Length and elements of `keys_at`.
pub proof fn lemma_keys_at(cm: Seq<DescriptorModel>, idx: Seq<int>)
    ensures
        keys_at(cm, idx).len() == idx.len(),
        forall|a: int| 0 <= a < idx.len() ==> #[trigger] keys_at(cm, idx)[a] == cm[idx[a]].key,
{
}

/// The result of the live search: the keys of every matching type, in
/// registration order.
pub open spec fn spec_search(cm: Seq<DescriptorModel>, filter: Seq<char>) -> Seq<u64> {
    keys_at(
        cm,
        crate::store::picked_indices(cm.len() as int, search_pick(cm, filter), 0),
    )
}

impl Catalog {
    /// An empty catalog.
    pub fn new() -> (c: Catalog)
        ensures
            c@.len() == 0,
            catalog_wf(c@),
    {
        let c = Catalog { types: Vec::new() };
        proof {
            assert(c@ =~= Seq::<DescriptorModel>::empty());
        }
        c
    }

    /// How many types are registered.
    pub fn len(&self) -> (n: usize)
        ensures
            n == self@.len(),
    {
        proof {
            broadcast use crate::model::lemma_views_of;

        }
        self.types.len()
    }

    /// The descriptor at one position.
    pub fn get(&self, i: usize) -> (d: &TypeDescriptor)
        requires
            i < self@.len(),
        ensures
            d@ == self@[i as int],
    {
        proof {
            broadcast use crate::model::lemma_views_of;

        }
        &self.types[i]
    }

    /// Register one type. The registration is refused (and `false` comes
    /// back) when the key is already taken; duplicate names are accepted,
    /// and lookups then find the first registered.
    pub fn register(&mut self, d: TypeDescriptor) -> (r: bool)
        requires
            catalog_wf(old(self)@),
            descriptor_wf(d@),
        ensures
            catalog_wf(final(self)@),
            r == (first_picked(old(self)@.len() as int, key_pick(old(self)@, d.key), 0) is None),
            r ==> final(self)@ == old(self)@.push(d@),
            !r ==> final(self)@ == old(self)@,
    {
        broadcast use crate::model::lemma_views_of;

        let ghost cm = self@;
        let ghost pick = key_pick(cm, d.key);
        proof {
            lemma_first_picked(cm.len() as int, pick, 0);
        }
        let n = self.types.len();
        let mut i: usize = 0;
        while i < n
            invariant
                0 <= i <= n,
                n == self.types.len(),
                cm == self@,
                catalog_wf(cm),
                pick == key_pick(cm, d.key),
                forall|j: int| 0 <= j < i ==> !#[trigger] pick(j),
            decreases n - i,
        {
            proof {
                broadcast use crate::model::lemma_views_of;

            }
            if self.types[i].key == d.key {
                proof {
                    lemma_first_picked(cm.len() as int, pick, 0);
                    assert(pick(i as int));
                    match first_picked(cm.len() as int, pick, 0) {
                        Some(k) => {},
                        None => {
                            assert(!pick(i as int));
                        },
                    }
                }
                return false;
            }
            i = i + 1;
        }
        proof {
            match first_picked(cm.len() as int, pick, 0) {
                Some(k) => {
                    assert(pick(k));
                    assert(!pick(k));
                },
                None => {},
            }
        }
        let ghost gd = d@;
        self.types.push(d);
        proof {
            crate::model::lemma_views_of_push(old(self).types@, self.types@[self.types@.len() - 1]);
            assert(self@ =~= cm.push(gd));
            assert forall|a: int, b: int|
                0 <= a < b < self@.len() implies (#[trigger] self@[a].key) != (
            #[trigger] self@[b].key) by {
                if b < cm.len() {
                    assert(cm[a].key != cm[b].key);
                } else {
                    assert(self@[b] == gd);
                    assert(!pick(a));
                }
            }
            assert forall|a: int| 0 <= a < self@.len() implies descriptor_wf(#[trigger] self@[a]) by {
                if a < cm.len() {
                    assert(descriptor_wf(cm[a]));
                }
            }
        }
        true
    }

    /// The position of the type with the given key, if registered.
    pub fn index_by_key(&self, key: u64) -> (r: Option<usize>)
        ensures
            match r {
                Some(i) => first_picked(self@.len() as int, key_pick(self@, key), 0) == Some(
                    i as int,
                ) && i < self@.len() && self@[i as int].key == key,
                None => first_picked(self@.len() as int, key_pick(self@, key), 0) is None,
            },
    {
        broadcast use crate::model::lemma_views_of;

        let ghost cm = self@;
        let ghost pick = key_pick(cm, key);
        proof {
            lemma_first_picked(cm.len() as int, pick, 0);
        }
        let n = self.types.len();
        let mut i: usize = 0;
        while i < n
            invariant
                0 <= i <= n,
                n == self.types.len(),
                cm == self@,
                pick == key_pick(cm, key),
                forall|j: int| 0 <= j < i ==> !#[trigger] pick(j),
            decreases n - i,
        {
            proof {
                broadcast use crate::model::lemma_views_of;

            }
            if self.types[i].key == key {
                proof {
                    lemma_first_picked(cm.len() as int, pick, 0);
                    assert(pick(i as int));
                    match first_picked(cm.len() as int, pick, 0) {
                        Some(k) => {
                            if k < i as int {
                                assert(!pick(k));
                            }
                            if k > i as int {
                                assert(!pick(i as int));
                            }
                        },
                        None => {
                            assert(!pick(i as int));
                        },
                    }
                }
                return Some(i);
            }
            i = i + 1;
        }
        proof {
            match first_picked(cm.len() as int, pick, 0) {
                Some(k) => {
                    assert(pick(k));
                    assert(!pick(k));
                },
                None => {},
            }
        }
        None
    }

    /// Resolve a type by key.
    pub fn resolve_key(&self, key: u64) -> (r: Option<&TypeDescriptor>)
        ensures
            match r {
                Some(d) => first_picked(self@.len() as int, key_pick(self@, key), 0) is Some
                    && d@ == self@[first_picked(self@.len() as int, key_pick(self@, key), 0)->Some_0]
                    && d@.key == key,
                None => first_picked(self@.len() as int, key_pick(self@, key), 0) is None,
            },
    {
        broadcast use crate::model::lemma_views_of;

        match self.index_by_key(key) {
            Some(i) => Some(&self.types[i]),
            None => None,
        }
    }

    /// Resolve a type by its fully-qualified name; the first registered
    /// wins.
    pub fn resolve(&self, full_name: &str) -> (r: Option<&TypeDescriptor>)
        ensures
            match r {
                Some(d) => first_picked(self@.len() as int, name_pick(self@, full_name@), 0) is Some
                    && d@ == self@[first_picked(
                    self@.len() as int,
                    name_pick(self@, full_name@),
                    0,
                )->Some_0] && d@.full_name == full_name@,
                None => first_picked(self@.len() as int, name_pick(self@, full_name@), 0) is None,
            },
    {
        broadcast use crate::model::lemma_views_of;

        let ghost cm = self@;
        let ghost pick = name_pick(cm, full_name@);
        proof {
            lemma_first_picked(cm.len() as int, pick, 0);
        }
        let n = self.types.len();
        let mut i: usize = 0;
        while i < n
            invariant
                0 <= i <= n,
                n == self.types.len(),
                cm == self@,
                pick == name_pick(cm, full_name@),
                forall|j: int| 0 <= j < i ==> !#[trigger] pick(j),
            decreases n - i,
        {
            proof {
                broadcast use crate::model::lemma_views_of;

            }
            if str_eq(self.types[i].full_name.as_str(), full_name) {
                proof {
                    lemma_first_picked(cm.len() as int, pick, 0);
                    assert(pick(i as int));
                    match first_picked(cm.len() as int, pick, 0) {
                        Some(k) => {
                            if k < i as int {
                                assert(!pick(k));
                            }
                            if k > i as int {
                                assert(!pick(i as int));
                            }
                        },
                        None => {
                            assert(!pick(i as int));
                        },
                    }
                }
                return Some(&self.types[i]);
            }
            i = i + 1;
        }
        proof {
            match first_picked(cm.len() as int, pick, 0) {
                Some(k) => {
                    assert(pick(k));
                    assert(!pick(k));
                },
                None => {},
            }
        }
        None
    }

    /// Resolve a type by its short display name; the first registered wins.
    pub fn resolve_short(&self, short_name: &str) -> (r: Option<&TypeDescriptor>)
        ensures
            match r {
                Some(d) => first_picked(self@.len() as int, short_pick(self@, short_name@), 0)
                    is Some && d@ == self@[first_picked(
                    self@.len() as int,
                    short_pick(self@, short_name@),
                    0,
                )->Some_0] && d@.short_name == short_name@,
                None => first_picked(self@.len() as int, short_pick(self@, short_name@), 0) is None,
            },
    {
        broadcast use crate::model::lemma_views_of;

        let ghost cm = self@;
        let ghost pick = short_pick(cm, short_name@);
        proof {
            lemma_first_picked(cm.len() as int, pick, 0);
        }
        let n = self.types.len();
        let mut i: usize = 0;
        while i < n
            invariant
                0 <= i <= n,
                n == self.types.len(),
                cm == self@,
                pick == short_pick(cm, short_name@),
                forall|j: int| 0 <= j < i ==> !#[trigger] pick(j),
            decreases n - i,
        {
            proof {
                broadcast use crate::model::lemma_views_of;

            }
            if str_eq(self.types[i].short_name.as_str(), short_name) {
                proof {
                    lemma_first_picked(cm.len() as int, pick, 0);
                    assert(pick(i as int));
                    match first_picked(cm.len() as int, pick, 0) {
                        Some(k) => {
                            if k < i as int {
                                assert(!pick(k));
                            }
                            if k > i as int {
                                assert(!pick(i as int));
                            }
                        },
                        None => {
                            assert(!pick(i as int));
                        },
                    }
                }
                return Some(&self.types[i]);
            }
            i = i + 1;
        }
        proof {
            match first_picked(cm.len() as int, pick, 0) {
                Some(k) => {
                    assert(pick(k));
                    assert(!pick(k));
                },
                None => {},
            }
        }
        None
    }

    /// The live component search: the keys of every attachable,
    /// default-constructible type whose short name contains the filter
    /// text, case-folded in ASCII, in registration order.
    pub fn search(&self, filter: &str) -> (r: Vec<u64>)
        ensures
            r@ == spec_search(self@, filter@),
    {
        broadcast use crate::model::lemma_views_of;

        let ghost cm = self@;
        let ghost pick = search_pick(cm, filter@);
        let ghost n_int = cm.len() as int;
        let filter_chars = str_to_chars(filter);
        let filter_lower = to_lower_chars(filter_chars.as_slice());
        let n = self.types.len();
        let mut r: Vec<u64> = Vec::new();
        let mut i: usize = 0;
        proof {
            lemma_keys_at(cm, crate::store::picked_indices(n_int, pick, 0));
        }
        while i < n
            invariant
                0 <= i <= n,
                n == self.types.len(),
                cm == self@,
                pick == search_pick(cm, filter@),
                n_int == cm.len() as int,
                filter_lower@ == lower_seq(filter@),
                keys_at(cm, crate::store::picked_indices(n_int, pick, 0)) =~= r@ + keys_at(
                    cm,
                    crate::store::picked_indices(n_int, pick, i as int),
                ),
            decreases n - i,
        {
            proof {
                broadcast use crate::model::lemma_views_of;

            }
            let d = &self.types[i];
            let matched = if d.attachable && d.default_constructible {
                let short_chars = str_to_chars(d.short_name.as_str());
                let short_lower = to_lower_chars(short_chars.as_slice());
                contains_chars(short_lower.as_slice(), filter_lower.as_slice())
            } else {
                false
            };
            proof {
                assert(matched == pick(i as int));
            }
            let ghost p_i = crate::store::picked_indices(n_int, pick, i as int);
            let ghost p_i1 = crate::store::picked_indices(n_int, pick, i + 1);
            if matched {
                r.push(d.key);
                proof {
                    assert(p_i == seq![i as int] + p_i1);
                    lemma_keys_at(cm, p_i);
                    lemma_keys_at(cm, p_i1);
                    assert(keys_at(cm, p_i) =~= seq![cm[i as int].key] + keys_at(cm, p_i1)) by {
                        assert(forall|a: int| 1 <= a < p_i.len() ==> #[trigger] p_i[a] == p_i1[a - 1]);
                    }
                    assert(keys_at(cm, crate::store::picked_indices(n_int, pick, 0)) =~= r@
                        + keys_at(cm, p_i1));
                }
            } else {
                proof {
                    assert(p_i == p_i1);
                }
            }
            i = i + 1;
        }
        proof {
            lemma_keys_at(cm, crate::store::picked_indices(n_int, pick, n_int));
            assert(keys_at(cm, crate::store::picked_indices(n_int, pick, n_int))
                =~= Seq::<u64>::empty());
            assert(r@ =~= spec_search(cm, filter@));
        }
        r
    }
}

} // verus!
