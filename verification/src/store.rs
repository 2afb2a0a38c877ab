//! The managed store, modelled as plain data: an ordered list of entities,
//! each with a stable identifier, an optional parent link, and an ordered
//! list of attached records. Parents always stand earlier in the list than
//! their children, so ancestor chains are acyclic by construction.

use vstd::prelude::*;

use crate::record::{record_wf, spec_write_field, write_field, Record, RecordModel};

verus! {

/// One live entity: its handle, its parent (if any), and its records.
#[derive(Debug)]
pub struct EntityData {
    pub id: u64,
    pub parent: Option<u64>,
    pub records: Vec<Record>,
}

/// The model of one entity.
pub struct EntityModel {
    pub id: u64,
    pub parent: Option<u64>,
    pub records: Seq<RecordModel>,
}

impl View for EntityData {
    type V = EntityModel;

    open spec fn view(&self) -> EntityModel {
        EntityModel {
            id: self.id,
            parent: self.parent,
            records: crate::model::views_of(self.records@),
        }
    }
}

/// The model of the whole store.
pub struct StoreModel {
    pub next_id: u64,
    pub entities: Seq<EntityModel>,
}

/// The managed store.
#[derive(Debug)]
pub struct Store {
    pub next_id: u64,
    pub entities: Vec<EntityData>,
}

impl View for Store {
    type V = StoreModel;

    open spec fn view(&self) -> StoreModel {
        StoreModel {
            next_id: self.next_id,
            entities: crate::model::views_of(self.entities@),
        }
    }
}

/// The index of the first entity with handle `id`, if any.
pub open spec fn find_entity(es: Seq<EntityModel>, id: u64) -> Option<int>
    decreases es.len(),
{
    if es.len() == 0 {
        None
    } else if es[0].id == id {
        Some(0)
    } else {
        match find_entity(es.drop_first(), id) {
            Some(i) => Some(i + 1),
            None => None,
        }
    }
}

/// What `find_entity` finds is the first entity with that handle; when it
/// finds nothing, no entity has it.
pub proof fn lemma_find_entity(es: Seq<EntityModel>, id: u64)
    ensures
        match find_entity(es, id) {
            Some(i) => 0 <= i < es.len() && es[i].id == id && (forall|j: int|
                0 <= j < i ==> (#[trigger] es[j]).id != id),
            None => forall|j: int| 0 <= j < es.len() ==> (#[trigger] es[j]).id != id,
        },
    decreases es.len(),
{
    if es.len() > 0 && es[0].id != id {
        let d = es.drop_first();
        lemma_find_entity(d, id);
        assert(forall|j: int| 0 <= j < es.len() - 1 ==> #[trigger] d[j] == es[j + 1]);
        match find_entity(d, id) {
            Some(i) => {
                assert(es[i + 1].id == id) by {
                    assert(d[i] == es[i + 1]);
                }
                assert forall|j: int| 0 <= j < i + 1 implies (#[trigger] es[j]).id != id by {
                    if j > 0 {
                        assert(es[j] == d[j - 1]);
                    }
                }
            },
            None => {
                assert forall|j: int| 0 <= j < es.len() implies (#[trigger] es[j]).id != id by {
                    if j > 0 {
                        assert(es[j] == d[j - 1]);
                    }
                }
            },
        }
    }
}

/// A first match determines `find_entity`.
pub proof fn lemma_find_entity_at(es: Seq<EntityModel>, id: u64, i: int)
    requires
        0 <= i < es.len(),
        es[i].id == id,
        forall|j: int| 0 <= j < i ==> (#[trigger] es[j]).id != id,
    ensures
        find_entity(es, id) == Some(i),
    decreases i,
{
    if i > 0 {
        lemma_find_entity_at(es.drop_first(), id, i - 1);
        assert(forall|j: int| 0 <= j < es.len() - 1 ==> #[trigger] es.drop_first()[j] == es[j + 1]);
    }
}

/// The index of the first record with type key `key`, if any.
pub open spec fn find_record(rs: Seq<RecordModel>, key: u64) -> Option<int>
    decreases rs.len(),
{
    if rs.len() == 0 {
        None
    } else if rs[0].type_key == key {
        Some(0)
    } else {
        match find_record(rs.drop_first(), key) {
            Some(i) => Some(i + 1),
            None => None,
        }
    }
}

/// What `find_record` finds is the first record of that type; when it finds
/// nothing, no record has the key.
pub proof fn lemma_find_record(rs: Seq<RecordModel>, key: u64)
    ensures
        match find_record(rs, key) {
            Some(i) => 0 <= i < rs.len() && rs[i].type_key == key && (forall|j: int|
                0 <= j < i ==> (#[trigger] rs[j]).type_key != key),
            None => forall|j: int| 0 <= j < rs.len() ==> (#[trigger] rs[j]).type_key != key,
        },
    decreases rs.len(),
{
    if rs.len() > 0 && rs[0].type_key != key {
        let d = rs.drop_first();
        lemma_find_record(d, key);
        assert(forall|j: int| 0 <= j < rs.len() - 1 ==> #[trigger] d[j] == rs[j + 1]);
        match find_record(d, key) {
            Some(i) => {
                assert(rs[i + 1].type_key == key) by {
                    assert(d[i] == rs[i + 1]);
                }
                assert forall|j: int| 0 <= j < i + 1 implies (#[trigger] rs[j]).type_key != key by {
                    if j > 0 {
                        assert(rs[j] == d[j - 1]);
                    }
                }
            },
            None => {
                assert forall|j: int| 0 <= j < rs.len() implies (#[trigger] rs[j]).type_key
                    != key by {
                    if j > 0 {
                        assert(rs[j] == d[j - 1]);
                    }
                }
            },
        }
    }
}

/// A first match determines `find_record`.
pub proof fn lemma_find_record_at(rs: Seq<RecordModel>, key: u64, i: int)
    requires
        0 <= i < rs.len(),
        rs[i].type_key == key,
        forall|j: int| 0 <= j < i ==> (#[trigger] rs[j]).type_key != key,
    ensures
        find_record(rs, key) == Some(i),
    decreases i,
{
    if i > 0 {
        lemma_find_record_at(rs.drop_first(), key, i - 1);
        assert(forall|j: int| 0 <= j < rs.len() - 1 ==> #[trigger] rs.drop_first()[j] == rs[j + 1]);
    }
}

/// An entity is well formed when its records carry distinct type keys and
/// every record is well formed.
pub open spec fn entity_wf(e: EntityModel) -> bool {
    &&& forall|i: int, j: int|
        0 <= i < j < e.records.len() ==> (#[trigger] e.records[i].type_key) != (
        #[trigger] e.records[j].type_key)
    &&& forall|i: int| 0 <= i < e.records.len() ==> record_wf(#[trigger] e.records[i])
}

/// The store is well formed: entity handles are distinct and below
/// `next_id`, every parent link points at an entity that stands strictly
/// earlier in the list, and every entity is well formed.
pub open spec fn store_wf(m: StoreModel) -> bool {
    &&& forall|i: int, j: int|
        0 <= i < j < m.entities.len() ==> (#[trigger] m.entities[i].id) != (
        #[trigger] m.entities[j].id)
    &&& forall|i: int| 0 <= i < m.entities.len() ==> (#[trigger] m.entities[i]).id < m.next_id
    &&& forall|i: int|
        0 <= i < m.entities.len() ==> match (#[trigger] m.entities[i]).parent {
            Some(p) => exists|j: int| 0 <= j < i && (#[trigger] m.entities[j]).id == p,
            None => true,
        }
    &&& forall|i: int| 0 <= i < m.entities.len() ==> entity_wf(#[trigger] m.entities[i])
}

impl Store {
    /// An empty store.
    pub fn new() -> (s: Store)
        ensures
            s@.entities.len() == 0,
            s@.next_id == 0,
            store_wf(s@),
    {
        let s = Store { next_id: 0, entities: Vec::new() };
        proof {
            assert(s@.entities =~= Seq::<EntityModel>::empty());
        }
        s
    }

    /// The position of the entity with handle `id`, if it is live.
    pub fn index_of(&self, id: u64) -> (r: Option<usize>)
        ensures
            match r {
                Some(i) => find_entity(self@.entities, id) == Some(i as int),
                None => find_entity(self@.entities, id) is None,
            },
    {
        proof {
            lemma_find_entity(self@.entities, id);
        }
        let n = self.entities.len();
        let mut i: usize = 0;
        while i < n
            invariant
                0 <= i <= n,
                n == self.entities.len(),
                forall|j: int| 0 <= j < i ==> (#[trigger] self@.entities[j]).id != id,
            decreases n - i,
        {
            if self.entities[i].id == id {
                proof {
                    lemma_find_entity_at(self@.entities, id, i as int);
                }
                return Some(i);
            }
            i = i + 1;
        }
        None
    }

    /// Whether an entity with handle `id` is live.
    pub fn has_entity(&self, id: u64) -> (r: bool)
        ensures
            r == (find_entity(self@.entities, id) is Some),
    {
        self.index_of(id).is_some()
    }

    /// The live entity handles, in store order.
    pub fn entity_ids(&self) -> (r: Vec<u64>)
        ensures
            r@ == self@.entities.map_values(|e: EntityModel| e.id),
    {
        let ghost target = self@.entities.map_values(|e: EntityModel| e.id);
        let mut r: Vec<u64> = Vec::new();
        let n = self.entities.len();
        let mut i: usize = 0;
        while i < n
            invariant
                0 <= i <= n,
                n == self.entities.len(),
                target == self@.entities.map_values(|e: EntityModel| e.id),
                r@ =~= target.subrange(0, i as int),
            decreases n - i,
        {
            r.push(self.entities[i].id);
            assert(r@ =~= target.subrange(0, i + 1));
            i = i + 1;
        }
        assert(target.subrange(0, n as int) =~= target);
        r
    }
}

impl EntityData {
    /// An equal entity, by deep copy, with its parent link replaced.
    pub fn duplicate_with_parent(&self, parent: Option<u64>) -> (r: EntityData)
        ensures
            r@ == (EntityModel { id: self.id, parent, records: self@.records }),
    {
        let mut records: Vec<Record> = Vec::new();
        let n = self.records.len();
        let mut i: usize = 0;
        while i < n
            invariant
                0 <= i <= n,
                n == self.records.len(),
                crate::model::views_of(records@) =~= crate::model::views_of(self.records@).subrange(
                    0,
                    i as int,
                ),
            decreases n - i,
        {
            let ghost old_records = records@;
            let rec = self.records[i].duplicate();
            let ghost grec = rec;
            records.push(rec);
            proof {
                crate::model::lemma_views_of_push(old_records, grec);
                crate::model::lemma_views_of(old_records);
                crate::model::lemma_views_of(records@);
                crate::model::lemma_views_of(self.records@);
                assert(crate::model::views_of(records@) =~= crate::model::views_of(
                    self.records@,
                ).subrange(0, i + 1));
            }
            i = i + 1;
        }
        proof {
            assert(crate::model::views_of(self.records@).subrange(
                0,
                n as int,
            ) =~= crate::model::views_of(self.records@)) by {
                crate::model::lemma_views_of(self.records@);
            }
        }
        EntityData { id: self.id, parent, records }
    }

    /// An equal entity, by deep copy.
    pub fn duplicate(&self) -> (r: EntityData)
        ensures
            r@ == self@,
    {
        self.duplicate_with_parent(self.parent)
    }
}

/// Whether a vector of keys holds `x`.
pub fn contains_u64(v: &Vec<u64>, x: u64) -> (r: bool)
    ensures
        r == v@.contains(x),
{
    let n = v.len();
    let mut i: usize = 0;
    while i < n
        invariant
            0 <= i <= n,
            n == v@.len(),
            forall|j: int| 0 <= j < i ==> v@[j] != x,
        decreases n - i,
    {
        if v[i] == x {
            return true;
        }
        i = i + 1;
    }
    false
}

/// The store after spawning one entity: the fresh handle is the old
/// `next_id` and the entity is appended.
pub open spec fn spec_spawn(m: StoreModel, parent: Option<u64>, records: Seq<RecordModel>) -> StoreModel {
    StoreModel {
        next_id: (m.next_id + 1) as u64,
        entities: m.entities.push(EntityModel { id: m.next_id, parent, records }),
    }
}

/// The store after inserting a record on an entity, and whether it was
/// inserted: nothing happens when the entity is missing or already carries a
/// record of that type.
pub open spec fn spec_insert_record(m: StoreModel, id: u64, rec: RecordModel) -> (StoreModel, bool) {
    match find_entity(m.entities, id) {
        None => (m, false),
        Some(i) => match find_record(m.entities[i].records, rec.type_key) {
            Some(_) => (m, false),
            None => (
                StoreModel {
                    next_id: m.next_id,
                    entities: m.entities.update(
                        i,
                        EntityModel {
                            id: m.entities[i].id,
                            parent: m.entities[i].parent,
                            records: m.entities[i].records.push(rec),
                        },
                    ),
                },
                true,
            ),
        },
    }
}

/// The store after setting an entity's record of one type: an existing
/// record of that type is replaced, otherwise the record is appended. The
/// result also says whether the entity was found at all.
pub open spec fn spec_set_record(m: StoreModel, id: u64, rec: RecordModel) -> (StoreModel, bool) {
    match find_entity(m.entities, id) {
        None => (m, false),
        Some(i) => match find_record(m.entities[i].records, rec.type_key) {
            Some(j) => (
                StoreModel {
                    next_id: m.next_id,
                    entities: m.entities.update(
                        i,
                        EntityModel {
                            id: m.entities[i].id,
                            parent: m.entities[i].parent,
                            records: m.entities[i].records.update(j, rec),
                        },
                    ),
                },
                true,
            ),
            None => (
                StoreModel {
                    next_id: m.next_id,
                    entities: m.entities.update(
                        i,
                        EntityModel {
                            id: m.entities[i].id,
                            parent: m.entities[i].parent,
                            records: m.entities[i].records.push(rec),
                        },
                    ),
                },
                true,
            ),
        },
    }
}

/// The store after removing the record of one type from an entity, and
/// whether one was removed.
pub open spec fn spec_remove_record(m: StoreModel, id: u64, key: u64) -> (StoreModel, bool) {
    match find_entity(m.entities, id) {
        None => (m, false),
        Some(i) => match find_record(m.entities[i].records, key) {
            None => (m, false),
            Some(j) => (
                StoreModel {
                    next_id: m.next_id,
                    entities: m.entities.update(
                        i,
                        EntityModel {
                            id: m.entities[i].id,
                            parent: m.entities[i].parent,
                            records: m.entities[i].records.remove(j),
                        },
                    ),
                },
                true,
            ),
        },
    }
}

/// The store after one textual field edit on an entity's record of one
/// type, and whether a write occurred.
pub open spec fn spec_change_field(
    m: StoreModel,
    id: u64,
    key: u64,
    name: Seq<char>,
    text: Seq<char>,
) -> (StoreModel, bool) {
    match find_entity(m.entities, id) {
        None => (m, false),
        Some(i) => match find_record(m.entities[i].records, key) {
            None => (m, false),
            Some(j) => {
                let w = spec_write_field(m.entities[i].records[j], name, text);
                (
                    StoreModel {
                        next_id: m.next_id,
                        entities: m.entities.update(
                            i,
                            EntityModel {
                                id: m.entities[i].id,
                                parent: m.entities[i].parent,
                                records: m.entities[i].records.update(j, w.0),
                            },
                        ),
                    },
                    w.1,
                )
            },
        },
    }
}

impl Store {
    /// Spawn a fresh entity with the given parent and records; the new
    /// handle is returned.
    pub fn spawn(&mut self, parent: Option<u64>, records: Vec<Record>) -> (id: u64)
        requires
            store_wf(old(self)@),
            old(self)@.next_id < u64::MAX,
            match parent {
                Some(p) => find_entity(old(self)@.entities, p) is Some,
                None => true,
            },
            entity_wf(
                EntityModel {
                    id: old(self)@.next_id,
                    parent,
                    records: crate::model::views_of(records@),
                },
            ),
        ensures
            final(self)@ == spec_spawn(old(self)@, parent, crate::model::views_of(records@)),
            id == old(self)@.next_id,
            store_wf(final(self)@),
    {
        let ghost m = self@;
        let id = self.next_id;
        self.next_id = self.next_id + 1;
        let ent = EntityData { id, parent, records };
        let ghost gent = ent;
        self.entities.push(ent);
        proof {
            crate::model::lemma_views_of_push(old(self).entities@, gent);
            crate::model::lemma_views_of(old(self).entities@);
            crate::model::lemma_views_of(self.entities@);
            assert(self@.entities =~= m.entities.push(gent@));
            let r = self@;
            let nl = m.entities.len() as int;
            assert(r.entities.len() == nl + 1);
            assert(forall|i: int| 0 <= i < nl ==> #[trigger] r.entities[i] == m.entities[i]);
            assert(r.entities[nl] == gent@);
            assert(store_wf(r)) by {
                if parent is Some {
                    lemma_find_entity(m.entities, parent->Some_0);
                }
                assert forall|i: int, j: int|
                    0 <= i < j < r.entities.len() implies (#[trigger] r.entities[i].id) != (
                #[trigger] r.entities[j].id) by {
                    if j < nl {
                        assert(m.entities[i].id != m.entities[j].id);
                    } else {
                        assert(r.entities[j].id == m.next_id);
                        assert(m.entities[i].id < m.next_id);
                    }
                }
                assert forall|i: int| 0 <= i < r.entities.len() implies (
                #[trigger] r.entities[i]).id < r.next_id by {
                    if i < nl {
                        assert(m.entities[i].id < m.next_id);
                    }
                }
                assert forall|i: int|
                    0 <= i < r.entities.len() implies match (#[trigger] r.entities[i]).parent {
                    Some(p) => exists|j: int| 0 <= j < i && (#[trigger] r.entities[j]).id == p,
                    None => true,
                } by {
                    if i < nl {
                        assert(match m.entities[i].parent {
                            Some(p) => exists|j: int|
                                0 <= j < i && (#[trigger] m.entities[j]).id == p,
                            None => true,
                        });
                        match m.entities[i].parent {
                            Some(p) => {
                                let j = choose|j: int|
                                    0 <= j < i && (#[trigger] m.entities[j]).id == p;
                                assert(r.entities[j].id == p);
                            },
                            None => {},
                        }
                    } else {
                        match parent {
                            Some(p) => {
                                let j = find_entity(m.entities, p)->Some_0;
                                assert(m.entities[j].id == p);
                                assert(r.entities[j].id == p);
                            },
                            None => {},
                        }
                    }
                }
                assert forall|i: int| 0 <= i < r.entities.len() implies entity_wf(
                    #[trigger] r.entities[i],
                ) by {
                    if i < nl {
                        assert(entity_wf(m.entities[i]));
                    }
                }
            }
        }
        id
    }

}

/// Replacing one entity's records (its handle and parent untouched) with a
/// well-formed record list keeps the store well formed.
pub proof fn lemma_wf_update_records(m: StoreModel, i: int, rs: Seq<RecordModel>)
    requires
        store_wf(m),
        0 <= i < m.entities.len(),
        entity_wf(EntityModel { id: m.entities[i].id, parent: m.entities[i].parent, records: rs }),
    ensures
        store_wf(
            StoreModel {
                next_id: m.next_id,
                entities: m.entities.update(
                    i,
                    EntityModel {
                        id: m.entities[i].id,
                        parent: m.entities[i].parent,
                        records: rs,
                    },
                ),
            },
        ),
{
    let r = StoreModel {
        next_id: m.next_id,
        entities: m.entities.update(
            i,
            EntityModel { id: m.entities[i].id, parent: m.entities[i].parent, records: rs },
        ),
    };
    assert(forall|k: int|
        0 <= k < r.entities.len() ==> (#[trigger] r.entities[k]).id == m.entities[k].id
            && r.entities[k].parent == m.entities[k].parent);
    assert forall|k: int|
        0 <= k < r.entities.len() implies match (#[trigger] r.entities[k]).parent {
        Some(p) => exists|j: int| 0 <= j < k && (#[trigger] r.entities[j]).id == p,
        None => true,
    } by {
        match m.entities[k].parent {
            Some(p) => {
                let j = choose|j: int| 0 <= j < k && (#[trigger] m.entities[j]).id == p;
                assert(r.entities[j].id == p);
            },
            None => {},
        }
    }
    assert forall|k: int| 0 <= k < r.entities.len() implies entity_wf(
        #[trigger] r.entities[k],
    ) by {
        if k != i {
            assert(r.entities[k] == m.entities[k]);
            assert(entity_wf(m.entities[k]));
        }
    }
}

impl Store {
    /// The position of the record with type key `key` on the entity at
    /// position `idx`, if any.
    pub fn record_index_of(&self, idx: usize, key: u64) -> (r: Option<usize>)
        requires
            idx < self@.entities.len(),
        ensures
            match r {
                Some(j) => find_record(self@.entities[idx as int].records, key) == Some(j as int),
                None => find_record(self@.entities[idx as int].records, key) is None,
            },
    {
        broadcast use crate::model::lemma_views_of;

        let ghost rs = self@.entities[idx as int].records;
        proof {
            lemma_find_record(rs, key);
        }
        let n = self.entities[idx].records.len();
        let mut j: usize = 0;
        while j < n
            invariant
                0 <= j <= n,
                idx < self.entities.len(),
                rs == self@.entities[idx as int].records,
                n == rs.len(),
                forall|k: int| 0 <= k < j ==> (#[trigger] rs[k]).type_key != key,
            decreases n - j,
        {
            proof {
                broadcast use crate::model::lemma_views_of;
            }
            if self.entities[idx].records[j].type_key == key {
                proof {
                    lemma_find_record_at(rs, key, j as int);
                }
                return Some(j);
            }
            j = j + 1;
        }
        None
    }

    /// Attach a record to an entity; nothing happens and `false` comes back
    /// when the entity is missing or already carries a record of that type.
    pub fn insert_record(&mut self, id: u64, rec: Record) -> (r: bool)
        requires
            store_wf(old(self)@),
            record_wf(rec@),
        ensures
            final(self)@ == spec_insert_record(old(self)@, id, rec@).0,
            r == spec_insert_record(old(self)@, id, rec@).1,
            store_wf(final(self)@),
    {
        broadcast use crate::model::lemma_views_of;

        let ghost m = self@;
        let idx = match self.index_of(id) {
            Some(i) => i,
            None => {
                return false;
            },
        };
        proof {
            lemma_find_entity(m.entities, id);
        }
        if self.record_index_of(idx, rec.type_key).is_some() {
            return false;
        }
        let ghost old_records = m.entities[idx as int].records;
        proof {
            lemma_find_record(old_records, rec@.type_key);
        }
        let ghost grec = rec@;
        let mut ent = self.entities[idx].duplicate();
        let ghost ent_records_before = ent.records@;
        ent.records.push(rec);
        proof {
            crate::model::lemma_views_of_push(
                ent_records_before,
                ent.records@[ent.records@.len() - 1],
            );
            assert(ent@.records =~= old_records.push(grec));
        }
        let ghost gent = ent@;
        self.entities.set(idx, ent);
        proof {
            crate::model::lemma_views_of_update(
                old(self).entities@,
                idx as int,
                self.entities@[idx as int],
            );
            assert(self@.entities =~= m.entities.update(idx as int, gent));
            let target = EntityModel {
                id: m.entities[idx as int].id,
                parent: m.entities[idx as int].parent,
                records: old_records.push(grec),
            };
            assert(gent == target);
            assert(entity_wf(target)) by {
                let rs = target.records;
                assert forall|a: int, b: int|
                    0 <= a < b < rs.len() implies (#[trigger] rs[a].type_key) != (
                #[trigger] rs[b].type_key) by {
                    if b < rs.len() - 1 {
                        assert(old_records[a].type_key != old_records[b].type_key);
                    } else {
                        assert(rs[b] == grec);
                        assert(old_records[a].type_key != grec.type_key);
                    }
                }
                assert forall|a: int| 0 <= a < rs.len() implies record_wf(#[trigger] rs[a]) by {
                    if a < rs.len() - 1 {
                        assert(record_wf(old_records[a]));
                    }
                }
            }
            lemma_wf_update_records(m, idx as int, old_records.push(grec));
        }
        true
    }

    /// Set an entity's record of one type: replace an existing record of
    /// that type, or attach the record when none is present. `false` comes
    /// back only when the entity is missing.
    pub fn set_record(&mut self, id: u64, rec: Record) -> (r: bool)
        requires
            store_wf(old(self)@),
            record_wf(rec@),
        ensures
            final(self)@ == spec_set_record(old(self)@, id, rec@).0,
            r == spec_set_record(old(self)@, id, rec@).1,
            store_wf(final(self)@),
    {
        broadcast use crate::model::lemma_views_of;

        let ghost m = self@;
        let idx = match self.index_of(id) {
            Some(i) => i,
            None => {
                return false;
            },
        };
        proof {
            lemma_find_entity(m.entities, id);
        }
        let ghost old_records = m.entities[idx as int].records;
        let ghost grec = rec@;
        match self.record_index_of(idx, rec.type_key) {
            Some(j) => {
                proof {
                    lemma_find_record(old_records, grec.type_key);
                }
                let mut ent = self.entities[idx].duplicate();
                proof {
                    assert(ent.records@.len() == old_records.len());
                }
                ent.records.set(j, rec);
                proof {
                    crate::model::lemma_views_of_update(
                        old(self).entities@[idx as int].records@,
                        j as int,
                        ent.records@[j as int],
                    );
                    assert(crate::model::views_of(ent.records@) =~= old_records.update(
                        j as int,
                        grec,
                    ));
                }
                let ghost gent = ent@;
                self.entities.set(idx, ent);
                proof {
                    crate::model::lemma_views_of_update(
                        old(self).entities@,
                        idx as int,
                        self.entities@[idx as int],
                    );
                    assert(self@.entities =~= m.entities.update(idx as int, gent));
                    let rs = old_records.update(j as int, grec);
                    let target = EntityModel {
                        id: m.entities[idx as int].id,
                        parent: m.entities[idx as int].parent,
                        records: rs,
                    };
                    assert(gent == target);
                    assert(entity_wf(target)) by {
                        assert(grec.type_key == old_records[j as int].type_key);
                        assert forall|a: int, b: int|
                            0 <= a < b < rs.len() implies (#[trigger] rs[a].type_key) != (
                        #[trigger] rs[b].type_key) by {
                            assert(rs[a].type_key == old_records[a].type_key);
                            assert(rs[b].type_key == old_records[b].type_key);
                            assert(old_records[a].type_key != old_records[b].type_key);
                        }
                        assert forall|a: int| 0 <= a < rs.len() implies record_wf(
                            #[trigger] rs[a],
                        ) by {
                            if a != j {
                                assert(rs[a] == old_records[a]);
                            }
                            assert(record_wf(old_records[a]));
                        }
                    }
                    lemma_wf_update_records(m, idx as int, rs);
                }
                true
            },
            None => {
                proof {
                    lemma_find_record(old_records, grec.type_key);
                }
                let mut ent = self.entities[idx].duplicate();
                let ghost ent_records_before = ent.records@;
                ent.records.push(rec);
                proof {
                    crate::model::lemma_views_of_push(
                        ent_records_before,
                        ent.records@[ent.records@.len() - 1],
                    );
                    assert(ent@.records =~= old_records.push(grec));
                }
                let ghost gent = ent@;
                self.entities.set(idx, ent);
                proof {
                    crate::model::lemma_views_of_update(
                        old(self).entities@,
                        idx as int,
                        self.entities@[idx as int],
                    );
                    assert(self@.entities =~= m.entities.update(idx as int, gent));
                    let rs = old_records.push(grec);
                    let target = EntityModel {
                        id: m.entities[idx as int].id,
                        parent: m.entities[idx as int].parent,
                        records: rs,
                    };
                    assert(gent == target);
                    assert(entity_wf(target)) by {
                        assert forall|a: int, b: int|
                            0 <= a < b < rs.len() implies (#[trigger] rs[a].type_key) != (
                        #[trigger] rs[b].type_key) by {
                            if b < rs.len() - 1 {
                                assert(old_records[a].type_key != old_records[b].type_key);
                            } else {
                                assert(rs[b] == grec);
                                assert(old_records[a].type_key != grec.type_key);
                            }
                        }
                        assert forall|a: int| 0 <= a < rs.len() implies record_wf(
                            #[trigger] rs[a],
                        ) by {
                            if a < rs.len() - 1 {
                                assert(record_wf(old_records[a]));
                            }
                        }
                    }
                    lemma_wf_update_records(m, idx as int, rs);
                }
                true
            },
        }
    }

    /// Detach the record of one type from an entity; `false` comes back
    /// when the entity is missing or has no record of that type.
    pub fn remove_record(&mut self, id: u64, key: u64) -> (r: bool)
        requires
            store_wf(old(self)@),
        ensures
            final(self)@ == spec_remove_record(old(self)@, id, key).0,
            r == spec_remove_record(old(self)@, id, key).1,
            store_wf(final(self)@),
    {
        broadcast use crate::model::lemma_views_of;

        let ghost m = self@;
        let idx = match self.index_of(id) {
            Some(i) => i,
            None => {
                return false;
            },
        };
        proof {
            lemma_find_entity(m.entities, id);
        }
        let j = match self.record_index_of(idx, key) {
            Some(j) => j,
            None => {
                return false;
            },
        };
        let ghost old_records = m.entities[idx as int].records;
        proof {
            lemma_find_record(old_records, key);
        }
        let mut ent = self.entities[idx].duplicate();
        let ghost ent_records_before = ent.records@;
        let removed = ent.records.remove(j);
        proof {
            let n = ent_records_before.len() as int;
            assert(crate::model::views_of(ent.records@) =~= old_records.remove(j as int)) by {
                old_records.remove_ensures(j as int);
                assert(ent.records@ == ent_records_before.remove(j as int));
                ent_records_before.remove_ensures(j as int);
            }
        }
        let ghost gent = ent@;
        self.entities.set(idx, ent);
        proof {
            crate::model::lemma_views_of_update(
                old(self).entities@,
                idx as int,
                self.entities@[idx as int],
            );
            assert(self@.entities =~= m.entities.update(idx as int, gent));
            let rs = old_records.remove(j as int);
            let target = EntityModel {
                id: m.entities[idx as int].id,
                parent: m.entities[idx as int].parent,
                records: rs,
            };
            assert(gent == target);
            assert(entity_wf(target)) by {
                old_records.remove_ensures(j as int);
                assert forall|a: int, b: int|
                    0 <= a < b < rs.len() implies (#[trigger] rs[a].type_key) != (
                #[trigger] rs[b].type_key) by {
                    let oa: int = if a < j { a } else { a + 1 };
                    let ob: int = if b < j { b } else { b + 1 };
                    assert(rs[a] == old_records[oa]);
                    assert(rs[b] == old_records[ob]);
                    assert(old_records[oa].type_key != old_records[ob].type_key);
                }
                assert forall|a: int| 0 <= a < rs.len() implies record_wf(#[trigger] rs[a]) by {
                    let oa: int = if a < j { a } else { a + 1 };
                    assert(rs[a] == old_records[oa]);
                    assert(record_wf(old_records[oa]));
                }
            }
            lemma_wf_update_records(m, idx as int, rs);
        }
        true
    }

    /// Apply one textual field edit to the record of one type on an entity;
    /// the result says whether a write occurred.
    pub fn change_field(&mut self, id: u64, key: u64, field_name: &str, text: &str) -> (r: bool)
        requires
            store_wf(old(self)@),
        ensures
            final(self)@ == spec_change_field(old(self)@, id, key, field_name@, text@).0,
            r == spec_change_field(old(self)@, id, key, field_name@, text@).1,
            store_wf(final(self)@),
    {
        broadcast use crate::model::lemma_views_of;

        let ghost m = self@;
        let idx = match self.index_of(id) {
            Some(i) => i,
            None => {
                return false;
            },
        };
        proof {
            lemma_find_entity(m.entities, id);
        }
        let j = match self.record_index_of(idx, key) {
            Some(j) => j,
            None => {
                return false;
            },
        };
        let ghost old_records = m.entities[idx as int].records;
        let ghost w = crate::record::spec_write_field(
            old_records[j as int],
            field_name@,
            text@,
        );
        let mut ent = self.entities[idx].duplicate();
        proof {
            lemma_find_record(old_records, key);
            assert(crate::model::views_of(ent.records@).len() == old_records.len());
            assert(ent.records@.len() == old_records.len());
        }
        let mut rec = ent.records[j].duplicate();
        let applied = crate::record::write_field(&mut rec, field_name, text);
        let ghost grec = rec@;
        ent.records.set(j, rec);
        proof {
            crate::model::lemma_views_of_update(
                old(self).entities@[idx as int].records@,
                j as int,
                ent.records@[j as int],
            );
            assert(crate::model::views_of(ent.records@) =~= old_records.update(j as int, grec));
        }
        let ghost gent = ent@;
        self.entities.set(idx, ent);
        proof {
            crate::model::lemma_views_of_update(
                old(self).entities@,
                idx as int,
                self.entities@[idx as int],
            );
            assert(self@.entities =~= m.entities.update(idx as int, gent));
            let rs = old_records.update(j as int, w.0);
            assert(grec == w.0);
            let target = EntityModel {
                id: m.entities[idx as int].id,
                parent: m.entities[idx as int].parent,
                records: rs,
            };
            assert(gent == target);
            assert(entity_wf(target)) by {
                assert(record_wf(old_records[j as int]));
                assert(w.0.type_key == old_records[j as int].type_key);
                assert forall|a: int, b: int|
                    0 <= a < b < rs.len() implies (#[trigger] rs[a].type_key) != (
                #[trigger] rs[b].type_key) by {
                    assert(rs[a].type_key == old_records[a].type_key);
                    assert(rs[b].type_key == old_records[b].type_key);
                    assert(old_records[a].type_key != old_records[b].type_key);
                }
                assert forall|a: int| 0 <= a < rs.len() implies record_wf(#[trigger] rs[a]) by {
                    if a != j {
                        assert(rs[a] == old_records[a]);
                    }
                    assert(record_wf(old_records[a]));
                }
            }
            lemma_wf_update_records(m, idx as int, rs);
        }
        applied
    }
}

/// The indices in `[i, n)` that `pick` accepts, in increasing order.
pub open spec fn picked_indices(n: int, pick: spec_fn(int) -> bool, i: int) -> Seq<int>
    decreases n - i,
{
    if i >= n {
        Seq::empty()
    } else if pick(i) {
        seq![i] + picked_indices(n, pick, i + 1)
    } else {
        picked_indices(n, pick, i + 1)
    }
}

/// `picked_indices` lists exactly the accepted indices, in increasing
/// order.
pub proof fn lemma_picked_indices(n: int, pick: spec_fn(int) -> bool, i: int)
    ensures
        ({
            let k = picked_indices(n, pick, i);
            &&& forall|a: int| 0 <= a < k.len() ==> i <= #[trigger] k[a] < n && pick(k[a])
            &&& forall|a: int, b: int| 0 <= a < b < k.len() ==> k[a] < k[b]
            &&& forall|j: int| i <= j < n && pick(j) ==> #[trigger] k.contains(j)
        }),
    decreases n - i,
{
    let k = picked_indices(n, pick, i);
    if i >= n {
    } else {
        lemma_picked_indices(n, pick, i + 1);
        let k2 = picked_indices(n, pick, i + 1);
        if pick(i) {
            assert(k == seq![i] + k2);
            assert(k[0] == i);
            assert(forall|a: int| 1 <= a < k.len() ==> #[trigger] k[a] == k2[a - 1]);
            assert forall|j: int| i <= j < n && pick(j) implies #[trigger] k.contains(j) by {
                if j == i {
                    assert(k[0] == j);
                } else {
                    assert(k2.contains(j));
                    let a = choose|a: int| 0 <= a < k2.len() && k2[a] == j;
                    assert(k[a + 1] == j);
                }
            }
        } else {
            assert(k == k2);
            assert forall|j: int| i <= j < n && pick(j) implies #[trigger] k.contains(j) by {
                assert(j != i);
                assert(k2.contains(j));
            }
        }
    }
}

/// The entity at index `j`, with its parent link dropped when the parent is
/// not kept.
pub open spec fn reparent(es: Seq<EntityModel>, keep: spec_fn(int) -> bool, j: int) -> EntityModel {
    EntityModel {
        id: es[j].id,
        parent: match es[j].parent {
            Some(p) => match find_entity(es, p) {
                Some(k) => if keep(k) {
                    Some(p)
                } else {
                    None
                },
                None => None,
            },
            None => None,
        },
        records: es[j].records,
    }
}

/// The entities at the given indices, each reparented.
pub open spec fn reparented_all(
    es: Seq<EntityModel>,
    keep: spec_fn(int) -> bool,
    idx: Seq<int>,
) -> Seq<EntityModel> {
    idx.map_values(|j: int| reparent(es, keep, j))
}

/// Length and elements of `reparented_all`.
pub proof fn lemma_reparented_all(es: Seq<EntityModel>, keep: spec_fn(int) -> bool, idx: Seq<int>)
    ensures
        reparented_all(es, keep, idx).len() == idx.len(),
        forall|a: int|
            0 <= a < idx.len() ==> #[trigger] reparented_all(es, keep, idx)[a] == reparent(
                es,
                keep,
                idx[a],
            ),
{
}

/// The store's entities after keeping exactly the indices `keep` accepts,
/// in order, with dangling parent links dropped.
pub open spec fn filter_keep(es: Seq<EntityModel>, keep: spec_fn(int) -> bool) -> Seq<EntityModel> {
    reparented_all(es, keep, picked_indices(es.len() as int, keep, 0))
}

/// Filtering a well-formed store's entities keeps it well formed, whatever
/// indices are kept.
pub proof fn lemma_filter_keep_wf(m: StoreModel, keep: spec_fn(int) -> bool)
    requires
        store_wf(m),
    ensures
        store_wf(StoreModel { next_id: m.next_id, entities: filter_keep(m.entities, keep) }),
{
    let es = m.entities;
    let n = es.len() as int;
    let k = picked_indices(n, keep, 0);
    let r = filter_keep(es, keep);
    lemma_picked_indices(n, keep, 0);
    lemma_reparented_all(es, keep, k);
    assert forall|a: int, b: int|
        0 <= a < b < r.len() implies (#[trigger] r[a].id) != (#[trigger] r[b].id) by {
        assert(r[a].id == es[k[a]].id);
        assert(r[b].id == es[k[b]].id);
        assert(k[a] < k[b]);
        assert(es[k[a]].id != es[k[b]].id);
    }
    assert forall|a: int| 0 <= a < r.len() implies (#[trigger] r[a]).id < m.next_id by {
        assert(r[a].id == es[k[a]].id);
    }
    assert forall|a: int|
        0 <= a < r.len() implies match (#[trigger] r[a]).parent {
        Some(p) => exists|b: int| 0 <= b < a && (#[trigger] r[b]).id == p,
        None => true,
    } by {
        assert(r[a] == reparent(es, keep, k[a]));
        match r[a].parent {
            Some(p) => {
                let kk = find_entity(es, p)->Some_0;
                assert(find_entity(es, p) == Some(kk) && keep(kk));
                lemma_find_entity(es, p);
                assert(es[kk].id == p);
                let j = choose|j: int| 0 <= j < k[a] && (#[trigger] es[j]).id == p;
                assert(kk <= j) by {
                    if j < kk {
                        assert(es[j].id != p);
                    }
                }
                assert(0 <= kk < k[a]);
                assert(k.contains(kk));
                let b = choose|b: int| 0 <= b < k.len() && k[b] == kk;
                assert(b < a) by {
                    if b > a {
                        assert(k[a] < k[b]);
                    }
                }
                assert(r[b].id == es[kk].id);
            },
            None => {},
        }
    }
    assert forall|a: int| 0 <= a < r.len() implies entity_wf(#[trigger] r[a]) by {
        assert(r[a] == reparent(es, keep, k[a]));
        assert(entity_wf(es[k[a]]));
    }
}

/// Whether the entity at index `i` carries the base mark itself or stands
/// below one that does, following parent links.
pub open spec fn inherits(es: Seq<EntityModel>, base: spec_fn(EntityModel) -> bool, i: int) -> bool
    decreases i,
{
    if 0 <= i < es.len() {
        base(es[i]) || (match es[i].parent {
            Some(p) => match find_entity(es, p) {
                Some(k) => 0 <= k < i && inherits(es, base, k),
                None => false,
            },
            None => false,
        })
    } else {
        false
    }
}

/// The base mark for despawning: being the despawned entity itself.
pub open spec fn id_base(target: u64) -> spec_fn(EntityModel) -> bool {
    |e: EntityModel| e.id == target
}

/// The base mark for editor ownership: carrying a record whose type key is
/// one of the editor marker keys. Ownership is inherited from any marked
/// ancestor, whichever marker it carries.
pub open spec fn marker_base(markers: Seq<u64>) -> spec_fn(EntityModel) -> bool {
    |e: EntityModel|
        exists|r: int|
            0 <= r < e.records.len() && markers.contains((#[trigger] e.records[r]).type_key)
}

/// The keep decision of a despawn: everything except the entity and its
/// descendants.
pub open spec fn despawn_keep(es: Seq<EntityModel>, target: u64) -> spec_fn(int) -> bool {
    |i: int| !inherits(es, id_base(target), i)
}

/// The keep decision of a scene clear: only editor-owned entities stay.
pub open spec fn owned_keep(es: Seq<EntityModel>, markers: Seq<u64>) -> spec_fn(int) -> bool {
    |i: int| inherits(es, marker_base(markers), i)
}

/// The store after despawning an entity together with its descendants.
pub open spec fn spec_despawn(m: StoreModel, target: u64) -> StoreModel {
    StoreModel {
        next_id: m.next_id,
        entities: filter_keep(m.entities, despawn_keep(m.entities, target)),
    }
}

/// The store after despawning everything that is not editor-owned.
pub open spec fn spec_clear_non_editor(m: StoreModel, markers: Seq<u64>) -> StoreModel {
    StoreModel {
        next_id: m.next_id,
        entities: filter_keep(m.entities, owned_keep(m.entities, markers)),
    }
}

impl Store {
    /// Keep exactly the entities whose index the flags accept, dropping
    /// parent links into removed entities.
    fn retain_by_flags(&mut self, flags: &Vec<bool>, Ghost(keep): Ghost<spec_fn(int) -> bool>)
        requires
            store_wf(old(self)@),
            flags@.len() == old(self)@.entities.len(),
            forall|i: int| 0 <= i < flags@.len() ==> flags@[i] == keep(i),
        ensures
            final(self)@.next_id == old(self)@.next_id,
            final(self)@.entities == filter_keep(old(self)@.entities, keep),
            store_wf(final(self)@),
    {
        broadcast use crate::model::lemma_views_of;

        let ghost m = self@;
        let ghost es = m.entities;
        let n = self.entities.len();
        let ghost n_int = es.len() as int;
        let mut kept: Vec<EntityData> = Vec::new();
        let mut i: usize = 0;
        proof {
            lemma_picked_indices(n_int, keep, 0);
        }
        while i < n
            invariant
                0 <= i <= n,
                n == self.entities.len(),
                m == self@,
                es == m.entities,
                n_int == es.len() as int,
                store_wf(m),
                flags@.len() == n,
                forall|j: int| 0 <= j < flags@.len() ==> flags@[j] == keep(j),
                reparented_all(es, keep, picked_indices(n_int, keep, 0)) =~= crate::model::views_of(
                    kept@,
                ) + reparented_all(es, keep, picked_indices(n_int, keep, i as int)),
            decreases n - i,
        {
            proof {
                broadcast use crate::model::lemma_views_of;

            }
            if flags[i] {
                let newparent = match self.entities[i].parent {
                    Some(p) => {
                        proof {
                            lemma_find_entity(es, p);
                        }
                        match self.index_of(p) {
                            Some(kk) => {
                                proof {
                                    assert(es[i as int].parent == Some(p));
                                    let j = choose|j: int|
                                        0 <= j < i && (#[trigger] es[j]).id == p;
                                    assert(kk <= j) by {
                                        if j < kk as int {
                                            assert(es[j].id != p);
                                        }
                                    }
                                }
                                if flags[kk] {
                                    Some(p)
                                } else {
                                    None
                                }
                            },
                            None => None,
                        }
                    },
                    None => None,
                };
                let d = self.entities[i].duplicate_with_parent(newparent);
                let ghost gd = d@;
                proof {
                    assert(gd == reparent(es, keep, i as int));
                }
                let ghost kept_before = kept@;
                kept.push(d);
                proof {
                    crate::model::lemma_views_of_push(kept_before, kept@[kept@.len() - 1]);
                    let p_i = picked_indices(n_int, keep, i as int);
                    let p_i1 = picked_indices(n_int, keep, i + 1);
                    assert(p_i == seq![i as int] + p_i1);
                    lemma_reparented_all(es, keep, p_i);
                    lemma_reparented_all(es, keep, p_i1);
                    assert(reparented_all(es, keep, p_i) =~= seq![gd] + reparented_all(
                        es,
                        keep,
                        p_i1,
                    )) by {
                        assert(reparented_all(es, keep, p_i)[0] == reparent(es, keep, i as int));
                        assert(forall|a: int|
                            1 <= a < p_i.len() ==> #[trigger] p_i[a] == p_i1[a - 1]);
                    }
                    assert(reparented_all(es, keep, picked_indices(n_int, keep, 0))
                        =~= crate::model::views_of(kept@) + reparented_all(es, keep, p_i1));
                }
            } else {
                proof {
                    assert(picked_indices(n_int, keep, i as int) == picked_indices(
                        n_int,
                        keep,
                        i + 1,
                    ));
                }
            }
            i = i + 1;
        }
        proof {
            assert(picked_indices(n_int, keep, n_int) == Seq::<int>::empty());
            lemma_reparented_all(es, keep, Seq::<int>::empty());
            assert(reparented_all(es, keep, Seq::<int>::empty()) =~= Seq::<EntityModel>::empty());
            assert(reparented_all(es, keep, picked_indices(n_int, keep, 0))
                =~= crate::model::views_of(kept@));
        }
        self.entities = kept;
        proof {
            lemma_filter_keep_wf(m, keep);
        }
    }

    /// The editor-ownership flag of every entity: marked itself, or below a
    /// marked one.
    pub fn editor_owned_flags(&self, markers: &Vec<u64>) -> (flags: Vec<bool>)
        requires
            store_wf(self@),
        ensures
            flags@.len() == self@.entities.len(),
            forall|i: int|
                0 <= i < flags@.len() ==> flags@[i] == inherits(
                    self@.entities,
                    marker_base(markers@),
                    i,
                ),
    {
        broadcast use crate::model::lemma_views_of;

        let ghost es = self@.entities;
        let ghost base = marker_base(markers@);
        let n = self.entities.len();
        let mut flags: Vec<bool> = Vec::new();
        let mut i: usize = 0;
        while i < n
            invariant
                0 <= i <= n,
                n == self.entities.len(),
                es == self@.entities,
                base == marker_base(markers@),
                store_wf(self@),
                flags@.len() == i,
                forall|j: int| 0 <= j < i ==> flags@[j] == inherits(es, base, j),
            decreases n - i,
        {
            proof {
                broadcast use crate::model::lemma_views_of;

            }
            let mut marked = false;
            let rn = self.entities[i].records.len();
            let mut r: usize = 0;
            while r < rn
                invariant
                    0 <= r <= rn,
                    i < self.entities.len(),
                    es == self@.entities,
                    rn == es[i as int].records.len(),
                    marked == exists|a: int|
                        0 <= a < r && markers@.contains((#[trigger] es[i as int].records[a]).type_key),
                decreases rn - r,
            {
                proof {
                    broadcast use crate::model::lemma_views_of;

                }
                if contains_u64(markers, self.entities[i].records[r].type_key) {
                    marked = true;
                }
                r = r + 1;
            }
            proof {
                assert(marked == base(es[i as int]));
            }
            let flag = if marked {
                true
            } else {
                match self.entities[i].parent {
                    Some(p) => {
                        proof {
                            lemma_find_entity(es, p);
                        }
                        match self.index_of(p) {
                            Some(kk) => {
                                proof {
                                    assert(es[i as int].parent == Some(p));
                                    let j = choose|j: int|
                                        0 <= j < i && (#[trigger] es[j]).id == p;
                                    assert(kk <= j) by {
                                        if j < kk as int {
                                            assert(es[j].id != p);
                                        }
                                    }
                                }
                                flags[kk]
                            },
                            None => false,
                        }
                    },
                    None => false,
                }
            };
            flags.push(flag);
            i = i + 1;
        }
        flags
    }

    /// Despawn the entity with handle `target`, together with every entity
    /// whose ancestor chain reaches it.
    pub fn despawn(&mut self, target: u64)
        requires
            store_wf(old(self)@),
        ensures
            final(self)@ == spec_despawn(old(self)@, target),
            store_wf(final(self)@),
    {
        broadcast use crate::model::lemma_views_of;

        let ghost es = self@.entities;
        let ghost base = id_base(target);
        let n = self.entities.len();
        let mut keepflags: Vec<bool> = Vec::new();
        let mut i: usize = 0;
        while i < n
            invariant
                0 <= i <= n,
                n == self.entities.len(),
                es == self@.entities,
                base == id_base(target),
                store_wf(self@),
                self@ == old(self)@,
                keepflags@.len() == i,
                forall|j: int| 0 <= j < i ==> keepflags@[j] == !inherits(es, base, j),
            decreases n - i,
        {
            proof {
                broadcast use crate::model::lemma_views_of;

            }
            let dead = if self.entities[i].id == target {
                true
            } else {
                match self.entities[i].parent {
                    Some(p) => {
                        proof {
                            lemma_find_entity(es, p);
                        }
                        match self.index_of(p) {
                            Some(kk) => {
                                proof {
                                    assert(es[i as int].parent == Some(p));
                                    let j = choose|j: int|
                                        0 <= j < i && (#[trigger] es[j]).id == p;
                                    assert(kk <= j) by {
                                        if j < kk as int {
                                            assert(es[j].id != p);
                                        }
                                    }
                                }
                                !keepflags[kk]
                            },
                            None => false,
                        }
                    },
                    None => false,
                }
            };
            proof {
                assert(base(es[i as int]) == (es[i as int].id == target));
            }
            keepflags.push(!dead);
            i = i + 1;
        }
        self.retain_by_flags(&keepflags, Ghost(despawn_keep(es, target)));
    }

    /// Despawn every entity that is not editor-owned: a full replace of the
    /// scene content, leaving only the editor's own entities.
    pub fn clear_non_editor(&mut self, markers: &Vec<u64>)
        requires
            store_wf(old(self)@),
        ensures
            final(self)@ == spec_clear_non_editor(old(self)@, markers@),
            store_wf(final(self)@),
    {
        let flags = self.editor_owned_flags(markers);
        self.retain_by_flags(&flags, Ghost(owned_keep(self@.entities, markers@)));
    }
}

/// Replacing one entity with one of the same handle does not change where
/// any handle is found.
pub proof fn lemma_find_entity_update_same_id(es: Seq<EntityModel>, i: int, e: EntityModel, id: u64)
    requires
        0 <= i < es.len(),
        e.id == es[i].id,
    ensures
        find_entity(es.update(i, e), id) == find_entity(es, id),
    decreases es.len(),
{
    let u = es.update(i, e);
    if i == 0 {
        assert(u[0].id == es[0].id);
        if es[0].id != id {
            assert(u.drop_first() =~= es.drop_first());
        }
    } else {
        assert(u[0] == es[0]);
        if es[0].id != id {
            assert(u.drop_first() =~= es.drop_first().update(i - 1, e));
            lemma_find_entity_update_same_id(es.drop_first(), i - 1, e, id);
        }
    }
}

/// Replacing one record with one of the same type key does not change where
/// any key is found.
pub proof fn lemma_find_record_update_same_key(
    rs: Seq<RecordModel>,
    j: int,
    r: RecordModel,
    key: u64,
)
    requires
        0 <= j < rs.len(),
        r.type_key == rs[j].type_key,
    ensures
        find_record(rs.update(j, r), key) == find_record(rs, key),
    decreases rs.len(),
{
    let u = rs.update(j, r);
    if j == 0 {
        assert(u[0].type_key == rs[0].type_key);
        if rs[0].type_key != key {
            assert(u.drop_first() =~= rs.drop_first());
        }
    } else {
        assert(u[0] == rs[0]);
        if rs[0].type_key != key {
            assert(u.drop_first() =~= rs.drop_first().update(j - 1, r));
            lemma_find_record_update_same_key(rs.drop_first(), j - 1, r, key);
        }
    }
}

/// The type keys of a record list, in attachment order.
pub open spec fn record_keys(rs: Seq<RecordModel>) -> Seq<u64> {
    rs.map_values(|r: RecordModel| r.type_key)
}

impl Store {
    /// How many entities are live.
    pub fn entity_count(&self) -> (n: usize)
        ensures
            n == self@.entities.len(),
    {
        proof {
            broadcast use crate::model::lemma_views_of;

        }
        self.entities.len()
    }

    /// The entity at one position.
    pub fn entity_at(&self, i: usize) -> (e: &EntityData)
        requires
            i < self@.entities.len(),
        ensures
            e@ == self@.entities[i as int],
    {
        proof {
            broadcast use crate::model::lemma_views_of;

        }
        &self.entities[i]
    }

    /// The attached record type keys of the entity at one position, in
    /// attachment order.
    pub fn type_keys_at(&self, i: usize) -> (r: Vec<u64>)
        requires
            i < self@.entities.len(),
        ensures
            r@ == record_keys(self@.entities[i as int].records),
    {
        broadcast use crate::model::lemma_views_of;

        let ghost rs = self@.entities[i as int].records;
        let mut r: Vec<u64> = Vec::new();
        let n = self.entities[i].records.len();
        let mut j: usize = 0;
        while j < n
            invariant
                0 <= j <= n,
                i < self.entities.len(),
                rs == self@.entities[i as int].records,
                n == rs.len(),
                r@ =~= record_keys(rs).subrange(0, j as int),
            decreases n - j,
        {
            proof {
                broadcast use crate::model::lemma_views_of;

            }
            r.push(self.entities[i].records[j].type_key);
            assert(r@ =~= record_keys(rs).subrange(0, j + 1));
            j = j + 1;
        }
        assert(record_keys(rs).subrange(0, n as int) =~= record_keys(rs));
        r
    }
}

impl Store {
    /// The handles of the root entities (those without a parent), in store
    /// order: what the hierarchy panel lists.
    pub fn root_entity_ids(&self) -> (r: Vec<u64>)
        ensures
            r@ == crate::store::picked_indices(
                self@.entities.len() as int,
                root_pick(self@.entities),
                0,
            ).map_values(|i: int| self@.entities[i].id),
    {
        broadcast use crate::model::lemma_views_of;

        let ghost es = self@.entities;
        let ghost pick = root_pick(es);
        let ghost n_int = es.len() as int;
        let ghost target = picked_indices(n_int, pick, 0).map_values(|i: int| es[i].id);
        let mut r: Vec<u64> = Vec::new();
        let n = self.entities.len();
        let mut i: usize = 0;
        while i < n
            invariant
                0 <= i <= n,
                n == self.entities.len(),
                es == self@.entities,
                pick == root_pick(es),
                n_int == es.len() as int,
                target == picked_indices(n_int, pick, 0).map_values(|i: int| es[i].id),
                target =~= r@ + picked_indices(n_int, pick, i as int).map_values(
                    |i: int| es[i].id,
                ),
            decreases n - i,
        {
            proof {
                broadcast use crate::model::lemma_views_of;

            }
            let ghost p_i = picked_indices(n_int, pick, i as int);
            let ghost p_i1 = picked_indices(n_int, pick, i + 1);
            if self.entities[i].parent.is_none() {
                r.push(self.entities[i].id);
                proof {
                    assert(p_i == seq![i as int] + p_i1);
                    assert(forall|a: int| 1 <= a < p_i.len() ==> #[trigger] p_i[a] == p_i1[a - 1]);
                    assert(p_i.map_values(|i: int| es[i].id) =~= seq![es[i as int].id]
                        + p_i1.map_values(|i: int| es[i].id));
                    assert(target =~= r@ + p_i1.map_values(|i: int| es[i].id));
                }
            } else {
                proof {
                    assert(p_i == p_i1);
                }
            }
            i = i + 1;
        }
        proof {
            assert(picked_indices(n_int, pick, n_int).map_values(|i: int| es[i].id)
                =~= Seq::<u64>::empty());
            assert(r@ =~= target);
        }
        r
    }
}

/// A root entity: one without a parent link.
pub open spec fn root_pick(es: Seq<EntityModel>) -> spec_fn(int) -> bool {
    |i: int| es[i].parent is None
}

} // verus!
