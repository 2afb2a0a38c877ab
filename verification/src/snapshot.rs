//! Snapshot extraction and application. A snapshot is the filtered part of
//! the store: every entity that is not editor-owned, with every record
//! whose type the catalog resolves and whose name no denylist entry
//! matches, tagged by full type name. Applying a snapshot resolves each
//! name back through the catalog and spawns the entities.

use vstd::prelude::*;

use crate::catalog::{catalog_wf, first_picked, name_pick, Catalog, DescriptorModel};
use crate::model::views_of;
use crate::record::{record_wf, Field, FieldModel, Record, RecordModel};
use crate::store::{
    entity_wf, find_entity, inherits, marker_base, record_keys, spec_spawn, store_wf, EntityModel,
    Store, StoreModel,
};
use crate::text::{contains_chars, contains_seq, str_to_chars};

verus! {

/// One serialized record: the full name of its type and its fields.
#[derive(Debug)]
pub struct SnapComponent {
    pub full_name: String,
    pub fields: Vec<Field>,
}

/// The model of a serialized record.
pub struct SnapComponentModel {
    pub full_name: Seq<char>,
    pub fields: Seq<FieldModel>,
}

impl View for SnapComponent {
    type V = SnapComponentModel;

    open spec fn view(&self) -> SnapComponentModel {
        SnapComponentModel { full_name: self.full_name@, fields: views_of(self.fields@) }
    }
}

/// One serialized entity: a placeholder handle and its records.
#[derive(Debug)]
pub struct SnapEntity {
    pub id: u64,
    pub components: Vec<SnapComponent>,
}

/// The model of a serialized entity.
pub struct SnapEntityModel {
    pub id: u64,
    pub components: Seq<SnapComponentModel>,
}

impl View for SnapEntity {
    type V = SnapEntityModel;

    open spec fn view(&self) -> SnapEntityModel {
        SnapEntityModel { id: self.id, components: views_of(self.components@) }
    }
}

/// A whole scene snapshot.
#[derive(Debug)]
pub struct SceneSnapshot {
    pub entities: Vec<SnapEntity>,
}

impl View for SceneSnapshot {
    type V = Seq<SnapEntityModel>;

    open spec fn view(&self) -> Seq<SnapEntityModel> {
        views_of(self.entities@)
    }
}

/// A type name one of the denylist entries matches: such a record is
/// regenerated by the runtime and never persisted.
pub open spec fn denied(name: Seq<char>, deny: Seq<Seq<char>>) -> bool {
    exists|k: int| 0 <= k < deny.len() && contains_seq(name, #[trigger] deny[k])
}

/// Whether a name is denied, decided entry by entry.
fn is_denied(name: &str, deny: &Vec<String>) -> (r: bool)
    ensures
        r == denied(name@, views_of(deny@)),
{
    broadcast use crate::model::lemma_views_of;

    let ghost dm = views_of(deny@);
    let name_chars = str_to_chars(name);
    let n = deny.len();
    let mut k: usize = 0;
    while k < n
        invariant
            0 <= k <= n,
            n == deny.len(),
            name_chars@ == name@,
            dm == views_of(deny@),
            dm.len() == n,
            forall|j: int| 0 <= j < k ==> !contains_seq(name@, #[trigger] dm[j]),
        decreases n - k,
    {
        proof {
            broadcast use crate::model::lemma_views_of;

            assert(dm[k as int] == deny@[k as int]@);
        }
        let entry = str_to_chars(deny[k].as_str());
        if contains_chars(name_chars.as_slice(), entry.as_slice()) {
            return true;
        }
        k = k + 1;
    }
    false
}

/// The serialized form of one entity's records: each record whose type the
/// catalog resolves becomes a component tagged with the type's full name,
/// denylisted names are dropped, and an unresolvable type fails the whole
/// extraction.
pub open spec fn spec_extract_components(
    rs: Seq<RecordModel>,
    cm: Seq<DescriptorModel>,
    deny: Seq<Seq<char>>,
) -> Option<Seq<SnapComponentModel>>
    decreases rs.len(),
{
    if rs.len() == 0 {
        Some(Seq::empty())
    } else {
        match crate::commands::spec_resolve(cm, rs[0].type_key) {
            None => None,
            Some(d) => match spec_extract_components(rs.drop_first(), cm, deny) {
                None => None,
                Some(t) => if denied(d.full_name, deny) {
                    Some(t)
                } else {
                    Some(
                        seq![SnapComponentModel { full_name: d.full_name, fields: rs[0].fields }]
                            + t,
                    )
                },
            },
        }
    }
}

/// An entity is eligible for the snapshot when it is not editor-owned.
pub open spec fn eligible_pick(es: Seq<EntityModel>, markers: Seq<u64>) -> spec_fn(int) -> bool {
    |i: int| !inherits(es, marker_base(markers), i)
}

/// The serialized form of the store from index `i` on: every eligible
/// entity, in order, with its serialized records; any eligible entity with
/// an unresolvable record type fails the whole extraction.
pub open spec fn spec_extract_entities(
    es: Seq<EntityModel>,
    cm: Seq<DescriptorModel>,
    markers: Seq<u64>,
    deny: Seq<Seq<char>>,
    i: int,
) -> Option<Seq<SnapEntityModel>>
    decreases es.len() - i,
{
    if i < 0 || i >= es.len() {
        Some(Seq::empty())
    } else {
        let rest = spec_extract_entities(es, cm, markers, deny, i + 1);
        if !eligible_pick(es, markers)(i) {
            rest
        } else {
            match spec_extract_components(es[i].records, cm, deny) {
                None => None,
                Some(comps) => match rest {
                    None => None,
                    Some(t) => Some(
                        seq![SnapEntityModel { id: es[i].id, components: comps }] + t,
                    ),
                },
            }
        }
    }
}


/// A failing suffix fails the whole component extraction.
proof fn lemma_extract_components_none(
    rs: Seq<RecordModel>,
    cm: Seq<DescriptorModel>,
    deny: Seq<Seq<char>>,
    i: int,
)
    requires
        0 <= i <= rs.len(),
        spec_extract_components(rs.subrange(i, rs.len() as int), cm, deny) is None,
    ensures
        spec_extract_components(rs, cm, deny) is None,
    decreases i,
{
    if i > 0 {
        let cur = rs.subrange(i - 1, rs.len() as int);
        assert(cur[0] == rs[i - 1]);
        assert(cur.drop_first() =~= rs.subrange(i, rs.len() as int));
        lemma_extract_components_none(rs, cm, deny, i - 1);
    } else {
        assert(rs.subrange(0, rs.len() as int) =~= rs);
    }
}

/// A failing suffix fails the whole entity extraction.
proof fn lemma_extract_entities_none(
    es: Seq<EntityModel>,
    cm: Seq<DescriptorModel>,
    markers: Seq<u64>,
    deny: Seq<Seq<char>>,
    i: int,
)
    requires
        0 <= i <= es.len(),
        spec_extract_entities(es, cm, markers, deny, i) is None,
    ensures
        spec_extract_entities(es, cm, markers, deny, 0) is None,
    decreases i,
{
    if i > 0 {
        assert(spec_extract_entities(es, cm, markers, deny, i - 1) is None);
        lemma_extract_entities_none(es, cm, markers, deny, i - 1);
    }
}

/// Serialize one entity's records.
fn extract_components(ent: &crate::store::EntityData, catalog: &Catalog, deny: &Vec<String>) -> (r:
    Option<Vec<SnapComponent>>)
    ensures
        ({
            let dm = views_of(deny@);
            match r {
                Some(comps) => spec_extract_components(ent@.records, catalog@, dm) == Some(
                    views_of(comps@),
                ),
                None => spec_extract_components(ent@.records, catalog@, dm) is None,
            }
        }),
{
    broadcast use crate::model::lemma_views_of;

    let ghost rs = ent@.records;
    let ghost cm = catalog@;
    let ghost dm = views_of(deny@);
    let mut out: Vec<SnapComponent> = Vec::new();
    let n = ent.records.len();
    let mut i: usize = n;
    // Walk backwards so the recursive suffix spec unfolds one step per turn.
    while i > 0
        invariant
            0 <= i <= n,
            n == ent.records.len(),
            rs == ent@.records,
            cm == catalog@,
            dm == views_of(deny@),
            spec_extract_components(rs.subrange(i as int, n as int), cm, dm) == Some(
                views_of(out@),
            ),
        decreases i,
    {
        proof {
            broadcast use crate::model::lemma_views_of;

        }
        i = i - 1;
        let ghost suffix = rs.subrange(i as int, n as int);
        proof {
            assert(suffix[0] == rs[i as int]);
            assert(suffix.drop_first() =~= rs.subrange(i + 1, n as int));
        }
        let rec = &ent.records[i];
        match catalog.resolve_key(rec.type_key) {
            Some(d) => {
                proof {
                    assert(crate::commands::spec_resolve(cm, rec.type_key) == Some(d@));
                }
                if is_denied(d.full_name.as_str(), deny) {
                } else {
                    let comp = SnapComponent {
                        full_name: d.full_name.clone(),
                        fields: crate::commands::duplicate_fields(&rec.fields),
                    };
                    let ghost gcomp = comp@;
                    let ghost old_out = out@;
                    out.insert(0, comp);
                    proof {
                        assert(out@ =~= seq![out@[0]] + old_out);
                        crate::model::lemma_views_of(out@);
                        crate::model::lemma_views_of(old_out);
                        assert(views_of(out@) =~= seq![gcomp] + views_of(old_out));
                    }
                }
            },
            None => {
                proof {
                    assert(crate::commands::spec_resolve(cm, rec.type_key) is None);
                    assert(spec_extract_components(suffix, cm, dm) is None);
                    lemma_extract_components_none(rs, cm, dm, i as int);
                }
                return None;
            },
        }
    }
    proof {
        assert(rs.subrange(0, n as int) =~= rs);
    }
    Some(out)
}

/// Serialize the eligible part of the store: all entities minus editor-owned
/// ones (an editor marker on the entity itself or on an ancestor), each
/// record minus denylisted types. Fails when an eligible record's type is
/// not in the catalog.
pub fn extract_snapshot(
    store: &Store,
    catalog: &Catalog,
    markers: &Vec<u64>,
    deny: &Vec<String>,
) -> (r: Option<SceneSnapshot>)
    requires
        store_wf(store@),
    ensures
        ({
            let dm = views_of(deny@);
            match r {
                Some(snap) => spec_extract_entities(store@.entities, catalog@, markers@, dm, 0)
                    == Some(snap@),
                None => spec_extract_entities(store@.entities, catalog@, markers@, dm, 0) is None,
            }
        }),
{
    broadcast use crate::model::lemma_views_of;

    let ghost es = store@.entities;
    let ghost cm = catalog@;
    let ghost dm = views_of(deny@);
    let owned = store.editor_owned_flags(markers);
    let mut out: Vec<SnapEntity> = Vec::new();
    let n = store.entity_count();
    let mut i: usize = n;
    while i > 0
        invariant
            0 <= i <= n,
            n == store@.entities.len(),
            es == store@.entities,
            cm == catalog@,
            store_wf(store@),
            dm == views_of(deny@),
            owned@.len() == n,
            forall|j: int|
                0 <= j < n ==> owned@[j] == inherits(es, marker_base(markers@), j),
            spec_extract_entities(es, cm, markers@, dm, i as int) == Some(views_of(out@)),
        decreases i,
    {
        proof {
            broadcast use crate::model::lemma_views_of;

        }
        i = i - 1;
        if owned[i] {
            proof {
                assert(!eligible_pick(es, markers@)(i as int));
            }
        } else {
            proof {
                assert(eligible_pick(es, markers@)(i as int));
            }
            match extract_components(store.entity_at(i), catalog, deny) {
                Some(comps) => {
                    let ent = SnapEntity { id: store.entity_at(i).id, components: comps };
                    let ghost gent = ent@;
                    let ghost old_out = out@;
                    out.insert(0, ent);
                    proof {
                        assert(out@ =~= seq![out@[0]] + old_out);
                        crate::model::lemma_views_of(out@);
                        crate::model::lemma_views_of(old_out);
                        assert(views_of(out@) =~= seq![gent] + views_of(old_out));
                    }
                },
                None => {
                    proof {
                        assert(spec_extract_entities(es, cm, markers@, dm, i as int) is None);
                        lemma_extract_entities_none(es, cm, markers@, dm, i as int);
                    }
                    return None;
                },
            }
        }
    }
    Some(SceneSnapshot { entities: out })
}

/// The records to spawn for one entity.
#[derive(Debug)]
pub struct RecordBundle {
    pub records: Vec<Record>,
}

impl View for RecordBundle {
    type V = Seq<RecordModel>;

    open spec fn view(&self) -> Seq<RecordModel> {
        views_of(self.records@)
    }
}

/// Deserializing one entity's components: each full name resolved through
/// the catalog (the first registered wins) gives back a record of that
/// type's key; an unresolvable name fails the whole conversion.
pub open spec fn spec_convert_components(
    comps: Seq<SnapComponentModel>,
    cm: Seq<DescriptorModel>,
) -> Option<Seq<RecordModel>>
    decreases comps.len(),
{
    if comps.len() == 0 {
        Some(Seq::empty())
    } else {
        match first_picked(cm.len() as int, name_pick(cm, comps[0].full_name), 0) {
            None => None,
            Some(k) => match spec_convert_components(comps.drop_first(), cm) {
                None => None,
                Some(t) => Some(
                    seq![RecordModel { type_key: cm[k].key, fields: comps[0].fields }] + t,
                ),
            },
        }
    }
}

/// Deserializing a whole snapshot: every entity's components converted; any
/// unresolvable name fails the conversion.
pub open spec fn spec_convert_snapshot(
    snap: Seq<SnapEntityModel>,
    cm: Seq<DescriptorModel>,
) -> Option<Seq<Seq<RecordModel>>>
    decreases snap.len(),
{
    if snap.len() == 0 {
        Some(Seq::empty())
    } else {
        match spec_convert_components(snap[0].components, cm) {
            None => None,
            Some(rs) => match spec_convert_snapshot(snap.drop_first(), cm) {
                None => None,
                Some(t) => Some(seq![rs] + t),
            },
        }
    }
}

/// A failing suffix fails the whole component conversion.
proof fn lemma_convert_components_none(
    comps: Seq<SnapComponentModel>,
    cm: Seq<DescriptorModel>,
    i: int,
)
    requires
        0 <= i <= comps.len(),
        spec_convert_components(comps.subrange(i, comps.len() as int), cm) is None,
    ensures
        spec_convert_components(comps, cm) is None,
    decreases i,
{
    if i > 0 {
        let cur = comps.subrange(i - 1, comps.len() as int);
        assert(cur[0] == comps[i - 1]);
        assert(cur.drop_first() =~= comps.subrange(i, comps.len() as int));
        lemma_convert_components_none(comps, cm, i - 1);
    } else {
        assert(comps.subrange(0, comps.len() as int) =~= comps);
    }
}

/// A failing suffix fails the whole snapshot conversion.
proof fn lemma_convert_snapshot_none(snap: Seq<SnapEntityModel>, cm: Seq<DescriptorModel>, i: int)
    requires
        0 <= i <= snap.len(),
        spec_convert_snapshot(snap.subrange(i, snap.len() as int), cm) is None,
    ensures
        spec_convert_snapshot(snap, cm) is None,
    decreases i,
{
    if i > 0 {
        let cur = snap.subrange(i - 1, snap.len() as int);
        assert(cur[0] == snap[i - 1]);
        assert(cur.drop_first() =~= snap.subrange(i, snap.len() as int));
        lemma_convert_snapshot_none(snap, cm, i - 1);
    } else {
        assert(snap.subrange(0, snap.len() as int) =~= snap);
    }
}

/// Deserialize one entity's components into records.
fn convert_components(ent: &SnapEntity, catalog: &Catalog) -> (r: Option<RecordBundle>)
    ensures
        match r {
            Some(b) => spec_convert_components(ent@.components, catalog@) == Some(b@),
            None => spec_convert_components(ent@.components, catalog@) is None,
        },
{
    broadcast use crate::model::lemma_views_of;

    let ghost comps = ent@.components;
    let ghost cm = catalog@;
    let mut out: Vec<Record> = Vec::new();
    let n = ent.components.len();
    let mut i: usize = n;
    while i > 0
        invariant
            0 <= i <= n,
            n == ent.components.len(),
            comps == ent@.components,
            cm == catalog@,
            spec_convert_components(comps.subrange(i as int, n as int), cm) == Some(
                views_of(out@),
            ),
        decreases i,
    {
        proof {
            broadcast use crate::model::lemma_views_of;

        }
        i = i - 1;
        let ghost suffix = comps.subrange(i as int, n as int);
        proof {
            assert(suffix[0] == comps[i as int]);
            assert(suffix.drop_first() =~= comps.subrange(i + 1, n as int));
        }
        let comp = &ent.components[i];
        match catalog.resolve(comp.full_name.as_str()) {
            Some(d) => {
                let rec = Record {
                    type_key: d.key,
                    fields: crate::commands::duplicate_fields(&comp.fields),
                };
                let ghost grec = rec@;
                let ghost old_out = out@;
                out.insert(0, rec);
                proof {
                    assert(out@ =~= seq![out@[0]] + old_out);
                    crate::model::lemma_views_of(out@);
                    crate::model::lemma_views_of(old_out);
                    assert(views_of(out@) =~= seq![grec] + views_of(old_out));
                    crate::catalog::lemma_first_picked(
                        cm.len() as int,
                        name_pick(cm, comp@.full_name),
                        0,
                    );
                }
            },
            None => {
                proof {
                    assert(spec_convert_components(suffix, cm) is None);
                    lemma_convert_components_none(comps, cm, i as int);
                }
                return None;
            },
        }
    }
    proof {
        assert(comps.subrange(0, n as int) =~= comps);
    }
    Some(RecordBundle { records: out })
}

/// Deserialize a whole snapshot into the record lists to spawn.
pub fn convert_snapshot(snap: &SceneSnapshot, catalog: &Catalog) -> (r: Option<Vec<RecordBundle>>)
    ensures
        match r {
            Some(bundles) => spec_convert_snapshot(snap@, catalog@) == Some(views_of(bundles@)),
            None => spec_convert_snapshot(snap@, catalog@) is None,
        },
{
    broadcast use crate::model::lemma_views_of;

    let ghost sm = snap@;
    let ghost cm = catalog@;
    let mut out: Vec<RecordBundle> = Vec::new();
    let n = snap.entities.len();
    let mut i: usize = n;
    while i > 0
        invariant
            0 <= i <= n,
            n == snap.entities.len(),
            sm == snap@,
            cm == catalog@,
            spec_convert_snapshot(sm.subrange(i as int, n as int), cm) == Some(views_of(out@)),
        decreases i,
    {
        proof {
            broadcast use crate::model::lemma_views_of;

        }
        i = i - 1;
        let ghost suffix = sm.subrange(i as int, n as int);
        proof {
            assert(suffix[0] == sm[i as int]);
            assert(suffix.drop_first() =~= sm.subrange(i + 1, n as int));
        }
        match convert_components(&snap.entities[i], catalog) {
            Some(b) => {
                let ghost gb = b@;
                let ghost old_out = out@;
                out.insert(0, b);
                proof {
                    assert(out@ =~= seq![out@[0]] + old_out);
                    crate::model::lemma_views_of(out@);
                    crate::model::lemma_views_of(old_out);
                    assert(views_of(out@) =~= seq![gb] + views_of(old_out));
                }
            },
            None => {
                proof {
                    assert(spec_convert_snapshot(suffix, cm) is None);
                    lemma_convert_snapshot_none(sm, cm, i as int);
                }
                return None;
            },
        }
    }
    proof {
        assert(sm.subrange(0, n as int) =~= sm);
    }
    Some(out)
}

/// The record lists of one entity are fit to spawn: distinct type keys and
/// well-formed records.
pub open spec fn records_ok(rs: Seq<RecordModel>) -> bool {
    entity_wf(EntityModel { id: 0, parent: None, records: rs })
}

/// Check that every bundle is fit to spawn.
pub fn check_bundles(bundles: &Vec<RecordBundle>) -> (r: bool)
    ensures
        r == forall|i: int| 0 <= i < bundles@.len() ==> records_ok(#[trigger] views_of(bundles@)[i]),
{
    broadcast use crate::model::lemma_views_of;

    let n = bundles.len();
    let mut i: usize = 0;
    while i < n
        invariant
            0 <= i <= n,
            n == bundles@.len(),
            forall|j: int| 0 <= j < i ==> records_ok(#[trigger] views_of(bundles@)[j]),
        decreases n - i,
    {
        proof {
            broadcast use crate::model::lemma_views_of;

        }
        let bundle = &bundles[i];
        let ghost rs = bundle@;
        let rn = bundle.records.len();
        let mut a: usize = 0;
        while a < rn
            invariant
                0 <= a <= rn,
                0 <= i < n,
                n == bundles@.len(),
                rn == bundle.records.len(),
                bundle == &bundles[i as int],
                rs == bundle@,
                forall|x: int, y: int|
                    0 <= x < y < a ==> (#[trigger] rs[x].type_key) != (#[trigger] rs[y].type_key),
                forall|x: int| 0 <= x < a ==> record_wf(#[trigger] rs[x]),
            decreases rn - a,
        {
            proof {
                broadcast use crate::model::lemma_views_of;

            }
            if !bundle.records[a].check_wf() {
                proof {
                    assert(rs[a as int] == bundle.records@[a as int]@);
                    let e = EntityModel { id: 0, parent: None, records: rs };
                    assert(!records_ok(rs)) by {
                        if entity_wf(e) {
                            assert(record_wf(e.records[a as int]));
                        }
                    }
                    assert(views_of(bundles@)[i as int] == rs);
                }
                return false;
            }
            let mut b: usize = 0;
            while b < a
                invariant
                    0 <= b <= a < rn,
                    0 <= i < n,
                    n == bundles@.len(),
                    rn == bundle.records.len(),
                    bundle == &bundles[i as int],
                    rs == bundle@,
                    forall|x: int| 0 <= x < b ==> (#[trigger] rs[x].type_key) != rs[a as int].type_key,
                decreases a - b,
            {
                proof {
                    broadcast use crate::model::lemma_views_of;

                }
                if bundle.records[b].type_key == bundle.records[a].type_key {
                    proof {
                        assert(rs[b as int].type_key == rs[a as int].type_key);
                        let e = EntityModel { id: 0, parent: None, records: rs };
                        assert(!records_ok(rs)) by {
                            if entity_wf(e) {
                                assert(e.records[b as int].type_key != e.records[a as int].type_key);
                            }
                        }
                        assert(views_of(bundles@)[i as int] == rs);
                    }
                    return false;
                }
                b = b + 1;
            }
            assert forall|x: int, y: int|
                0 <= x < y < a + 1 implies (#[trigger] rs[x].type_key) != (
            #[trigger] rs[y].type_key) by {
                if y < a {
                    assert(rs[x].type_key != rs[y].type_key);
                }
            }
            a = a + 1;
        }
        proof {
            assert(records_ok(rs));
            assert(views_of(bundles@)[i as int] == rs);
        }
        i = i + 1;
    }
    true
}

/// The store after spawning every bundle, in order, each as a parentless
/// entity with a fresh handle.
pub open spec fn spec_spawn_all(m: StoreModel, list: Seq<Seq<RecordModel>>) -> StoreModel
    decreases list.len(),
{
    if list.len() == 0 {
        m
    } else {
        spec_spawn_all(spec_spawn(m, None, list[0]), list.drop_first())
    }
}

/// Spawning appends exactly one parentless entity per bundle, in order,
/// with consecutive fresh handles, and touches nothing else.
pub proof fn lemma_spawn_all_appends(m: StoreModel, list: Seq<Seq<RecordModel>>)
    requires
        m.next_id + list.len() <= u64::MAX,
    ensures
        ({
            let r = spec_spawn_all(m, list);
            &&& r.next_id == m.next_id + list.len()
            &&& r.entities.len() == m.entities.len() + list.len()
            &&& forall|i: int| 0 <= i < m.entities.len() ==> #[trigger] r.entities[i] == m.entities[i]
            &&& forall|k: int|
                0 <= k < list.len() ==> #[trigger] r.entities[m.entities.len() + k]
                    == (EntityModel {
                    id: (m.next_id + k) as u64,
                    parent: None,
                    records: list[k],
                })
        }),
    decreases list.len(),
{
    if list.len() > 0 {
        let m1 = spec_spawn(m, None, list[0]);
        lemma_spawn_all_appends(m1, list.drop_first());
        let r = spec_spawn_all(m, list);
        assert(forall|k: int|
            0 <= k < list.len() - 1 ==> #[trigger] list.drop_first()[k] == list[k + 1]);
        assert(m1.entities.len() == m.entities.len() + 1);
        assert(m1.entities[m.entities.len() as int] == (EntityModel {
            id: m.next_id,
            parent: None,
            records: list[0],
        }));
        assert forall|k: int|
            0 <= k < list.len() implies #[trigger] r.entities[m.entities.len() + k]
                == (EntityModel {
                id: (m.next_id + k) as u64,
                parent: None,
                records: list[k],
            }) by {
            if k == 0 {
                assert(r.entities[m.entities.len() as int] == m1.entities[m.entities.len() as int]);
            } else {
                assert(r.entities[m1.entities.len() + (k - 1)] == (EntityModel {
                    id: (m1.next_id + (k - 1)) as u64,
                    parent: None,
                    records: list.drop_first()[k - 1],
                }));
            }
        }
    }
}

/// Spawn every bundle into the store, each as a parentless entity.
pub fn spawn_all(store: &mut Store, bundles: Vec<RecordBundle>)
    requires
        store_wf(old(store)@),
        old(store)@.next_id + bundles@.len() <= u64::MAX,
        forall|i: int|
            0 <= i < bundles@.len() ==> records_ok(#[trigger] views_of(bundles@)[i]),
    ensures
        final(store)@ == spec_spawn_all(old(store)@, views_of(bundles@)),
        store_wf(final(store)@),
{
    broadcast use crate::model::lemma_views_of;

    let ghost m0 = store@;
    let ghost list = views_of(bundles@);
    let n = bundles.len();
    let mut i: usize = 0;
    proof {
        assert(list.subrange(0, n as int) =~= list);
    }
    while i < n
        invariant
            0 <= i <= n,
            n == bundles@.len(),
            list == views_of(bundles@),
            store_wf(store@),
            store@.next_id == m0.next_id + i,
            m0.next_id + n <= u64::MAX,
            forall|j: int| 0 <= j < n ==> records_ok(#[trigger] views_of(bundles@)[j]),
            spec_spawn_all(m0, list) == spec_spawn_all(
                store@,
                list.subrange(i as int, n as int),
            ),
        decreases n - i,
    {
        proof {
            broadcast use crate::model::lemma_views_of;

        }
        let ghost suffix = list.subrange(i as int, n as int);
        proof {
            assert(suffix[0] == list[i as int]);
            assert(suffix.drop_first() =~= list.subrange(i + 1, n as int));
            assert(records_ok(list[i as int]));
            assert(bundles@[i as int]@ == list[i as int]);
        }
        let bundle = &bundles[i];
        let records = crate::commands::duplicate_records(&bundle.records);
        proof {
            assert(views_of(records@) == list[i as int]);
            let e0 = EntityModel { id: 0, parent: None, records: list[i as int] };
            let e1 = EntityModel {
                id: store@.next_id,
                parent: None,
                records: views_of(records@),
            };
            assert(entity_wf(e1)) by {
                assert(entity_wf(e0));
                assert(e1.records == e0.records);
                assert forall|x: int, y: int|
                    0 <= x < y < e1.records.len() implies (#[trigger] e1.records[x].type_key) != (
                #[trigger] e1.records[y].type_key) by {
                    assert(e0.records[x].type_key != e0.records[y].type_key);
                }
                assert forall|x: int| 0 <= x < e1.records.len() implies record_wf(
                    #[trigger] e1.records[x],
                ) by {
                    assert(record_wf(e0.records[x]));
                }
            }
        }
        store.spawn(None, records);
        i = i + 1;
    }
    proof {
        assert(list.subrange(n as int, n as int) =~= Seq::<Seq<RecordModel>>::empty());
    }
}

/// No two registered types share a full name; under this condition a
/// snapshot's names resolve back to exactly the types they came from. (A
/// catalog with duplicate names keeps first-registered-wins lookups; the
/// round trip is only claimed without the ambiguity.)
pub open spec fn catalog_unambiguous(cm: Seq<DescriptorModel>) -> bool {
    forall|i: int, j: int|
        0 <= i < j < cm.len() ==> (#[trigger] cm[i].full_name) != (#[trigger] cm[j].full_name)
}

/// The records of one entity that survive serialization: those whose type
/// resolves and is not denylisted.
pub open spec fn spec_kept_records(
    rs: Seq<RecordModel>,
    cm: Seq<DescriptorModel>,
    deny: Seq<Seq<char>>,
) -> Seq<RecordModel>
    decreases rs.len(),
{
    if rs.len() == 0 {
        Seq::empty()
    } else {
        let rest = spec_kept_records(rs.drop_first(), cm, deny);
        match crate::commands::spec_resolve(cm, rs[0].type_key) {
            Some(d) => if denied(d.full_name, deny) {
                rest
            } else {
                seq![rs[0]] + rest
            },
            None => rest,
        }
    }
}

/// The record lists of the eligible entities, each filtered by the
/// denylist: what a save keeps, and what a load of it spawns.
pub open spec fn spec_eligible_kept(
    es: Seq<EntityModel>,
    cm: Seq<DescriptorModel>,
    markers: Seq<u64>,
    deny: Seq<Seq<char>>,
    i: int,
) -> Seq<Seq<RecordModel>>
    decreases es.len() - i,
{
    if i < 0 || i >= es.len() {
        Seq::empty()
    } else {
        let rest = spec_eligible_kept(es, cm, markers, deny, i + 1);
        if !eligible_pick(es, markers)(i) {
            rest
        } else {
            seq![spec_kept_records(es[i].records, cm, deny)] + rest
        }
    }
}

/// Deserializing what one entity serialized to gives back exactly its
/// surviving records, when no two types share a name.
pub proof fn lemma_convert_of_extract_components(
    rs: Seq<RecordModel>,
    cm: Seq<DescriptorModel>,
    deny: Seq<Seq<char>>,
)
    requires
        catalog_unambiguous(cm),
        spec_extract_components(rs, cm, deny) is Some,
    ensures
        spec_convert_components(spec_extract_components(rs, cm, deny)->Some_0, cm) == Some(
            spec_kept_records(rs, cm, deny),
        ),
    decreases rs.len(),
{
    if rs.len() > 0 {
        lemma_convert_of_extract_components(rs.drop_first(), cm, deny);
        let d = crate::commands::spec_resolve(cm, rs[0].type_key)->Some_0;
        let comps = spec_extract_components(rs, cm, deny)->Some_0;
        let tail_comps = spec_extract_components(rs.drop_first(), cm, deny)->Some_0;
        crate::catalog::lemma_first_picked(
            cm.len() as int,
            crate::catalog::key_pick(cm, rs[0].type_key),
            0,
        );
        let k = first_picked(cm.len() as int, crate::catalog::key_pick(cm, rs[0].type_key), 0)->Some_0;
        assert(cm[k] == d);
        if denied(d.full_name, deny) {
            assert(comps == tail_comps);
        } else {
            assert(comps == seq![
                SnapComponentModel { full_name: d.full_name, fields: rs[0].fields },
            ] + tail_comps);
            assert(comps.len() > 0);
            assert(comps[0] == (SnapComponentModel {
                full_name: d.full_name,
                fields: rs[0].fields,
            }));
            assert(comps.drop_first() =~= tail_comps);
            crate::catalog::lemma_first_picked(
                cm.len() as int,
                name_pick(cm, d.full_name),
                0,
            );
            let k2 = first_picked(cm.len() as int, name_pick(cm, d.full_name), 0)->Some_0;
            assert(first_picked(cm.len() as int, name_pick(cm, d.full_name), 0) is Some) by {
                if first_picked(cm.len() as int, name_pick(cm, d.full_name), 0) is None {
                    assert(!name_pick(cm, d.full_name)(k));
                }
            }
            assert(cm[k2].full_name == d.full_name);
            assert(k2 == k) by {
                if k2 < k {
                    assert(cm[k2].full_name != cm[k].full_name);
                }
                if k2 > k {
                    assert(cm[k].full_name != cm[k2].full_name);
                    assert(name_pick(cm, d.full_name)(k));
                    assert(!name_pick(cm, d.full_name)(k));
                }
            }
            assert(cm[k2].key == rs[0].type_key);
            assert(RecordModel { type_key: cm[k2].key, fields: comps[0].fields } == rs[0]);
            assert(spec_convert_components(comps, cm) == Some(
                seq![rs[0]] + spec_kept_records(rs.drop_first(), cm, deny),
            ));
        }
    }
}

/// Deserializing a saved snapshot gives back exactly the eligible entities'
/// surviving records, in order.
pub proof fn lemma_convert_of_extract_entities(
    es: Seq<EntityModel>,
    cm: Seq<DescriptorModel>,
    markers: Seq<u64>,
    deny: Seq<Seq<char>>,
    i: int,
)
    requires
        catalog_unambiguous(cm),
        0 <= i <= es.len(),
        spec_extract_entities(es, cm, markers, deny, i) is Some,
    ensures
        spec_convert_snapshot(spec_extract_entities(es, cm, markers, deny, i)->Some_0, cm) == Some(
            spec_eligible_kept(es, cm, markers, deny, i),
        ),
    decreases es.len() - i,
{
    if i < es.len() {
        lemma_convert_of_extract_entities(es, cm, markers, deny, i + 1);
        let rest_snap = spec_extract_entities(es, cm, markers, deny, i + 1)->Some_0;
        if eligible_pick(es, markers)(i) {
            let comps = spec_extract_components(es[i].records, cm, deny)->Some_0;
            lemma_convert_of_extract_components(es[i].records, cm, deny);
            let snap = spec_extract_entities(es, cm, markers, deny, i)->Some_0;
            assert(snap == seq![SnapEntityModel { id: es[i].id, components: comps }] + rest_snap);
            assert(snap[0].components == comps);
            assert(snap.drop_first() =~= rest_snap);
        }
    }
}

} // verus!
