//! The deferred mutation command queue: UI handlers enqueue commands, and
//! once per synchronization point the queue drains in FIFO order against
//! the store. Each command is validated against the catalog (unknown types
//! and missing capabilities are skipped silently) and applied as an atomic
//! unit; one command's failure never aborts the rest. Any successful
//! mutation marks the scene dirty.

use vstd::prelude::*;

use crate::catalog::{
    catalog_wf, descriptor_wf, first_picked, key_pick, lemma_first_picked, Catalog,
    DescriptorModel,
};
use crate::model::views_of;
use crate::record::{Field, Record, RecordModel};
use crate::store::{
    find_entity, spec_change_field, spec_remove_record, spec_set_record, store_wf, EntityModel,
    Store, StoreModel,
};

verus! {

/// Where the current scene lives and whether it holds unsaved changes.
#[derive(Debug)]
pub struct SceneInfo {
    pub file_path: Option<String>,
    pub is_dirty: bool,
}

impl SceneInfo {
    /// A fresh scene: no file, nothing unsaved.
    pub fn new() -> (s: SceneInfo)
        ensures
            s.file_path is None,
            !s.is_dirty,
    {
        SceneInfo { file_path: None, is_dirty: false }
    }
}

/// One deferred mutation.
#[derive(Debug)]
pub enum Command {
    AddComponent { entity: u64, type_key: u64 },
    RemoveComponent { entity: u64, type_key: u64 },
    ChangeField { entity: u64, type_key: u64, field_name: String, text_value: String },
}

/// The model of a command.
pub enum CommandModel {
    AddComponent { entity: u64, type_key: u64 },
    RemoveComponent { entity: u64, type_key: u64 },
    ChangeField { entity: u64, type_key: u64, field_name: Seq<char>, text_value: Seq<char> },
}

impl View for Command {
    type V = CommandModel;

    open spec fn view(&self) -> CommandModel {
        match self {
            Command::AddComponent { entity, type_key } => CommandModel::AddComponent {
                entity: *entity,
                type_key: *type_key,
            },
            Command::RemoveComponent { entity, type_key } => CommandModel::RemoveComponent {
                entity: *entity,
                type_key: *type_key,
            },
            Command::ChangeField { entity, type_key, field_name, text_value } => CommandModel::ChangeField {
                entity: *entity,
                type_key: *type_key,
                field_name: field_name@,
                text_value: text_value@,
            },
        }
    }
}

/// The descriptor a command's type key resolves to, if any.
pub open spec fn spec_resolve(cm: Seq<DescriptorModel>, key: u64) -> Option<DescriptorModel> {
    match first_picked(cm.len() as int, key_pick(cm, key), 0) {
        Some(i) => Some(cm[i]),
        None => None,
    }
}

/// The store after one command, and whether it marks the scene dirty: an
/// unknown type, a missing capability, or a despawned entity skips the
/// command; otherwise an add sets a default-constructed record (replacing
/// any existing one of that type), a remove detaches the record (and still
/// counts even when none was attached), and a field edit counts only when a
/// write occurred.
pub open spec fn spec_apply_command(m: StoreModel, cm: Seq<DescriptorModel>, c: CommandModel) -> (
    StoreModel,
    bool,
) {
    match c {
        CommandModel::AddComponent { entity, type_key } => match spec_resolve(cm, type_key) {
            Some(d) => if d.attachable && d.default_constructible {
                spec_set_record(
                    m,
                    entity,
                    RecordModel { type_key, fields: d.default_fields },
                )
            } else {
                (m, false)
            },
            None => (m, false),
        },
        CommandModel::RemoveComponent { entity, type_key } => match spec_resolve(cm, type_key) {
            Some(d) => if d.attachable {
                (
                    spec_remove_record(m, entity, type_key).0,
                    find_entity(m.entities, entity) is Some,
                )
            } else {
                (m, false)
            },
            None => (m, false),
        },
        CommandModel::ChangeField { entity, type_key, field_name, text_value } => match spec_resolve(
            cm,
            type_key,
        ) {
            Some(d) => if d.reflectable {
                spec_change_field(m, entity, type_key, field_name, text_value)
            } else {
                (m, false)
            },
            None => (m, false),
        },
    }
}

/// The store after a whole command list, in order, and whether any command
/// counted as a scene change.
pub open spec fn spec_apply_all(
    m: StoreModel,
    cm: Seq<DescriptorModel>,
    cs: Seq<CommandModel>,
) -> (StoreModel, bool)
    decreases cs.len(),
{
    if cs.len() == 0 {
        (m, false)
    } else {
        let first = spec_apply_command(m, cm, cs[0]);
        let rest = spec_apply_all(first.0, cm, cs.drop_first());
        (rest.0, first.1 || rest.1)
    }
}

/// An equal field list, by deep copy.
pub fn duplicate_fields(fields: &Vec<Field>) -> (r: Vec<Field>)
    ensures
        views_of(r@) == views_of(fields@),
{
    broadcast use crate::model::lemma_views_of;

    let mut r: Vec<Field> = Vec::new();
    let n = fields.len();
    let mut i: usize = 0;
    while i < n
        invariant
            0 <= i <= n,
            n == fields.len(),
            views_of(r@) =~= views_of(fields@).subrange(0, i as int),
        decreases n - i,
    {
        proof {
            broadcast use crate::model::lemma_views_of;

        }
        let ghost old_r = r@;
        let f = fields[i].duplicate();
        let ghost gf = f;
        r.push(f);
        proof {
            crate::model::lemma_views_of_push(old_r, gf);
            assert(views_of(r@) =~= views_of(fields@).subrange(0, i + 1));
        }
        i = i + 1;
    }
    proof {
        broadcast use crate::model::lemma_views_of;

        assert(views_of(fields@).subrange(0, n as int) =~= views_of(fields@));
    }
    r
}

/// An equal record list, by deep copy.
pub fn duplicate_records(records: &Vec<Record>) -> (r: Vec<Record>)
    ensures
        views_of(r@) == views_of(records@),
{
    broadcast use crate::model::lemma_views_of;

    let mut r: Vec<Record> = Vec::new();
    let n = records.len();
    let mut i: usize = 0;
    while i < n
        invariant
            0 <= i <= n,
            n == records.len(),
            views_of(r@) =~= views_of(records@).subrange(0, i as int),
        decreases n - i,
    {
        proof {
            broadcast use crate::model::lemma_views_of;

        }
        let ghost old_r = r@;
        let rec = records[i].duplicate();
        let ghost grec = rec;
        r.push(rec);
        proof {
            crate::model::lemma_views_of_push(old_r, grec);
            assert(views_of(r@) =~= views_of(records@).subrange(0, i + 1));
        }
        i = i + 1;
    }
    proof {
        broadcast use crate::model::lemma_views_of;

        assert(views_of(records@).subrange(0, n as int) =~= views_of(records@));
    }
    r
}

/// Apply one command against the store: resolve the type, check the
/// capability the action needs, and perform the mutation. The result says
/// whether the command counts as a scene change.
pub fn apply_command(store: &mut Store, catalog: &Catalog, c: &Command) -> (applied: bool)
    requires
        store_wf(old(store)@),
        catalog_wf(catalog@),
    ensures
        final(store)@ == spec_apply_command(old(store)@, catalog@, c@).0,
        applied == spec_apply_command(old(store)@, catalog@, c@).1,
        store_wf(final(store)@),
{
    match c {
        Command::AddComponent { entity, type_key } => {
            match catalog.resolve_key(*type_key) {
                Some(d) => {
                    if d.attachable && d.default_constructible {
                        proof {
                            lemma_first_picked(
                                catalog@.len() as int,
                                key_pick(catalog@, *type_key),
                                0,
                            );
                            assert(descriptor_wf(d@));
                        }
                        let fields = duplicate_fields(&d.default_fields);
                        let rec = Record { type_key: *type_key, fields };
                        proof {
                            assert(rec@ == (RecordModel {
                                type_key: *type_key,
                                fields: d@.default_fields,
                            }));
                        }
                        store.set_record(*entity, rec)
                    } else {
                        false
                    }
                },
                None => false,
            }
        },
        Command::RemoveComponent { entity, type_key } => {
            match catalog.resolve_key(*type_key) {
                Some(d) => {
                    if d.attachable {
                        let alive = store.has_entity(*entity);
                        let _removed = store.remove_record(*entity, *type_key);
                        alive
                    } else {
                        false
                    }
                },
                None => false,
            }
        },
        Command::ChangeField { entity, type_key, field_name, text_value } => {
            match catalog.resolve_key(*type_key) {
                Some(d) => {
                    if d.reflectable {
                        store.change_field(
                            *entity,
                            *type_key,
                            field_name.as_str(),
                            text_value.as_str(),
                        )
                    } else {
                        false
                    }
                },
                None => false,
            }
        },
    }
}

/// The FIFO of deferred commands.
#[derive(Debug)]
pub struct CommandQueue {
    pub pending: Vec<Command>,
}

impl View for CommandQueue {
    type V = Seq<CommandModel>;

    open spec fn view(&self) -> Seq<CommandModel> {
        views_of(self.pending@)
    }
}

impl CommandQueue {
    /// An empty queue.
    pub fn new() -> (q: CommandQueue)
        ensures
            q@.len() == 0,
    {
        let q = CommandQueue { pending: Vec::new() };
        proof {
            broadcast use crate::model::lemma_views_of;

            assert(q@ =~= Seq::<CommandModel>::empty());
        }
        q
    }

    /// Enqueue one command at the back.
    pub fn enqueue(&mut self, c: Command)
        ensures
            final(self)@ == old(self)@.push(c@),
    {
        let ghost gc = c@;
        let ghost old_pending = self.pending@;
        self.pending.push(c);
        proof {
            crate::model::lemma_views_of_push(old_pending, self.pending@[self.pending@.len() - 1]);
            assert(self@ =~= old(self)@.push(gc));
        }
    }

    /// Drain the whole queue against the store, in FIFO order, each command
    /// an atomic unit; a skipped or failed command never aborts the rest.
    /// Any command that counted as a scene change marks the scene dirty;
    /// the file path is untouched.
    pub fn apply_all(&mut self, store: &mut Store, catalog: &Catalog, scene: &mut SceneInfo)
        requires
            store_wf(old(store)@),
            catalog_wf(catalog@),
        ensures
            final(self)@.len() == 0,
            final(store)@ == spec_apply_all(old(store)@, catalog@, old(self)@).0,
            store_wf(final(store)@),
            final(scene).is_dirty == (old(scene).is_dirty || spec_apply_all(
                old(store)@,
                catalog@,
                old(self)@,
            ).1),
            final(scene).file_path == old(scene).file_path,
    {
        broadcast use crate::model::lemma_views_of;

        let ghost m0 = store@;
        let ghost cm = catalog@;
        let ghost all = self@;
        let ghost dirty0 = scene.is_dirty;
        let n = self.pending.len();
        proof {
            assert(all.subrange(0, n as int) =~= all);
        }
        let mut mutated: bool = false;
        let mut i: usize = 0;
        while i < n
            invariant
                0 <= i <= n,
                n == self.pending.len(),
                all == self@,
                cm == catalog@,
                all.len() == n,
                store_wf(store@),
                catalog_wf(cm),
                scene.file_path == old(scene).file_path,
                scene.is_dirty == dirty0,
                dirty0 == old(scene).is_dirty,
                spec_apply_all(m0, cm, all).0 == spec_apply_all(
                    store@,
                    cm,
                    all.subrange(i as int, n as int),
                ).0,
                spec_apply_all(m0, cm, all).1 == (spec_apply_all(
                    store@,
                    cm,
                    all.subrange(i as int, n as int),
                ).1 || mutated),
            decreases n - i,
        {
            proof {
                broadcast use crate::model::lemma_views_of;

            }
            let ghost m_before = store@;
            let ghost suffix = all.subrange(i as int, n as int);
            let applied = apply_command(store, catalog, &self.pending[i]);
            if applied {
                mutated = true;
            }
            proof {
                assert(suffix[0] == all[i as int]);
                assert(suffix.drop_first() =~= all.subrange(i + 1, n as int));
                let first = spec_apply_command(m_before, cm, suffix[0]);
                assert(first.0 == store@);
                assert(first.1 == applied);
                assert(spec_apply_all(m_before, cm, suffix).0 == spec_apply_all(
                    store@,
                    cm,
                    all.subrange(i + 1, n as int),
                ).0);
                assert(spec_apply_all(m_before, cm, suffix).1 == (first.1 || spec_apply_all(
                    store@,
                    cm,
                    all.subrange(i + 1, n as int),
                ).1));
            }
            i = i + 1;
        }
        proof {
            assert(all.subrange(n as int, n as int) =~= Seq::<CommandModel>::empty());
        }
        if mutated {
            scene.is_dirty = true;
        }
        self.pending.clear();
        proof {
            assert(self@ =~= Seq::<CommandModel>::empty());
        }
    }
}

/// Idempotence of a field edit: applying the same `ChangeField` command
/// twice with the same value leaves the store exactly as the first
/// application left it, so the field's value is unchanged after the second
/// application.
pub proof fn lemma_change_field_idempotent(
    m: StoreModel,
    cm: Seq<DescriptorModel>,
    entity: u64,
    type_key: u64,
    field_name: Seq<char>,
    text_value: Seq<char>,
)
    ensures
        ({
            let c = CommandModel::ChangeField { entity, type_key, field_name, text_value };
            let once = spec_apply_command(m, cm, c).0;
            spec_apply_command(once, cm, c).0 == once
        }),
{
    let c = CommandModel::ChangeField { entity, type_key, field_name, text_value };
    let once = spec_apply_command(m, cm, c).0;
    match spec_resolve(cm, type_key) {
        None => {},
        Some(d) => {
            if d.reflectable {
                match crate::store::find_entity(m.entities, entity) {
                    None => {},
                    Some(i) => {
                        crate::store::lemma_find_entity(m.entities, entity);
                        match crate::store::find_record(m.entities[i].records, type_key) {
                            None => {},
                            Some(j) => {
                                crate::store::lemma_find_record(m.entities[i].records, type_key);
                                let rec = m.entities[i].records[j];
                                let w = crate::record::spec_write_field(
                                    rec,
                                    field_name,
                                    text_value,
                                );
                                let e1 = EntityModel {
                                    id: m.entities[i].id,
                                    parent: m.entities[i].parent,
                                    records: m.entities[i].records.update(j, w.0),
                                };
                                assert(once == (StoreModel {
                                    next_id: m.next_id,
                                    entities: m.entities.update(i, e1),
                                }));
                                crate::store::lemma_find_entity_update_same_id(
                                    m.entities,
                                    i,
                                    e1,
                                    entity,
                                );
                                assert(crate::store::find_entity(once.entities, entity) == Some(i));
                                assert(once.entities[i] == e1);
                                assert(w.0.type_key == rec.type_key);
                                crate::store::lemma_find_record_update_same_key(
                                    m.entities[i].records,
                                    j,
                                    w.0,
                                    type_key,
                                );
                                assert(crate::store::find_record(e1.records, type_key) == Some(j));
                                assert(e1.records[j] == w.0);
                                crate::record::lemma_write_field_idempotent(
                                    rec,
                                    field_name,
                                    text_value,
                                );
                                let w2 = crate::record::spec_write_field(
                                    w.0,
                                    field_name,
                                    text_value,
                                );
                                assert(w2.0 == w.0);
                                let e2 = EntityModel {
                                    id: e1.id,
                                    parent: e1.parent,
                                    records: e1.records.update(j, w2.0),
                                };
                                assert(e2.records =~= e1.records);
                                assert(spec_apply_command(once, cm, c).0 == (StoreModel {
                                    next_id: once.next_id,
                                    entities: once.entities.update(i, e2),
                                }));
                                assert(once.entities.update(i, e2) =~= once.entities);
                            },
                        }
                    },
                }
            }
        },
    }
}

/// The delete-entity action: despawn the selected entity together with its
/// descendants and mark the scene dirty; with nothing selected, nothing
/// happens.
pub fn delete_selected(
    store: &mut Store,
    selection: &crate::inspect::EditorState,
    scene: &mut SceneInfo,
)
    requires
        store_wf(old(store)@),
    ensures
        store_wf(final(store)@),
        final(scene).file_path == old(scene).file_path,
        match selection.selected_entity {
            Some(e) => final(store)@ == crate::store::spec_despawn(old(store)@, e)
                && final(scene).is_dirty,
            None => final(store)@ == old(store)@ && final(scene).is_dirty == old(scene).is_dirty,
        },
{
    match selection.selected_entity {
        Some(e) => {
            store.despawn(e);
            scene.is_dirty = true;
        },
        None => {},
    }
}

/// The remove-component action: resolve the fully-qualified type name of an
/// already-attached record and, when the type is attachable, enqueue its
/// removal from the selected entity.
pub fn request_remove_component(
    queue: &mut CommandQueue,
    catalog: &Catalog,
    selection: &crate::inspect::EditorState,
    full_name: &str,
) -> (enqueued: bool)
    ensures
        match selection.selected_entity {
            None => !enqueued && final(queue)@ == old(queue)@,
            Some(e) => match crate::catalog::first_picked(
                catalog@.len() as int,
                crate::catalog::name_pick(catalog@, full_name@),
                0,
            ) {
                None => !enqueued && final(queue)@ == old(queue)@,
                Some(k) => if catalog@[k].attachable {
                    enqueued && final(queue)@ == old(queue)@.push(
                        CommandModel::RemoveComponent { entity: e, type_key: catalog@[k].key },
                    )
                } else {
                    !enqueued && final(queue)@ == old(queue)@
                },
            },
        },
{
    let e = match selection.selected_entity {
        Some(e) => e,
        None => {
            return false;
        },
    };
    match catalog.resolve(full_name) {
        Some(d) => {
            if d.attachable {
                queue.enqueue(Command::RemoveComponent { entity: e, type_key: d.key });
                true
            } else {
                false
            }
        },
        None => false,
    }
}

/// The add-component confirmation: resolve the chosen short name (the first
/// registered wins), enqueue the attachment to the selected entity, and
/// close the search overlay. The capability check happens when the queue
/// drains.
pub fn request_add_component(
    queue: &mut CommandQueue,
    ui: &mut crate::inspect::InspectorUiState,
    catalog: &Catalog,
    selection: &crate::inspect::EditorState,
    short_name: &str,
) -> (enqueued: bool)
    ensures
        final(ui).component_filter@ == old(ui).component_filter@,
        match selection.selected_entity {
            None => !enqueued && final(queue)@ == old(queue)@ && final(ui).is_adding_component
                == old(ui).is_adding_component,
            Some(e) => match crate::catalog::first_picked(
                catalog@.len() as int,
                crate::catalog::short_pick(catalog@, short_name@),
                0,
            ) {
                None => !enqueued && final(queue)@ == old(queue)@ && final(ui).is_adding_component
                    == old(ui).is_adding_component,
                Some(k) => enqueued && final(queue)@ == old(queue)@.push(
                    CommandModel::AddComponent { entity: e, type_key: catalog@[k].key },
                ) && !final(ui).is_adding_component,
            },
        },
{
    let e = match selection.selected_entity {
        Some(e) => e,
        None => {
            return false;
        },
    };
    match catalog.resolve_short(short_name) {
        Some(d) => {
            queue.enqueue(Command::AddComponent { entity: e, type_key: d.key });
            ui.is_adding_component = false;
            true
        },
        None => false,
    }
}

} // verus!
