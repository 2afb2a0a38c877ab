//! Save and load orchestration. Saving serializes the eligible part of the
//! store to text (the caller writes the file); loading validates the whole
//! text first, and only then despawns the non-editor entities and spawns
//! the loaded ones — a failed load never touches the store.

use vstd::prelude::*;

use crate::catalog::{catalog_wf, Catalog, DescriptorModel};
use crate::codec::{
    emit_snapshot, snapshot_to_text, spec_parse_snapshot, text_to_snapshot, lemma_snapshot_round_trip,
    snapshot_emit_ok,
};
use crate::commands::SceneInfo;
use crate::model::views_of;
use crate::record::RecordModel;
use crate::snapshot::{
    catalog_unambiguous, check_bundles, convert_snapshot, extract_snapshot, records_ok,
    spawn_all, spec_convert_snapshot, spec_eligible_kept, spec_extract_entities, spec_spawn_all,
    lemma_convert_of_extract_entities, lemma_spawn_all_appends,
};
use crate::store::{spec_clear_non_editor, store_wf, EntityModel, Store, StoreModel};

verus! {

/// One file-menu action.
#[derive(Clone, Copy, PartialEq, Eq, Structural, Debug)]
pub enum MenuAction {
    Save,
    SaveAs,
    Load,
    Exit,
}

/// What the presentation layer must do for a menu action.
#[derive(Clone, Copy, PartialEq, Eq, Structural, Debug)]
pub enum MenuEffect {
    SaveToCurrentPath,
    AskPathThenSave,
    AskPathThenLoad,
    Quit,
}

/// The file menu's decision: saving without a current path is a save-as;
/// loading always asks for a path; exiting quits.
pub fn menu_decision(action: &MenuAction, scene: &SceneInfo) -> (e: MenuEffect)
    ensures
        e == match action {
            MenuAction::Save => if scene.file_path is Some {
                MenuEffect::SaveToCurrentPath
            } else {
                MenuEffect::AskPathThenSave
            },
            MenuAction::SaveAs => MenuEffect::AskPathThenSave,
            MenuAction::Load => MenuEffect::AskPathThenLoad,
            MenuAction::Exit => MenuEffect::Quit,
        },
{
    match action {
        MenuAction::Save => {
            if scene.file_path.is_some() {
                MenuEffect::SaveToCurrentPath
            } else {
                MenuEffect::AskPathThenSave
            }
        },
        MenuAction::SaveAs => MenuEffect::AskPathThenSave,
        MenuAction::Load => MenuEffect::AskPathThenLoad,
        MenuAction::Exit => MenuEffect::Quit,
    }
}


/// The render and visibility bookkeeping types a save never persists: the
/// runtime regenerates them, and loading them back would error or
/// duplicate. Each entry is matched as a substring of the full type name.
pub fn default_denylist() -> (r: Vec<String>)
    ensures
        r@.len() == 3,
        r@[0]@ == "VisibilityClass"@,
        r@[1]@ == "Mesh3d"@,
        r@[2]@ == "MeshMaterial3d"@,
{
    let mut r: Vec<String> = Vec::new();
    r.push("VisibilityClass".to_owned());
    r.push("Mesh3d".to_owned());
    r.push("MeshMaterial3d".to_owned());
    r
}

/// Serialize the eligible part of the store to the snapshot text. Nothing
/// is returned when a record's registered type cannot be resolved — the
/// whole save aborts rather than writing a partial file.
pub fn save_to_text(
    store: &Store,
    catalog: &Catalog,
    markers: &Vec<u64>,
    deny: &Vec<String>,
) -> (r: Option<String>)
    requires
        store_wf(store@),
    ensures
        match spec_extract_entities(store@.entities, catalog@, markers@, views_of(deny@), 0) {
            Some(snapm) => r is Some && r->Some_0@ == emit_snapshot(snapm),
            None => r is None,
        },
{
    match extract_snapshot(store, catalog, markers, deny) {
        Some(snap) => Some(snapshot_to_text(&snap)),
        None => None,
    }
}

/// Record that the scene was written (or read) successfully: the dirty
/// flag is cleared and the path is untouched.
pub fn mark_saved(scene: &mut SceneInfo)
    ensures
        !final(scene).is_dirty,
        final(scene).file_path == old(scene).file_path,
{
    scene.is_dirty = false;
}

/// Why a load was abandoned. In every failure case the store is exactly as
/// it was.
#[derive(Clone, Copy, PartialEq, Eq, Structural, Debug)]
pub enum LoadError {
    Io,
    Parse,
    Resolve,
    Invalid,
}

/// Whether a parsed and converted snapshot can actually be spawned: every
/// entity's records are fit to spawn and the store has handles left.
pub open spec fn load_applies(m: StoreModel, bundles: Seq<Seq<RecordModel>>) -> bool {
    &&& forall|i: int| 0 <= i < bundles.len() ==> records_ok(#[trigger] bundles[i])
    &&& m.next_id + bundles.len() <= u64::MAX
}

/// The store a successful load leaves behind: the non-editor entities are
/// despawned and the loaded ones spawned, in order.
pub open spec fn spec_load(m: StoreModel, markers: Seq<u64>, bundles: Seq<Seq<RecordModel>>) -> StoreModel {
    spec_spawn_all(spec_clear_non_editor(m, markers), bundles)
}

/// Load a scene from the content of its file, if it could be read at all.
/// The text is parsed and resolved in full before anything is despawned: a
/// missing file, unreadable text, or an unresolvable type name leaves the
/// store untouched and reports the failure. On success the store holds the
/// editor's own entities plus the loaded ones, and the scene is clean.
pub fn load_scene(
    store: &mut Store,
    catalog: &Catalog,
    markers: &Vec<u64>,
    content: Option<&str>,
    scene: &mut SceneInfo,
) -> (r: Result<(), LoadError>)
    requires
        store_wf(old(store)@),
    ensures
        store_wf(final(store)@),
        final(scene).file_path == old(scene).file_path,
        match content {
            None => r == Err::<(), LoadError>(LoadError::Io) && final(store)@ == old(store)@
                && final(scene).is_dirty == old(scene).is_dirty,
            Some(text) => match spec_parse_snapshot(text@) {
                None => r == Err::<(), LoadError>(LoadError::Parse) && final(store)@ == old(
                    store,
                )@ && final(scene).is_dirty == old(scene).is_dirty,
                Some(snapm) => match spec_convert_snapshot(snapm, catalog@) {
                    None => r == Err::<(), LoadError>(LoadError::Resolve) && final(store)@ == old(
                        store,
                    )@ && final(scene).is_dirty == old(scene).is_dirty,
                    Some(bundles) => if load_applies(old(store)@, bundles) {
                        r == Ok::<(), LoadError>(()) && final(store)@ == spec_load(
                            old(store)@,
                            markers@,
                            bundles,
                        ) && !final(scene).is_dirty
                    } else {
                        r == Err::<(), LoadError>(LoadError::Invalid) && final(store)@ == old(
                            store,
                        )@ && final(scene).is_dirty == old(scene).is_dirty
                    },
                },
            },
        },
{
    broadcast use crate::model::lemma_views_of;

    let text = match content {
        Some(t) => t,
        None => {
            return Err(LoadError::Io);
        },
    };
    let snap = match text_to_snapshot(text) {
        Some(s) => s,
        None => {
            return Err(LoadError::Parse);
        },
    };
    let bundles = match convert_snapshot(&snap, catalog) {
        Some(b) => b,
        None => {
            return Err(LoadError::Resolve);
        },
    };
    if !check_bundles(&bundles) {
        return Err(LoadError::Invalid);
    }
    let count = bundles.len() as u64;
    if store.next_id > u64::MAX - count {
        proof {
            assert(store@.next_id == store.next_id);
        }
        return Err(LoadError::Invalid);
    }
    proof {
        assert(store@.next_id + views_of(bundles@).len() <= u64::MAX);
    }
    store.clear_non_editor(markers);
    spawn_all(store, bundles);
    scene.is_dirty = false;
    Ok(())
}

/// The save-then-load round trip: the saved text parses back to exactly
/// the extracted snapshot; resolving it through an unambiguous catalog
/// gives back exactly the eligible entities' surviving records; and loading
/// it appends, after the editor's own entities, one parentless entity per
/// eligible saved entity, carrying exactly the records that were saved —
/// an isomorphic entity and record set.
pub proof fn lemma_save_load_round_trip(
    m: StoreModel,
    cm: Seq<DescriptorModel>,
    markers: Seq<u64>,
    deny: Seq<Seq<char>>,
)
    requires
        store_wf(m),
        catalog_unambiguous(cm),
        spec_extract_entities(m.entities, cm, markers, deny, 0) is Some,
        snapshot_emit_ok(spec_extract_entities(m.entities, cm, markers, deny, 0)->Some_0),
        ({
            let kept = spec_eligible_kept(m.entities, cm, markers, deny, 0);
            m.next_id + kept.len() <= u64::MAX
        }),
    ensures
        ({
            let snapm = spec_extract_entities(m.entities, cm, markers, deny, 0)->Some_0;
            let kept = spec_eligible_kept(m.entities, cm, markers, deny, 0);
            let cleared = spec_clear_non_editor(m, markers);
            let loaded = spec_load(m, markers, kept);
            &&& spec_parse_snapshot(emit_snapshot(snapm)) == Some(snapm)
            &&& spec_convert_snapshot(snapm, cm) == Some(kept)
            &&& loaded.entities.len() == cleared.entities.len() + kept.len()
            &&& forall|i: int|
                0 <= i < cleared.entities.len() ==> #[trigger] loaded.entities[i]
                    == cleared.entities[i]
            &&& forall|k: int|
                0 <= k < kept.len() ==> (#[trigger] loaded.entities[cleared.entities.len() + k]).records
                    == kept[k] && loaded.entities[cleared.entities.len() + k].parent is None
        }),
{
    let snapm = spec_extract_entities(m.entities, cm, markers, deny, 0)->Some_0;
    let kept = spec_eligible_kept(m.entities, cm, markers, deny, 0);
    lemma_snapshot_round_trip(snapm);
    lemma_convert_of_extract_entities(m.entities, cm, markers, deny, 0);
    let cleared = spec_clear_non_editor(m, markers);
    assert(cleared.next_id == m.next_id);
    lemma_spawn_all_appends(cleared, kept);
}

/// The window title for the current scene: the base name, the file label,
/// and a trailing star exactly when there are unsaved changes.
pub fn window_title(base: &str, file_label: &str, is_dirty: bool) -> (r: String)
    ensures
        r@ == base@ + " - "@ + file_label@ + (if is_dirty {
            "*"@
        } else {
            Seq::<char>::empty()
        }),
{
    let mut title = base.to_owned();
    title.append(" - ");
    title.append(file_label);
    if is_dirty {
        title.append("*");
    }
    title
}

} // verus!
