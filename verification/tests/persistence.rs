use scene_editor::catalog::{Catalog, TypeDescriptor};
use scene_editor::commands::SceneInfo;
use scene_editor::persist::{
    load_scene, mark_saved, menu_decision, save_to_text, window_title, LoadError, MenuAction,
    MenuEffect,
};
use scene_editor::record::{Field, Record};
use scene_editor::store::Store;
use scene_editor::value::FieldValue;

const ROOT_MARKER: u64 = 99;

fn demo_catalog() -> Catalog {
    let mut c = Catalog::new();
    assert!(c.register(TypeDescriptor {
        key: 1,
        full_name: String::from("demo::Transform"),
        short_name: String::from("Transform"),
        attachable: true,
        default_constructible: true,
        reflectable: true,
        default_fields: vec![],
    }));
    assert!(c.register(TypeDescriptor {
        key: 2,
        full_name: String::from("demo::Label"),
        short_name: String::from("Label"),
        attachable: true,
        default_constructible: true,
        reflectable: true,
        default_fields: vec![],
    }));
    assert!(c.register(TypeDescriptor {
        key: 3,
        full_name: String::from("render::VisibilityClass"),
        short_name: String::from("VisibilityClass"),
        attachable: true,
        default_constructible: true,
        reflectable: false,
        default_fields: vec![],
    }));
    assert!(c.register(TypeDescriptor {
        key: ROOT_MARKER,
        full_name: String::from("editor::Root"),
        short_name: String::from("Root"),
        attachable: true,
        default_constructible: true,
        reflectable: false,
        default_fields: vec![],
    }));
    c
}

fn markers() -> Vec<u64> {
    vec![ROOT_MARKER]
}

fn denylist() -> Vec<String> {
    scene_editor::persist::default_denylist()
}

fn transform_record(x: &str) -> Record {
    Record {
        type_key: 1,
        fields: vec![Field {
            name: String::from("x"),
            value: FieldValue::FloatSingle(String::from(x)),
        }],
    }
}

fn label_record(text: &str) -> Record {
    Record {
        type_key: 2,
        fields: vec![Field {
            name: String::from("text"),
            value: FieldValue::Text(String::from(text)),
        }],
    }
}

fn marker_record() -> Record {
    Record { type_key: ROOT_MARKER, fields: vec![] }
}

#[test]
fn save_then_load_reproduces_the_records() {
    let catalog = demo_catalog();
    let mut store = Store::new();
    let root = store.spawn(None, vec![marker_record()]);
    let _panel = store.spawn(Some(root), vec![label_record("panel")]);
    store.spawn(None, vec![transform_record("1.5"), label_record("player")]);
    store.spawn(None, vec![transform_record("-2.25")]);
    let text = save_to_text(&store, &catalog, &markers(), &denylist()).expect("save succeeds");
    let mut scene = SceneInfo::new();
    scene.is_dirty = true;
    let r = load_scene(
        &mut store,
        &catalog,
        &markers(),
        Some(text.as_str()),
        &mut scene,
    );
    assert_eq!(r, Ok(()));
    assert!(!scene.is_dirty);
    // The editor's own entities survive; the scene entities are replaced by
    // loaded ones with the same records, in the same order.
    let ids = store.entity_ids();
    assert_eq!(ids.len(), 4);
    assert_eq!(store.entity_at(0).records[0].type_key, ROOT_MARKER);
    assert_eq!(store.entity_at(1).records[0].type_key, 2);
    let first = store.entity_at(2);
    assert_eq!(first.records.len(), 2);
    assert_eq!(first.records[0].type_key, 1);
    match &first.records[0].fields[0].value {
        FieldValue::FloatSingle(s) => assert_eq!(s, "1.5"),
        _ => panic!("wrong kind"),
    }
    assert_eq!(first.records[1].type_key, 2);
    match &first.records[1].fields[0].value {
        FieldValue::Text(s) => assert_eq!(s, "player"),
        _ => panic!("wrong kind"),
    }
    let second = store.entity_at(3);
    assert_eq!(second.records.len(), 1);
    match &second.records[0].fields[0].value {
        FieldValue::FloatSingle(s) => assert_eq!(s, "-2.25"),
        _ => panic!("wrong kind"),
    }
}

#[test]
fn denylisted_records_are_dropped_from_the_snapshot() {
    let catalog = demo_catalog();
    let mut store = Store::new();
    store.spawn(
        None,
        vec![
            transform_record("1.0"),
            Record { type_key: 3, fields: vec![] },
        ],
    );
    let text = save_to_text(&store, &catalog, &markers(), &denylist()).expect("save succeeds");
    assert!(!text.contains("VisibilityClass"));
    let mut scene = SceneInfo::new();
    let r = load_scene(
        &mut store,
        &catalog,
        &markers(),
        Some(text.as_str()),
        &mut scene,
    );
    assert_eq!(r, Ok(()));
    assert_eq!(store.entity_at(0).records.len(), 1);
    assert_eq!(store.entity_at(0).records[0].type_key, 1);
}

#[test]
fn save_with_zero_eligible_entities_is_empty_but_valid() {
    let catalog = demo_catalog();
    let mut store = Store::new();
    store.spawn(None, vec![marker_record()]);
    let text = save_to_text(&store, &catalog, &markers(), &denylist()).expect("save succeeds");
    assert!(!text.is_empty());
    let mut scene = SceneInfo::new();
    scene.is_dirty = true;
    let r = load_scene(
        &mut store,
        &catalog,
        &markers(),
        Some(text.as_str()),
        &mut scene,
    );
    assert_eq!(r, Ok(()));
    assert!(!scene.is_dirty);
    assert_eq!(store.entity_ids().len(), 1);
    mark_saved(&mut scene);
    assert!(!scene.is_dirty);
}

#[test]
fn missing_file_reports_io_failure_and_leaves_store_alone() {
    let catalog = demo_catalog();
    let mut store = Store::new();
    store.spawn(None, vec![transform_record("1.0")]);
    let mut scene = SceneInfo::new();
    scene.is_dirty = true;
    let r = load_scene(&mut store, &catalog, &markers(), None, &mut scene);
    assert_eq!(r, Err(LoadError::Io));
    assert!(scene.is_dirty);
    assert_eq!(store.entity_ids().len(), 1);
    match &store.entity_at(0).records[0].fields[0].value {
        FieldValue::FloatSingle(s) => assert_eq!(s, "1.0"),
        _ => panic!("wrong kind"),
    }
}

#[test]
fn unreadable_text_reports_parse_failure_and_leaves_store_alone() {
    let catalog = demo_catalog();
    let mut store = Store::new();
    store.spawn(None, vec![transform_record("1.0")]);
    let mut scene = SceneInfo::new();
    let r = load_scene(
        &mut store,
        &catalog,
        &markers(),
        Some("this is not a snapshot"),
        &mut scene,
    );
    assert_eq!(r, Err(LoadError::Parse));
    assert_eq!(store.entity_ids().len(), 1);
}

#[test]
fn unknown_type_name_reports_resolution_failure_before_despawning() {
    let catalog = demo_catalog();
    let mut store = Store::new();
    store.spawn(None, vec![transform_record("4.0")]);
    let text = save_to_text(&store, &catalog, &markers(), &denylist()).expect("save succeeds");
    // A catalog that never registered the type cannot resolve the name.
    let empty_catalog = Catalog::new();
    let mut scene = SceneInfo::new();
    let r = load_scene(
        &mut store,
        &empty_catalog,
        &markers(),
        Some(text.as_str()),
        &mut scene,
    );
    assert_eq!(r, Err(LoadError::Resolve));
    // The store was not despawned: validation happens before destruction.
    assert_eq!(store.entity_ids().len(), 1);
    match &store.entity_at(0).records[0].fields[0].value {
        FieldValue::FloatSingle(s) => assert_eq!(s, "4.0"),
        _ => panic!("wrong kind"),
    }
}

#[test]
fn unregistered_record_type_aborts_the_save() {
    let catalog = demo_catalog();
    let mut store = Store::new();
    store.spawn(None, vec![Record { type_key: 777, fields: vec![] }]);
    assert!(save_to_text(&store, &catalog, &markers(), &denylist()).is_none());
}

#[test]
fn menu_decisions() {
    let mut scene = SceneInfo::new();
    assert_eq!(
        menu_decision(&MenuAction::Save, &scene),
        MenuEffect::AskPathThenSave
    );
    scene.file_path = Some(String::from("scene.scn"));
    assert_eq!(
        menu_decision(&MenuAction::Save, &scene),
        MenuEffect::SaveToCurrentPath
    );
    assert_eq!(
        menu_decision(&MenuAction::SaveAs, &scene),
        MenuEffect::AskPathThenSave
    );
    assert_eq!(
        menu_decision(&MenuAction::Load, &scene),
        MenuEffect::AskPathThenLoad
    );
    assert_eq!(menu_decision(&MenuAction::Exit, &scene), MenuEffect::Quit);
}

#[test]
fn window_title_shows_dirty_marker() {
    assert_eq!(window_title("Editor", "scene.scn", true), "Editor - scene.scn*");
    assert_eq!(window_title("Editor", "Untitled", false), "Editor - Untitled");
}

#[test]
fn default_denylist_holds_the_non_portable_types() {
    let deny = scene_editor::persist::default_denylist();
    assert_eq!(
        deny,
        vec![
            String::from("VisibilityClass"),
            String::from("Mesh3d"),
            String::from("MeshMaterial3d"),
        ]
    );
}
