use scene_editor::catalog::{Catalog, TypeDescriptor};
use scene_editor::commands::{
    delete_selected, request_add_component, request_remove_component, Command, CommandQueue,
    SceneInfo,
};
use scene_editor::inspect::{EditorState, InspectorUiState};
use scene_editor::record::{Field, Record};
use scene_editor::store::Store;
use scene_editor::value::FieldValue;

fn demo_catalog() -> Catalog {
    let mut c = Catalog::new();
    assert!(c.register(TypeDescriptor {
        key: 1,
        full_name: String::from("demo::Transform"),
        short_name: String::from("Transform"),
        attachable: true,
        default_constructible: true,
        reflectable: true,
        default_fields: vec![
            Field { name: String::from("x"), value: FieldValue::FloatSingle(String::from("0.0")) },
            Field { name: String::from("y"), value: FieldValue::FloatSingle(String::from("0.0")) },
        ],
    }));
    assert!(c.register(TypeDescriptor {
        key: 2,
        full_name: String::from("demo::Label"),
        short_name: String::from("Label"),
        attachable: true,
        default_constructible: false,
        reflectable: true,
        default_fields: vec![],
    }));
    assert!(c.register(TypeDescriptor {
        key: 99,
        full_name: String::from("editor::Root"),
        short_name: String::from("Root"),
        attachable: true,
        default_constructible: true,
        reflectable: false,
        default_fields: vec![],
    }));
    c
}

fn transform_record(x: &str) -> Record {
    Record {
        type_key: 1,
        fields: vec![
            Field { name: String::from("x"), value: FieldValue::FloatSingle(String::from(x)) },
            Field { name: String::from("y"), value: FieldValue::FloatSingle(String::from("0.0")) },
        ],
    }
}

#[test]
fn change_field_applies_at_sync_point() {
    let catalog = demo_catalog();
    let mut store = Store::new();
    let e = store.spawn(None, vec![transform_record("1.0")]);
    let mut queue = CommandQueue::new();
    let mut scene = SceneInfo::new();
    queue.enqueue(Command::ChangeField {
        entity: e,
        type_key: 1,
        field_name: String::from("x"),
        text_value: String::from("2.5"),
    });
    // Not yet applied.
    match &store.entity_at(0).records[0].fields[0].value {
        FieldValue::FloatSingle(s) => assert_eq!(s, "1.0"),
        _ => panic!("wrong kind"),
    }
    queue.apply_all(&mut store, &catalog, &mut scene);
    match &store.entity_at(0).records[0].fields[0].value {
        FieldValue::FloatSingle(s) => assert_eq!(s, "2.5"),
        _ => panic!("wrong kind"),
    }
    assert!(scene.is_dirty);
}

#[test]
fn queue_drains_in_fifo_order() {
    let catalog = demo_catalog();
    let mut store = Store::new();
    let e = store.spawn(None, vec![transform_record("1.0")]);
    let mut queue = CommandQueue::new();
    let mut scene = SceneInfo::new();
    for t in ["2.0", "3.0", "4.0"] {
        queue.enqueue(Command::ChangeField {
            entity: e,
            type_key: 1,
            field_name: String::from("x"),
            text_value: String::from(t),
        });
    }
    queue.apply_all(&mut store, &catalog, &mut scene);
    match &store.entity_at(0).records[0].fields[0].value {
        FieldValue::FloatSingle(s) => assert_eq!(s, "4.0"),
        _ => panic!("wrong kind"),
    }
}

#[test]
fn add_component_needs_both_capabilities() {
    let catalog = demo_catalog();
    let mut store = Store::new();
    let e = store.spawn(None, vec![]);
    let mut queue = CommandQueue::new();
    let mut scene = SceneInfo::new();
    // Label is attachable but not default-constructible: skipped silently.
    queue.enqueue(Command::AddComponent { entity: e, type_key: 2 });
    queue.apply_all(&mut store, &catalog, &mut scene);
    assert_eq!(store.entity_at(0).records.len(), 0);
    assert!(!scene.is_dirty);
    // Transform has both: attached with its default fields.
    queue.enqueue(Command::AddComponent { entity: e, type_key: 1 });
    queue.apply_all(&mut store, &catalog, &mut scene);
    assert_eq!(store.entity_at(0).records.len(), 1);
    assert_eq!(store.entity_at(0).records[0].type_key, 1);
    assert!(scene.is_dirty);
}

#[test]
fn add_of_attached_component_resets_it_to_defaults() {
    let catalog = demo_catalog();
    let mut store = Store::new();
    let e = store.spawn(None, vec![transform_record("5.5")]);
    let mut queue = CommandQueue::new();
    let mut scene = SceneInfo::new();
    // Re-adding an attached type replaces the record with a
    // default-constructed instance and marks the scene dirty.
    queue.enqueue(Command::AddComponent { entity: e, type_key: 1 });
    queue.apply_all(&mut store, &catalog, &mut scene);
    assert_eq!(store.entity_at(0).records.len(), 1);
    match &store.entity_at(0).records[0].fields[0].value {
        FieldValue::FloatSingle(s) => assert_eq!(s, "0.0"),
        _ => panic!("wrong kind"),
    }
    assert!(scene.is_dirty);
}

#[test]
fn remove_component_detaches() {
    let catalog = demo_catalog();
    let mut store = Store::new();
    let e = store.spawn(None, vec![transform_record("1.0")]);
    let mut queue = CommandQueue::new();
    let mut scene = SceneInfo::new();
    queue.enqueue(Command::RemoveComponent { entity: e, type_key: 1 });
    queue.apply_all(&mut store, &catalog, &mut scene);
    assert_eq!(store.entity_at(0).records.len(), 0);
    assert!(scene.is_dirty);
}

#[test]
fn unknown_type_is_skipped_and_rest_applies() {
    let catalog = demo_catalog();
    let mut store = Store::new();
    let e = store.spawn(None, vec![transform_record("1.0")]);
    let mut queue = CommandQueue::new();
    let mut scene = SceneInfo::new();
    queue.enqueue(Command::AddComponent { entity: e, type_key: 777 });
    queue.enqueue(Command::ChangeField {
        entity: e,
        type_key: 1,
        field_name: String::from("y"),
        text_value: String::from("9.5"),
    });
    queue.apply_all(&mut store, &catalog, &mut scene);
    match &store.entity_at(0).records[0].fields[1].value {
        FieldValue::FloatSingle(s) => assert_eq!(s, "9.5"),
        _ => panic!("wrong kind"),
    }
}

#[test]
fn change_field_twice_is_idempotent() {
    let catalog = demo_catalog();
    let mut store = Store::new();
    let e = store.spawn(None, vec![transform_record("1.0")]);
    let mut queue = CommandQueue::new();
    let mut scene = SceneInfo::new();
    for _ in 0..2 {
        queue.enqueue(Command::ChangeField {
            entity: e,
            type_key: 1,
            field_name: String::from("x"),
            text_value: String::from("2.5"),
        });
    }
    queue.apply_all(&mut store, &catalog, &mut scene);
    match &store.entity_at(0).records[0].fields[0].value {
        FieldValue::FloatSingle(s) => assert_eq!(s, "2.5"),
        _ => panic!("wrong kind"),
    }
}

#[test]
fn despawn_removes_descendants() {
    let mut store = Store::new();
    let root = store.spawn(None, vec![]);
    let child = store.spawn(Some(root), vec![]);
    let _grandchild = store.spawn(Some(child), vec![]);
    let other = store.spawn(None, vec![]);
    store.despawn(root);
    let ids = store.entity_ids();
    assert_eq!(ids, vec![other]);
}

#[test]
fn catalog_lookup_is_first_registered_wins() {
    let mut c = Catalog::new();
    assert!(c.register(TypeDescriptor {
        key: 1,
        full_name: String::from("a::Thing"),
        short_name: String::from("Thing"),
        attachable: true,
        default_constructible: true,
        reflectable: true,
        default_fields: vec![],
    }));
    assert!(c.register(TypeDescriptor {
        key: 2,
        full_name: String::from("b::Thing"),
        short_name: String::from("Thing"),
        attachable: true,
        default_constructible: true,
        reflectable: true,
        default_fields: vec![],
    }));
    // A duplicate key is refused outright.
    assert!(!c.register(TypeDescriptor {
        key: 1,
        full_name: String::from("c::Other"),
        short_name: String::from("Other"),
        attachable: true,
        default_constructible: true,
        reflectable: true,
        default_fields: vec![],
    }));
    let d = c.resolve_short("Thing").expect("short name resolves");
    assert_eq!(d.key, 1);
    let d2 = c.resolve("b::Thing").expect("full name resolves");
    assert_eq!(d2.key, 2);
    assert!(c.resolve("c::Other").is_none());
}

#[test]
fn search_filters_case_insensitively() {
    let catalog = demo_catalog();
    assert_eq!(catalog.search("trans"), vec![1]);
    assert_eq!(catalog.search("ROOT"), vec![99]);
    // Label is not default-constructible, so it is never offered.
    assert_eq!(catalog.search("label"), Vec::<u64>::new());
    assert_eq!(catalog.search(""), vec![1, 99]);
}

#[test]
fn hierarchy_lists_only_root_entities() {
    let mut store = Store::new();
    let a = store.spawn(None, vec![]);
    let b = store.spawn(Some(a), vec![]);
    let c = store.spawn(None, vec![]);
    let _d = store.spawn(Some(b), vec![]);
    assert_eq!(store.root_entity_ids(), vec![a, c]);
}

#[test]
fn delete_entity_action_despawns_and_marks_dirty() {
    let mut store = Store::new();
    let e = store.spawn(None, vec![transform_record("1.0")]);
    let _child = store.spawn(Some(e), vec![]);
    let other = store.spawn(None, vec![]);
    let mut selection = EditorState::new();
    let mut scene = SceneInfo::new();
    // Nothing selected: nothing happens.
    delete_selected(&mut store, &selection, &mut scene);
    assert_eq!(store.entity_ids().len(), 3);
    assert!(!scene.is_dirty);
    selection.select_entity(e);
    delete_selected(&mut store, &selection, &mut scene);
    assert_eq!(store.entity_ids(), vec![other]);
    assert!(scene.is_dirty);
}

#[test]
fn remove_component_request_resolves_full_name() {
    let catalog = demo_catalog();
    let mut store = Store::new();
    let e = store.spawn(None, vec![transform_record("1.0")]);
    let mut selection = EditorState::new();
    selection.select_entity(e);
    let mut queue = CommandQueue::new();
    assert!(!request_remove_component(&mut queue, &catalog, &selection, "demo::NoSuch"));
    assert!(request_remove_component(&mut queue, &catalog, &selection, "demo::Transform"));
    let mut scene = SceneInfo::new();
    queue.apply_all(&mut store, &catalog, &mut scene);
    assert_eq!(store.entity_at(0).records.len(), 0);
}

#[test]
fn add_component_confirm_resolves_short_name_and_closes_search() {
    let catalog = demo_catalog();
    let mut store = Store::new();
    let e = store.spawn(None, vec![]);
    let mut selection = EditorState::new();
    selection.select_entity(e);
    let mut ui = InspectorUiState::new();
    ui.toggle_adding();
    assert!(ui.is_adding_component);
    let mut queue = CommandQueue::new();
    assert!(request_add_component(&mut queue, &mut ui, &catalog, &selection, "Transform"));
    assert!(!ui.is_adding_component);
    let mut scene = SceneInfo::new();
    queue.apply_all(&mut store, &catalog, &mut scene);
    assert_eq!(store.entity_at(0).records.len(), 1);
    assert_eq!(store.entity_at(0).records[0].type_key, 1);
}

#[test]
fn remove_of_unattached_component_still_marks_dirty() {
    let catalog = demo_catalog();
    let mut store = Store::new();
    let e = store.spawn(None, vec![]);
    let mut queue = CommandQueue::new();
    let mut scene = SceneInfo::new();
    // The type resolves and is attachable, so the command counts as a
    // scene change even though nothing was attached.
    queue.enqueue(Command::RemoveComponent { entity: e, type_key: 1 });
    queue.apply_all(&mut store, &catalog, &mut scene);
    assert_eq!(store.entity_at(0).records.len(), 0);
    assert!(scene.is_dirty);
    // On a despawned entity the command is skipped outright.
    let mut scene2 = SceneInfo::new();
    queue.enqueue(Command::RemoveComponent { entity: 777, type_key: 1 });
    queue.apply_all(&mut store, &catalog, &mut scene2);
    assert!(!scene2.is_dirty);
}
