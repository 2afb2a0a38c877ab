use scene_editor::catalog::{Catalog, TypeDescriptor};
use scene_editor::commands::CommandQueue;
use scene_editor::inspect::{
    commit_focused, edit_focused, inspector_tick, EditOp, EditorState, InspectorPanel,
    InspectorState, InspectorUiState, TickOutcome,
};
use scene_editor::record::{Field, Record};
use scene_editor::store::Store;
use scene_editor::value::FieldValue;

fn demo_catalog() -> Catalog {
    let mut c = Catalog::new();
    assert!(c.register(TypeDescriptor {
        key: 1,
        full_name: String::from("demo::Transform"),
        short_name: String::from("Transform"),
        attachable: true,
        default_constructible: true,
        reflectable: true,
        default_fields: vec![],
    }));
    assert!(c.register(TypeDescriptor {
        key: 2,
        full_name: String::from("demo::Label"),
        short_name: String::from("Label"),
        attachable: true,
        default_constructible: true,
        reflectable: true,
        default_fields: vec![],
    }));
    c
}

fn transform_record(x: &str) -> Record {
    Record {
        type_key: 1,
        fields: vec![Field {
            name: String::from("x"),
            value: FieldValue::FloatSingle(String::from(x)),
        }],
    }
}

#[test]
fn selecting_an_entity_rebuilds_the_panel() {
    let catalog = demo_catalog();
    let mut store = Store::new();
    let e = store.spawn(None, vec![transform_record("1.0")]);
    let mut state = InspectorState::new();
    let mut panel = InspectorPanel::new();
    let mut selection = EditorState::new();
    selection.select_entity(e);
    let outcome = inspector_tick(&mut state, &mut panel, &selection, &store, &catalog);
    assert_eq!(outcome, TickOutcome::Rebuilt);
    assert_eq!(panel.sections.len(), 1);
    assert_eq!(panel.sections[0].display_name, "Transform");
    assert_eq!(panel.sections[0].full_name, "demo::Transform");
    assert_eq!(panel.sections[0].rows.len(), 1);
    assert_eq!(panel.sections[0].rows[0].field_name, "x");
    assert_eq!(panel.sections[0].rows[0].text, "1.0");
}

#[test]
fn value_change_refreshes_without_rebuilding() {
    let catalog = demo_catalog();
    let mut store = Store::new();
    let e = store.spawn(None, vec![transform_record("1.0")]);
    let mut state = InspectorState::new();
    let mut panel = InspectorPanel::new();
    let mut selection = EditorState::new();
    selection.select_entity(e);
    assert_eq!(
        inspector_tick(&mut state, &mut panel, &selection, &store, &catalog),
        TickOutcome::Rebuilt
    );
    let marker_before = panel.sections[0].marker;
    // Only a field value changes: the next tick refreshes in place.
    assert!(store.change_field(e, 1, "x", "3.5"));
    let outcome = inspector_tick(&mut state, &mut panel, &selection, &store, &catalog);
    assert_eq!(outcome, TickOutcome::Refreshed);
    assert_eq!(panel.sections[0].marker, marker_before);
    assert_eq!(panel.sections[0].rows[0].text, "3.5");
}

#[test]
fn shape_change_triggers_full_rebuild() {
    let catalog = demo_catalog();
    let mut store = Store::new();
    let e = store.spawn(None, vec![transform_record("1.0")]);
    let mut state = InspectorState::new();
    let mut panel = InspectorPanel::new();
    let mut selection = EditorState::new();
    selection.select_entity(e);
    assert_eq!(
        inspector_tick(&mut state, &mut panel, &selection, &store, &catalog),
        TickOutcome::Rebuilt
    );
    // The set of attached record types changes: a full rebuild.
    assert!(store.insert_record(
        e,
        Record { type_key: 2, fields: vec![] }
    ));
    let outcome = inspector_tick(&mut state, &mut panel, &selection, &store, &catalog);
    assert_eq!(outcome, TickOutcome::Rebuilt);
    assert_eq!(panel.sections.len(), 2);
}

#[test]
fn focused_input_is_never_overwritten() {
    let catalog = demo_catalog();
    let mut store = Store::new();
    let e = store.spawn(None, vec![transform_record("1.0")]);
    let mut state = InspectorState::new();
    let mut panel = InspectorPanel::new();
    let mut selection = EditorState::new();
    selection.select_entity(e);
    inspector_tick(&mut state, &mut panel, &selection, &store, &catalog);
    let input_id = panel.sections[0].rows[0].input_id;
    selection.focus_input(input_id);
    // The user types into the buffer.
    edit_focused(&mut panel, input_id, EditOp::Insert('9'));
    assert_eq!(panel.sections[0].rows[0].text, "1.09");
    // The underlying value changes concurrently; the refresh must not
    // fight the user.
    assert!(store.change_field(e, 1, "x", "7.0"));
    let outcome = inspector_tick(&mut state, &mut panel, &selection, &store, &catalog);
    assert_eq!(outcome, TickOutcome::Refreshed);
    assert_eq!(panel.sections[0].rows[0].text, "1.09");
    // After defocusing, the next refresh shows the live value again.
    selection.defocus();
    inspector_tick(&mut state, &mut panel, &selection, &store, &catalog);
    assert_eq!(panel.sections[0].rows[0].text, "7.0");
}

#[test]
fn commit_enqueues_the_buffered_text() {
    let catalog = demo_catalog();
    let mut store = Store::new();
    let e = store.spawn(None, vec![transform_record("1.0")]);
    let mut state = InspectorState::new();
    let mut panel = InspectorPanel::new();
    let mut selection = EditorState::new();
    selection.select_entity(e);
    inspector_tick(&mut state, &mut panel, &selection, &store, &catalog);
    let input_id = panel.sections[0].rows[0].input_id;
    selection.focus_input(input_id);
    edit_focused(&mut panel, input_id, EditOp::Backspace);
    edit_focused(&mut panel, input_id, EditOp::Backspace);
    edit_focused(&mut panel, input_id, EditOp::Backspace);
    edit_focused(&mut panel, input_id, EditOp::Insert('2'));
    edit_focused(&mut panel, input_id, EditOp::Insert('.'));
    edit_focused(&mut panel, input_id, EditOp::Insert('5'));
    assert_eq!(panel.sections[0].rows[0].text, "2.5");
    let mut queue = CommandQueue::new();
    assert!(commit_focused(&panel, &selection, &mut queue));
    let mut scene = scene_editor::commands::SceneInfo::new();
    queue.apply_all(&mut store, &catalog, &mut scene);
    match &store.entity_at(0).records[0].fields[0].value {
        FieldValue::FloatSingle(s) => assert_eq!(s, "2.5"),
        _ => panic!("wrong kind"),
    }
}

#[test]
fn deselecting_clears_the_panel() {
    let catalog = demo_catalog();
    let mut store = Store::new();
    let e = store.spawn(None, vec![transform_record("1.0")]);
    let mut state = InspectorState::new();
    let mut panel = InspectorPanel::new();
    let mut selection = EditorState::new();
    selection.select_entity(e);
    inspector_tick(&mut state, &mut panel, &selection, &store, &catalog);
    assert_eq!(panel.sections.len(), 1);
    let idle = EditorState::new();
    let outcome = inspector_tick(&mut state, &mut panel, &idle, &store, &catalog);
    assert_eq!(outcome, TickOutcome::Cleared);
    assert_eq!(panel.sections.len(), 0);
    let outcome2 = inspector_tick(&mut state, &mut panel, &idle, &store, &catalog);
    assert_eq!(outcome2, TickOutcome::Idle);
}

#[test]
fn add_component_search_state_resets_on_open() {
    let mut ui = InspectorUiState::new();
    ui.filter_push('x');
    assert!(!ui.is_adding_component);
    ui.toggle_adding();
    assert!(ui.is_adding_component);
    assert_eq!(ui.component_filter, "");
    ui.filter_push('t');
    ui.filter_push('r');
    assert_eq!(ui.component_filter, "tr");
    ui.filter_pop();
    assert_eq!(ui.component_filter, "t");
    ui.toggle_adding();
    assert!(!ui.is_adding_component);
}

#[test]
fn editor_overlay_toggles() {
    let mut config = scene_editor::inspect::EditorConfig::new();
    assert!(!config.show_editor);
    config.toggle();
    assert!(config.show_editor);
    config.toggle();
    assert!(!config.show_editor);
}

#[test]
fn focusing_a_field_closes_the_component_search() {
    let mut selection = EditorState::new();
    let mut ui = InspectorUiState::new();
    ui.toggle_adding();
    assert!(ui.is_adding_component);
    scene_editor::inspect::focus_field_input(&mut selection, &mut ui, 4);
    assert_eq!(selection.focused_input, Some(4));
    assert!(!ui.is_adding_component);
}

#[test]
fn stale_focus_is_cleared_when_its_row_is_gone() {
    let catalog = demo_catalog();
    let mut store = Store::new();
    let e = store.spawn(None, vec![transform_record("1.0")]);
    let mut state = InspectorState::new();
    let mut panel = InspectorPanel::new();
    let mut selection = EditorState::new();
    selection.select_entity(e);
    inspector_tick(&mut state, &mut panel, &selection, &store, &catalog);
    let input_id = panel.sections[0].rows[0].input_id;
    selection.focus_input(input_id);
    // The row still exists: the focus stays.
    scene_editor::inspect::clear_stale_focus(&mut selection, &panel);
    assert_eq!(selection.focused_input, Some(input_id));
    // A rebuild replaces every row; the old identity is gone.
    assert!(store.insert_record(e, Record { type_key: 2, fields: vec![] }));
    inspector_tick(&mut state, &mut panel, &selection, &store, &catalog);
    scene_editor::inspect::clear_stale_focus(&mut selection, &panel);
    assert_eq!(selection.focused_input, None);
}
