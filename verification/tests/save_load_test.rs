use scene_editor::catalog::{Catalog, TypeDescriptor};
use scene_editor::persist::save_to_text;
use scene_editor::record::{Field, Record};
use scene_editor::store::Store;
use scene_editor::value::FieldValue;

#[test]
fn test_save_flow_emits_resource_logic() {
    let mut catalog = Catalog::new();
    assert!(catalog.register(TypeDescriptor {
        key: 1,
        full_name: String::from("demo::Transform"),
        short_name: String::from("Transform"),
        attachable: true,
        default_constructible: true,
        reflectable: true,
        default_fields: vec![],
    }));
    let mut store = Store::new();
    store.spawn(
        None,
        vec![Record {
            type_key: 1,
            fields: vec![Field {
                name: String::from("x"),
                value: FieldValue::FloatSingle(String::from("0.0")),
            }],
        }],
    );
    let saved = save_to_text(&store, &catalog, &Vec::new(), &Vec::new())
        .expect("save should produce scene data");
    assert!(!saved.is_empty(), "Should have saved scene data to resource");
    assert!(
        saved.contains("Transform"),
        "Should contain Transform component data"
    );
}
