use srglib::descriptor::FieldData;
use srglib::mappings::simple::SimpleMappings;
use srglib::tables::LruCache;
use srglib::tables::Table;
use srglib::tables::TableItem;
use srglib::types::JavaType;
use srglib::types::ReferenceType;

#[test]
fn builder_set_clear_retain() {
    let mut builder = SimpleMappings::new();
    let a = ReferenceType::from_internal_name("a");
    let b = ReferenceType::from_internal_name("b");
    builder.set_remapped_class(a.clone(), ReferenceType::from_internal_name("Alpha"));
    builder.set_remapped_class(b.clone(), ReferenceType::from_internal_name("Beta"));
    builder.set_field_name(FieldData::new("x".to_string(), a.clone()), "ex".to_string());
    // last write wins, and the entry keeps its place
    builder.set_remapped_class(a.clone(), ReferenceType::from_internal_name("Anew"));
    assert_eq!(
        builder.get_remapped_class(&a).unwrap().internal_name(),
        "Anew"
    );
    builder.retain_classes(|k, _v| k.internal_name() == "b");
    assert!(builder.get_remapped_class(&a).is_none());
    assert!(builder.get_remapped_class(&b).is_some());
    builder.retain_fields(|_k, _v| false);
    builder.clear_classes();
    builder.clear_fields();
    builder.clear_methods();
    let frozen = builder.frozen();
    assert_eq!(frozen.class_count(), 0);
    assert_eq!(frozen.field_count(), 0);
    assert_eq!(frozen.method_count(), 0);
}

#[test]
fn table_ordering_and_overwrite() {
    let mut table: Table<String, String> = Table::new();
    table.insert("one".to_string(), "1".to_string());
    table.insert("two".to_string(), "2".to_string());
    table.insert("one".to_string(), "1b".to_string());
    assert_eq!(table.len(), 2);
    assert_eq!(table.index(0).1, "1b");
    assert_eq!(table.index(1).1, "2");
    assert_eq!(table.get(&"two".to_string()).unwrap(), "2");
    let inverted = table.inverted_tbl();
    assert_eq!(inverted.get(&"1b".to_string()).unwrap(), "one");
}

#[test]
fn lru_cache_insert() {
    let mut cache: LruCache<String, String> = LruCache::new(4);
    assert!(cache.insert("a".to_string(), "1".to_string()).is_none());
    assert_eq!(
        cache.insert("a".to_string(), "2".to_string()),
        Some("1".to_string())
    );
    assert_eq!(cache.get(&"a".to_string()).unwrap(), "2");
    assert_eq!(
        cache.get_or_insert_with("b".to_string(), || "3".to_string()),
        "3"
    );
    assert_eq!(
        cache.get_or_insert_with("b".to_string(), || "other".to_string()),
        "3"
    );
    assert_eq!(cache.len(), 2);
}

#[test]
fn builder_resolves_members_at_query_time() {
    let mut builder = SimpleMappings::new();
    let a = ReferenceType::from_internal_name("a");
    builder.set_field_name(FieldData::new("x".to_string(), a.clone()), "why".to_string());
    // the stored entry is stale until the class rename arrives
    let before = builder.get_remapped_field(&FieldData::new("x".to_string(), a.clone())).unwrap();
    assert_eq!(before.declaring_type().internal_name(), "a");
    builder.set_remapped_class(a.clone(), ReferenceType::from_internal_name("Alpha"));
    let after = builder.get_remapped_field(&FieldData::new("x".to_string(), a)).unwrap();
    assert_eq!(after.declaring_type().internal_name(), "Alpha");
    assert_eq!(after.name(), "why");
}
