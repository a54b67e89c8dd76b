use inko_rt::class::{Class, ClassId, ClassKind, ClassRegistry, MAX_FIELDS, MAX_METHODS};
use inko_rt::errors::RuntimeError;
use inko_rt::runtime::{inko_class_drop, inko_class_object, inko_class_process};

#[test]
fn registering_a_class_keeps_what_was_given() {
    let mut registry = ClassRegistry::new();
    let id = registry
        .register_class(String::from("Counter"), 1, 2, ClassKind::Object)
        .unwrap();
    assert_eq!(id, ClassId { index: 0 });
    let class = registry.get(id).unwrap();
    assert_eq!(class.name().as_str(), "Counter");
    assert_eq!(class.field_count(), 1);
    assert_eq!(class.method_table_size(), 2);
    assert_eq!(class.kind(), ClassKind::Object);
    assert_eq!(registry.issued(), 1);
}

#[test]
fn counts_out_of_range_are_rejected() {
    let mut registry = ClassRegistry::new();
    let too_many_fields =
        registry.register_class(String::from("A"), MAX_FIELDS + 1, 0, ClassKind::Object);
    assert_eq!(too_many_fields.err(), Some(RuntimeError::InvalidClass));
    let too_many_methods =
        registry.register_class(String::from("B"), 0, MAX_METHODS + 1, ClassKind::Process);
    assert_eq!(too_many_methods.err(), Some(RuntimeError::InvalidClass));
    assert_eq!(registry.issued(), 0);
    let widest = registry.register_class(String::from("C"), MAX_FIELDS, MAX_METHODS, ClassKind::Object);
    assert_eq!(widest.ok(), Some(ClassId { index: 0 }));
}

#[test]
fn identifiers_rise_and_are_not_reused() {
    let mut registry = ClassRegistry::new();
    let a = registry.register_class(String::from("A"), 0, 0, ClassKind::Object).unwrap();
    let b = registry.register_class(String::from("B"), 0, 0, ClassKind::Process).unwrap();
    assert_eq!((a.index, b.index), (0, 1));
    let dropped = registry.drop_class(a).ok().unwrap();
    assert_eq!(dropped.name().as_str(), "A");
    assert!(registry.get(a).is_none());
    assert!(registry.get(b).is_some());
    let c = registry.register_class(String::from("C"), 0, 0, ClassKind::Object).unwrap();
    assert_eq!(c.index, 2);
    assert!(registry.get(a).is_none());
}

#[test]
fn dropping_twice_is_an_error() {
    let mut registry = ClassRegistry::new();
    let a = registry.register_class(String::from("A"), 3, 4, ClassKind::Object).unwrap();
    assert!(registry.drop_class(a).is_ok());
    assert_eq!(registry.drop_class(a).err(), Some(RuntimeError::InvalidClass));
    assert_eq!(registry.drop_class(ClassId { index: 99 }).err(), Some(RuntimeError::InvalidClass));
}

#[test]
fn clearing_releases_every_class() {
    let mut registry = ClassRegistry::new();
    let a = registry.register_class(String::from("A"), 0, 0, ClassKind::Object).unwrap();
    let b = registry.register_class(String::from("B"), 0, 0, ClassKind::Object).unwrap();
    registry.clear();
    assert!(registry.get(a).is_none());
    assert!(registry.get(b).is_none());
    assert_eq!(registry.issued(), 2);
}

#[test]
fn class_constructors_set_the_kind() {
    let object = Class::object(String::from("O"), 7, 9);
    assert_eq!(object.kind(), ClassKind::Object);
    assert_eq!(object.field_count(), 7);
    assert_eq!(object.method_table_size(), 9);
    let process = Class::process(String::from("P"), 0, 65535);
    assert_eq!(process.kind(), ClassKind::Process);
    assert_eq!(process.method_table_size(), 65535);
    assert_eq!(process.name().as_str(), "P");
}

#[test]
fn boundary_registers_object_classes() {
    let mut registry = ClassRegistry::new();
    let id = inko_class_object(&mut registry, b"Counter", 1, 2);
    let class = registry.get(id).unwrap();
    assert_eq!(class.name().as_str(), "Counter");
    assert_eq!(class.kind(), ClassKind::Object);
    assert_eq!(class.field_count(), 1);
    assert_eq!(class.method_table_size(), 2);
}

#[test]
fn boundary_registers_process_classes() {
    let mut registry = ClassRegistry::new();
    let id = inko_class_process(&mut registry, b"Main", 255, 65535);
    let class = registry.get(id).unwrap();
    assert_eq!(class.name().as_str(), "Main");
    assert_eq!(class.kind(), ClassKind::Process);
    assert_eq!(class.field_count(), 255);
    assert_eq!(class.method_table_size(), 65535);
}

#[test]
fn invalid_utf8_in_a_name_is_replaced() {
    let mut registry = ClassRegistry::new();
    let id = inko_class_object(&mut registry, &[b'A', 0xff, b'B'], 0, 0);
    assert_eq!(registry.get(id).unwrap().name().as_str(), "A\u{fffd}B");
    let id = inko_class_object(&mut registry, &[0xe2, 0x82, 0xac], 0, 0);
    assert_eq!(registry.get(id).unwrap().name().as_str(), "\u{20ac}");
    let id = inko_class_object(&mut registry, &[0xe2, 0x82], 0, 0);
    assert_eq!(registry.get(id).unwrap().name().as_str(), "\u{fffd}");
    let id = inko_class_object(&mut registry, b"", 0, 0);
    assert_eq!(registry.get(id).unwrap().name().as_str(), "");
}

#[test]
fn boundary_drop_releases_the_class() {
    let mut registry = ClassRegistry::new();
    let a = inko_class_object(&mut registry, b"A", 0, 0);
    let b = inko_class_process(&mut registry, b"B", 0, 0);
    inko_class_drop(&mut registry, a);
    assert!(registry.get(a).is_none());
    assert!(registry.get(b).is_some());
    inko_class_drop(&mut registry, a);
    inko_class_drop(&mut registry, ClassId { index: 1000 });
    assert!(registry.get(b).is_some());
    assert_eq!(registry.issued(), 2);
}
