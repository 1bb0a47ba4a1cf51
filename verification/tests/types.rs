use srglib::types::ArrayType;
use srglib::types::JavaType;
use srglib::types::PrimitiveType;
use srglib::types::ReferenceType;
use srglib::types::TypeDescriptor;

#[test]
fn test_internal_names() {
    assert_eq!(PrimitiveType::Byte.internal_name(), "byte");
    assert_eq!(ReferenceType::from_name("obf4").internal_name(), "obf4");
    assert_eq!(
        ReferenceType::from_name("org.spigotmc.XRay").internal_name(),
        "org/spigotmc/XRay"
    );
    assert_eq!(
        ArrayType::new(2, ReferenceType::from_name("org.spigotmc.XRay")).internal_name(),
        "org/spigotmc/XRay[][]"
    );
}

#[test]
fn array_flattening() {
    let array = ArrayType::new(2, ReferenceType::from_name("X"));
    assert_eq!(array.descriptor(), "[[LX;");
    assert_eq!(array.internal_name(), "X[][]");
    assert_eq!(array.name(), "X[][]");
}

#[test]
fn descriptor_round_trips() {
    for text in ["I", "Z", "Ljava/lang/String;", "[I", "[[Lab;", "V"] {
        let parsed = TypeDescriptor::parse_descriptor(text).unwrap();
        assert_eq!(parsed.descriptor(), text);
    }
    let parsed = ReferenceType::parse_descriptor("Lnet/minecraft/Entity;").unwrap();
    assert_eq!(parsed.descriptor(), "Lnet/minecraft/Entity;");
    let parsed = ArrayType::parse_descriptor("[[I").unwrap();
    assert_eq!(parsed.descriptor(), "[[I");
    let parsed = PrimitiveType::parse_descriptor("J").unwrap();
    assert_eq!(parsed.descriptor(), "J");
}

#[test]
fn descriptor_rejects_malformed() {
    assert!(TypeDescriptor::parse_descriptor("").is_none());
    assert!(TypeDescriptor::parse_descriptor("Lunterminated").is_none());
    assert!(TypeDescriptor::parse_descriptor("La.b;").is_none());
    assert!(TypeDescriptor::parse_descriptor("II").is_none());
    assert!(TypeDescriptor::parse_descriptor("[").is_none());
    assert!(TypeDescriptor::parse_descriptor("Q").is_none());
}

#[test]
fn split_and_package_names() {
    let t = ReferenceType::from_internal_name("java/lang/String");
    assert_eq!(t.package_name(), "java/lang");
    assert_eq!(t.simple_name(), "String");
    assert_eq!(t.name(), "java.lang.String");
    let bare = ReferenceType::from_internal_name("Loner");
    assert_eq!(bare.package_name(), "");
    assert_eq!(bare.simple_name(), "Loner");
}
