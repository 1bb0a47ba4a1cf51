use srglib::descriptor::FieldData;
use srglib::descriptor::MethodData;
use srglib::descriptor::MethodSignature;
use srglib::types::JavaType;
use srglib::types::PrimitiveType;
use srglib::types::ReferenceType;

#[test]
fn signature_round_trip() {
    let sig = MethodSignature::new(
        PrimitiveType::Boolean.into_type_descriptor(),
        vec![
            ReferenceType::from_name("net.techcable.minecraft.Player").into_type_descriptor(),
            PrimitiveType::Int.into_type_descriptor(),
            PrimitiveType::Double.into_type_descriptor(),
        ],
    );
    assert_eq!(sig.descriptor(), "(Lnet/techcable/minecraft/Player;ID)Z");
    let reparsed = MethodSignature::from_descriptor("(Lnet/techcable/minecraft/Player;ID)Z");
    assert_eq!(sig, reparsed);
    assert!(MethodSignature::parse_descriptor("(").is_none());
    assert!(MethodSignature::parse_descriptor("()").is_none());
    assert!(MethodSignature::parse_descriptor("(I)V ").is_none());
    assert!(MethodSignature::parse_descriptor("()V").is_some());
}

#[test]
fn member_identity() {
    let class = ReferenceType::from_name("obf4");
    let field = FieldData::new("a".to_string(), class.clone());
    assert_eq!(field.internal_name(), "obf4/a");
    assert_eq!(field.name(), "a");
    assert_eq!(field.declaring_type(), &class);
    let sig = MethodSignature::from_descriptor("(I)Z");
    let method = MethodData::new("a".to_string(), class.clone(), sig.clone());
    assert_eq!(method.internal_name(), "obf4/a");
    assert_eq!(method.signature(), &sig);
    // a field and a method may share a name and class yet stay distinct kinds
    let other_field = FieldData::new("a".to_string(), class);
    assert_eq!(field, other_field);
    assert_ne!(method.name, String::from("b"));
}
