use srglib::descriptor::FieldData;
use srglib::descriptor::MethodData;
use srglib::descriptor::MethodSignature;
use srglib::format::csrg::CompactSrgMappingsFormat;
use srglib::format::srg::SrgMappingsFormat;
use srglib::mappings::frozen::FrozenMappings;
use srglib::types::JavaType;
use srglib::types::PrimitiveType;
use srglib::types::ReferenceType;

fn test_lines() -> Vec<String> {
    [
        "CL: org/spigotmc/XRay net/techcable/xray/XRay",
        "CL: org/spigotmc/XRay$Manager net/techcable/xray/XRayManager",
        "CL: org/spigotmc/XRay$Injector net/techcable/xray/injector/Injector",
        "CL: org/spigotmc/XRay$Injector$Manager net/techcable/xray/injector/InjectorManager",
        "CL: obfs net/techcable/minecraft/NoHax",
        "CL: obf4 net/techcable/minecraft/Player",
        "FD: obf4/a net/techcable/minecraft/Player/dead",
        "FD: obf4/b net/techcable/minecraft/Player/blood",
        "FD: obf4/c net/techcable/minecraft/Player/health",
        "FD: obf4/d net/techcable/minecraft/Player/speed",
        "FD: org/spigotmc/XRay$Injector$Manager/taco net/techcable/xray/injector/InjectorManager/seriousVariableName",
        "MD: obfs/a (Lobf4;ID)Z net/techcable/minecraft/NoHax/isHacking (Lnet/techcable/minecraft/Player;ID)Z",
        "MD: org/spigotmc/XRay/deobfuscate ([BLjava/util/Set;)I net/techcable/xray/XRay/doAFunkyDance ([BLjava/util/Set;)I",
        "MD: org/spigotmc/XRay$Manager/aquire ()Lorg/spigotmc/XRay; net/techcable/xray/XRayManager/get ()Lnet/techcable/xray/XRay;",
    ]
    .iter()
    .map(|l| l.to_string())
    .collect()
}

fn compact_test_lines() -> Vec<String> {
    [
        "org/spigotmc/XRay net/techcable/xray/XRay",
        "org/spigotmc/XRay$Manager net/techcable/xray/XRayManager",
        "org/spigotmc/XRay$Injector net/techcable/xray/injector/Injector",
        "org/spigotmc/XRay$Injector$Manager net/techcable/xray/injector/InjectorManager",
        "obfs net/techcable/minecraft/NoHax",
        "obf4 net/techcable/minecraft/Player",
        "obf4 a dead",
        "obf4 b blood",
        "obf4 c health",
        "obf4 d speed",
        "org/spigotmc/XRay$Injector$Manager taco seriousVariableName",
        "obfs a (Lobf4;ID)Z isHacking",
        "org/spigotmc/XRay deobfuscate ([BLjava/util/Set;)I doAFunkyDance",
        "org/spigotmc/XRay$Manager aquire ()Lorg/spigotmc/XRay; get",
    ]
    .iter()
    .map(|l| l.to_string())
    .collect()
}

fn check_parsed(result: &FrozenMappings) {
    assert_eq!(
        "net.techcable.xray.XRay",
        result.remap_class_name("org.spigotmc.XRay").name()
    );
    assert_eq!(
        "net.techcable.minecraft.Player",
        result.remap_class_name("obf4").name()
    );
    assert_eq!(
        MethodData::new(
            "isHacking".to_string(),
            ReferenceType::from_name("net.techcable.minecraft.NoHax"),
            MethodSignature::new(
                PrimitiveType::Boolean.into_type_descriptor(),
                vec![
                    ReferenceType::from_name("net.techcable.minecraft.Player")
                        .into_type_descriptor(),
                    PrimitiveType::Int.into_type_descriptor(),
                    PrimitiveType::Double.into_type_descriptor(),
                ],
            ),
        ),
        result.remap_method(&MethodData::new(
            "a".to_string(),
            ReferenceType::from_name("obfs"),
            MethodSignature::new(
                PrimitiveType::Boolean.into_type_descriptor(),
                vec![
                    ReferenceType::from_name("obf4").into_type_descriptor(),
                    PrimitiveType::Int.into_type_descriptor(),
                    PrimitiveType::Double.into_type_descriptor(),
                ],
            ),
        ))
    );
    assert_eq!(
        FieldData::new(
            "dead".to_string(),
            ReferenceType::from_name("net.techcable.minecraft.Player"),
        ),
        result.remap_field(&FieldData::new(
            "a".to_string(),
            ReferenceType::from_name("obf4")
        ))
    );
}

#[test]
fn compact_srg() {
    let lines = compact_test_lines();
    let parsed = CompactSrgMappingsFormat::parse_lines(&lines).unwrap();
    check_parsed(&parsed);
    let serialized = CompactSrgMappingsFormat::write_line_array(&parsed);
    let reparsed = CompactSrgMappingsFormat::parse_lines(&serialized).unwrap();
    assert_eq!(parsed, reparsed);
}

#[test]
fn srg() {
    let lines = test_lines();
    let parsed = SrgMappingsFormat::parse_lines(&lines).unwrap();
    check_parsed(&parsed);
    let serialized = SrgMappingsFormat::write_line_array(&parsed);
    let reparsed = SrgMappingsFormat::parse_lines(&serialized).unwrap();
    assert_eq!(parsed, reparsed);
}

#[test]
fn srg_packages() {
    let lines: Vec<String> = ["CL: a food", "CL: b bathroom", "PK: ./ net/minecraft/server"]
        .iter()
        .map(|l| l.to_string())
        .collect();
    let result = SrgMappingsFormat::parse_lines(&lines).unwrap();
    assert_eq!(
        result.remap_class_name("a").internal_name(),
        "net/minecraft/server/food"
    );
    assert_eq!(
        result.remap_class_name("b").internal_name(),
        "net/minecraft/server/bathroom"
    );
}

#[test]
fn compact_field_and_method_share_a_name() {
    // a three-column field line and a four-column method line, keyed on
    // the same class and name, stay distinct entries
    let lines: Vec<String> = ["obf4 a dead", "obf4 a (I)Z isHacking"]
        .iter()
        .map(|l| l.to_string())
        .collect();
    let parsed = CompactSrgMappingsFormat::parse_lines(&lines).unwrap();
    let class = ReferenceType::from_name("obf4");
    let field = parsed.remap_field(&FieldData::new("a".to_string(), class.clone()));
    assert_eq!(field.name(), "dead");
    let method = parsed.remap_method(&MethodData::new(
        "a".to_string(),
        class,
        MethodSignature::from_descriptor("(I)Z"),
    ));
    assert_eq!(method.name, "isHacking".to_string());
}

#[test]
fn invalid_lines_are_rejected() {
    let bad: Vec<String> = vec!["CL: only_one_token".to_string()];
    assert!(SrgMappingsFormat::parse_lines(&bad).is_err());
    let bad: Vec<String> = vec!["XX: what is this".to_string()];
    assert!(SrgMappingsFormat::parse_lines(&bad).is_err());
    let bad: Vec<String> = vec!["one".to_string()];
    assert!(CompactSrgMappingsFormat::parse_lines(&bad).is_err());
    let bad: Vec<String> = vec!["ok d".to_string(), "a b.c".to_string()];
    match CompactSrgMappingsFormat::parse_lines(&bad) {
        Err(srglib::format::MappingsParseError::InvalidLine { line, line_number, index, reason }) => {
            assert_eq!(line, "a b.c");
            assert_eq!(line_number, 2);
            // the offset points at the dot inside the second token
            assert_eq!(index, 3);
            assert!(reason.is_some());
        },
        _ => panic!("expected an invalid-line error"),
    }
    // a tab-indented member line before any class line names its fault
    let bad: Vec<String> = vec!["\ta b".to_string()];
    match srglib::format::tsrg::TabSrgMappingsFormat::parse_lines(&bad) {
        Err(srglib::format::MappingsParseError::InvalidLine { line_number, index, reason, .. }) => {
            assert_eq!(line_number, 1);
            assert_eq!(index, 1);
            assert_eq!(reason.as_deref(), Some("missing current class"));
        },
        _ => panic!("expected an invalid-line error"),
    }
    // comments and blank lines pass
    let fine: Vec<String> = vec!["# comment".to_string(), "".to_string(), "   ".to_string()];
    assert!(SrgMappingsFormat::parse_lines(&fine).is_ok());
}
