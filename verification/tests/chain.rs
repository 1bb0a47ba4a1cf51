use srglib::descriptor::FieldData;
use srglib::descriptor::MethodData;
use srglib::descriptor::MethodSignature;
use srglib::format::srg::SrgMappingsFormat;
use srglib::mappings::frozen::FrozenMappings;
use srglib::tables::Table;
use srglib::tables::TableItem;
use srglib::types::JavaType;
use srglib::types::ReferenceType;
use srglib::types::TypeDescriptor;

fn parse(lines: &[&str]) -> FrozenMappings {
    let owned: Vec<String> = lines.iter().map(|l| l.to_string()).collect();
    SrgMappingsFormat::parse_lines(&owned).unwrap()
}

#[test]
fn chain_simple() {
    let first = parse(&[
        "CL: aa Entity",
        "CL: ab Cow",
        "CL: ac EntityPlayer",
        "CL: ad World",
        "CL: ae Server",
    ]);
    let second = parse(&[
        "CL: af ForgetfulClass",
        "FD: Entity/a Entity/dead",
        "MD: Cow/a (LCow;)V Cow/love (LCow;)V",
        "MD: EntityPlayer/a (Ljava/lang/String;)V EntityPlayer/disconnect (Ljava/lang/String;)V",
        "FD: World/a World/time",
        "MD: World/a ()V World/tick ()V",
        "FD: Server/a Server/ticks",
        "MD: Server/a ()V Server/tick ()V",
    ]);
    let chained = first.chain(&second);
    let expected = parse(&[
        "CL: aa Entity",
        "CL: ab Cow",
        "CL: ac EntityPlayer",
        "CL: ad World",
        "CL: ae Server",
        "CL: af ForgetfulClass",
        "FD: ad/a World/time",
        "FD: aa/a Entity/dead",
        "MD: ab/a (Lab;)V net/minecraft/server/Cow/love (Lnet/minecraft/server/Cow;)V",
        "MD: ac/a (Ljava/lang/String;)V net/minecraft/server/EntityPlayer/disconnect (Ljava/lang/String;)V",
        "FD: ae/a net/minecraft/server/Server/ticks",
        "MD: ad/a ()V World/tick ()V",
        "MD: ae/a ()V net/minecraft/server/Server/tick ()V",
    ]);
    assert_eq!(expected, chained);
}

#[test]
fn chain_complex() {
    let first = parse(&[
        "CL: aa Entity",
        "CL: ab Cow",
        "CL: ac EntityPlayer",
        "CL: ad World",
        "CL: ae Server",
    ]);
    let second = parse(&[
        "CL: af ForgetfulClass",
        "FD: Entity/a Entity/dead",
        "MD: Cow/a (LCow;)V Cow/love (LCow;)V",
        "MD: EntityPlayer/a (Ljava/lang/String;)V EntityPlayer/disconnect (Ljava/lang/String;)V",
        "FD: World/a World/time",
        "MD: World/a ()V World/tick ()V",
        "FD: Server/a Server/ticks",
        "MD: Server/a ()V Server/tick ()V",
    ]);
    let third = parse(&[
        "CL: ForgetfulClass me/stupid/ChangedMind",
        "FD: World/time World/numTicks",
        "MD: World/tick ()V World/pulse ()V",
    ]);
    let chained: FrozenMappings = first.chain(&second).chain(&third);
    let mut packages: Table<String, String> = Table::new();
    packages.insert("".to_string(), "net/minecraft/server".to_string());
    let actual = chained.transform_packages(&packages);
    let expected = parse(&[
        "CL: aa net/minecraft/server/Entity",
        "CL: ab net/minecraft/server/Cow",
        "CL: ac net/minecraft/server/EntityPlayer",
        "CL: ad net/minecraft/server/World",
        "CL: ae net/minecraft/server/Server",
        "CL: af me/stupid/ChangedMind",
        "FD: aa/a net/minecraft/server/Entity/dead",
        "MD: ab/a (Lab;)V net/minecraft/server/Cow/love (Lnet/minecraft/server/Cow;)V",
        "MD: ac/a (Ljava/lang/String;)V net/minecraft/server/EntityPlayer/disconnect (Ljava/lang/String;)V",
        "FD: ad/a net/minecraft/server/World/numTicks",
        "MD: ad/a ()V net/minecraft/server/World/pulse ()V",
        "FD: ae/a net/minecraft/server/Server/ticks",
        "MD: ae/a ()V net/minecraft/server/Server/tick ()V",
    ]);
    assert_eq!(expected, actual);
}

#[test]
fn chain_keeps_oldest_original() {
    // renames class aa to Entity, then renames the field Entity/a: the
    // chained mapping must key the field by the oldest name aa
    let first = parse(&["CL: aa Entity"]);
    let second = parse(&["FD: Entity/a Entity/dead"]);
    let chained = first.chain(&second);
    let expected = parse(&["CL: aa Entity", "FD: aa/a Entity/dead"]);
    assert_eq!(expected, chained);
}

#[test]
fn invert_involutive() {
    let m = parse(&[
        "CL: aa Entity",
        "CL: ab Cow",
        "FD: aa/a Entity/dead",
        "MD: ab/a ()V Cow/love ()V",
    ]);
    let twice = m.inverted().inverted();
    assert_eq!(m, twice);
    // and the single inversion swaps the sides
    let once = m.inverted();
    let reparsed = parse(&[
        "CL: Entity aa",
        "CL: Cow ab",
        "FD: Entity/dead aa/a",
        "MD: Cow/love ()V ab/a ()V",
    ]);
    assert_eq!(reparsed, once);
}

#[test]
fn identity_remap() {
    let empty = FrozenMappings::empty();
    let k = ReferenceType::from_name("untouched");
    assert_eq!(empty.remap_class(&k), k);
    let f = FieldData::new("f".to_string(), k.clone());
    assert_eq!(empty.remap_field(&f), f);
    let m = MethodData::new("m".to_string(), k, MethodSignature::from_descriptor("(I)V"));
    assert_eq!(empty.remap_method(&m), m);
}

#[test]
fn rebuild_round_trip() {
    let m = parse(&[
        "CL: aa Entity",
        "FD: aa/a Entity/dead",
        "MD: aa/b ()V Entity/tick ()V",
    ]);
    let rebuilt = m.rebuild().frozen();
    assert_eq!(m, rebuilt);
}

#[test]
fn remap_type_propagates_nested_classes() {
    let m = parse(&["CL: aa Entity"]);
    let original = TypeDescriptor::parse_descriptor("[[Laa;").unwrap();
    assert_eq!(m.remap_type(&original).descriptor(), "[[LEntity;");
    let untouched = TypeDescriptor::parse_descriptor("I").unwrap();
    assert_eq!(m.remap_type(&untouched).descriptor(), "I");
}
