use srglib::descriptor::FieldData;
use srglib::descriptor::MethodData;
use srglib::descriptor::MethodSignature;
use srglib::format::tsrg::TabSrgMappingsFormat;
use srglib::mappings::frozen::FrozenMappings;
use srglib::mappings::simple::SimpleMappings;
use srglib::types::ReferenceType;

fn test_text() -> String {
    let mut text = String::new();
    text.push_str("a net/minecraft/util/text/TextFormatting\n");
    text.push_str("\ta BLACK\n");
    text.push_str("\tb DARK_BLUE\n");
    text.push_str("\tv RESET\n");
    text.push_str("\tw field_96331_x\n");
    text.push_str("\tC field_175747_C\n");
    text.push_str("\tD field_211167_D\n");
    text.push_str("\tE $VALUES\n");
    text.push_str("\ta (C)La; func_211165_a\n");
    text.push_str("\ta (I)La; func_175744_a\n");
    text.push_str("\td ()Z func_96302_c\n");
    text.push_str("\td (Ljava/lang/String;)Ljava/lang/String; func_175745_c\n");
    text.push_str("\te ()Ljava/lang/Integer; func_211163_e\n");
    text.push_str("\tf ()Z func_211166_f\n");
    text.push_str("\tg ()Ljava/lang/String; func_96297_d\n");
    text.push_str("\tvalues ()[La; values\n");
    text.push_str("\tvalueOf (Ljava/lang/String;)La; valueOf\n");
    text.push_str("b net/minecraft/crash/CrashReport\n");
    text.push_str("\ta field_147150_a\n");
    text.push_str("\tb field_71513_a\n");
    text.push_str("\th field_85060_g\n");
    text.push_str("\ta ()Ljava/lang/String; func_71501_a\n");
    text.push_str("\ta (Ljava/io/File;)Z func_147149_a\n");
    text.push_str("\ta (Ljava/lang/String;)Lc; func_85058_a\n");
    text.push_str("\ta (Ljava/lang/String;I)Lc; func_85057_a\n");
    text.push_str("\tl ()Ljava/lang/String; func_210201_l\n");
    text.push_str("\to ()Ljava/lang/String; func_210206_o\n");
    text
}

fn set_field(builder: &mut SimpleMappings, class: &ReferenceType, from: &str, to: &str) {
    builder.set_field_name(
        FieldData::new(from.to_string(), class.clone()),
        to.to_string(),
    );
}

fn set_method(builder: &mut SimpleMappings, class: &ReferenceType, from: &str, sig: &str, to: &str) {
    builder.set_method_name(
        MethodData::new(
            from.to_string(),
            class.clone(),
            MethodSignature::from_descriptor(sig),
        ),
        to.to_string(),
    );
}

fn expected_mappings() -> FrozenMappings {
    let mut builder = SimpleMappings::new();
    let a = ReferenceType::from_internal_name("a");
    builder.set_remapped_class(
        a.clone(),
        ReferenceType::from_internal_name("net/minecraft/util/text/TextFormatting"),
    );
    set_field(&mut builder, &a, "a", "BLACK");
    set_field(&mut builder, &a, "b", "DARK_BLUE");
    set_field(&mut builder, &a, "v", "RESET");
    set_field(&mut builder, &a, "w", "field_96331_x");
    set_field(&mut builder, &a, "C", "field_175747_C");
    set_field(&mut builder, &a, "D", "field_211167_D");
    set_field(&mut builder, &a, "E", "$VALUES");
    set_method(&mut builder, &a, "a", "(C)La;", "func_211165_a");
    set_method(&mut builder, &a, "a", "(I)La;", "func_175744_a");
    set_method(&mut builder, &a, "d", "()Z", "func_96302_c");
    set_method(
        &mut builder,
        &a,
        "d",
        "(Ljava/lang/String;)Ljava/lang/String;",
        "func_175745_c",
    );
    set_method(&mut builder, &a, "e", "()Ljava/lang/Integer;", "func_211163_e");
    set_method(&mut builder, &a, "f", "()Z", "func_211166_f");
    set_method(&mut builder, &a, "g", "()Ljava/lang/String;", "func_96297_d");
    set_method(&mut builder, &a, "values", "()[La;", "values");
    set_method(&mut builder, &a, "valueOf", "(Ljava/lang/String;)La;", "valueOf");
    let b = ReferenceType::from_internal_name("b");
    builder.set_remapped_class(
        b.clone(),
        ReferenceType::from_internal_name("net/minecraft/crash/CrashReport"),
    );
    set_field(&mut builder, &b, "a", "field_147150_a");
    set_field(&mut builder, &b, "b", "field_71513_a");
    set_field(&mut builder, &b, "h", "field_85060_g");
    set_method(&mut builder, &b, "a", "()Ljava/lang/String;", "func_71501_a");
    set_method(&mut builder, &b, "a", "(Ljava/io/File;)Z", "func_147149_a");
    set_method(&mut builder, &b, "a", "(Ljava/lang/String;)Lc;", "func_85058_a");
    set_method(&mut builder, &b, "a", "(Ljava/lang/String;I)Lc;", "func_85057_a");
    set_method(&mut builder, &b, "l", "()Ljava/lang/String;", "func_210201_l");
    set_method(&mut builder, &b, "o", "()Ljava/lang/String;", "func_210206_o");
    builder.frozen()
}

#[test]
fn parse() {
    let parsed = TabSrgMappingsFormat::parse_text(test_text().as_str()).unwrap();
    assert_eq!(parsed, expected_mappings());
}

#[test]
fn serialize() {
    let serialized = TabSrgMappingsFormat::write_string(&expected_mappings());
    if serialized != test_text() {
        panic!("serialized != test text:\n{}", serialized);
    }
}
