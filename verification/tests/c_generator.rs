//! The C emitter, from definitions to text.
use blueberry_codegen::ast::{
    Annotation, AnnotationParam, Commented, ConstValue, Definition, EnumDef, EnumMember,
    IntegerBase, IntegerLiteral, Member, MessageDef, ModuleDef, StructDef, Type, TypeDef,
    UnaryOperator,
};
use blueberry_codegen::c::context::Context;
use blueberry_codegen::c::docs::clean_doc_line;
use blueberry_codegen::c::generate::{generate, try_generate, HEADER_PATH, SOURCE_PATH};
use blueberry_codegen::c::layout::{
    align_up, align_up_checked, compute_aligned_struct_size, compute_body_length, place_slots, Slot,
};
use blueberry_codegen::c::macros::{
    collect_index_macros, combined_key, primitive_element_byte_count,
};
use blueberry_codegen::c::model::{
    Failure, MessageFieldKind, MessageFieldModel, MessageModel, SequenceElement,
    MESSAGE_HEADER_BYTES,
};
use blueberry_codegen::c::builder::enum_value_literal;
use blueberry_codegen::c::names::{
    enum_typedef_name, titlecase_words, to_screaming_snake, to_snake_case,
};
use blueberry_codegen::c::tables::{lookup, Tables};
use blueberry_codegen::c::topic::quoted_topic;
use blueberry_codegen::c::types::{c_type_name, enum_or_scalar_base, helper_pair, ResolvedScalar};
use blueberry_codegen::common::builtins::{integer_names, names_used, Builtin};
use blueberry_codegen::common::errors::CodegenError;

fn strings(parts: &[&str]) -> Vec<String> {
    parts.iter().map(|s| s.to_string()).collect()
}

fn named(name: &str) -> Type {
    Type::ScopedName(strings(&[name]))
}

fn sequence_of(element: Type) -> Type {
    Type::Sequence { element_type: Box::new(element), size: None }
}

fn number(value: i128) -> ConstValue {
    ConstValue::Integer(IntegerLiteral::new(value, IntegerBase::Hexadecimal))
}

fn annotation(name: &str, value: ConstValue) -> Annotation {
    Annotation { name: strings(&[name]), params: vec![AnnotationParam::Positional(value)] }
}

fn topic(text: &str) -> Annotation {
    annotation("topic", ConstValue::String(text.to_string()))
}

fn bare<T>(node: T) -> Commented<T> {
    Commented { id: 0, node, annotations: Vec::new(), comments: Vec::new() }
}

fn member(name: &str, type_: Type) -> Commented<Member> {
    bare(Member { name: name.to_string(), type_ })
}

fn module(name: &str, annotations: Vec<Annotation>, definitions: Vec<Definition>) -> Definition {
    Definition::ModuleDef(Commented {
        id: 0,
        node: ModuleDef { name: name.to_string(), definitions },
        annotations,
        comments: Vec::new(),
    })
}

fn message(name: &str, annotations: Vec<Annotation>, members: Vec<Commented<Member>>) -> Definition {
    Definition::MessageDef(Commented {
        id: 0,
        node: MessageDef { name: name.to_string(), base: None, members },
        annotations,
        comments: Vec::new(),
    })
}

fn structure(name: &str, members: Vec<Commented<Member>>) -> Definition {
    Definition::StructDef(bare(StructDef { name: name.to_string(), members }))
}

fn alias(name: &str, base_type: Type) -> Definition {
    Definition::TypeDef(bare(TypeDef { name: name.to_string(), base_type }))
}

fn enumeration(name: &str, base_type: Option<Type>, values: &[(&str, i128)]) -> Definition {
    let enumerators = values
        .iter()
        .map(|(name, value)| EnumMember {
            name: name.to_string(),
            value: Some(number(*value)),
            comments: Vec::new(),
        })
        .collect();
    Definition::EnumDef(bare(EnumDef { name: name.to_string(), base_type, enumerators }))
}

fn devices(definitions: Vec<Definition>) -> Vec<Definition> {
    vec![module(
        "Blueberry",
        vec![annotation("module_key", number(0x4244))],
        vec![module("Devices", Vec::new(), definitions)],
    )]
}

fn version_members() -> Vec<Commented<Member>> {
    vec![
        member("firmwareVersion", named("uint32")),
        member("hardwareRev", named("uint8")),
        member("hardwareType", named("HwType")),
        member("mcuType", named("McuType")),
    ]
}

fn collected(definitions: &[Definition]) -> Vec<MessageModel> {
    let builtins = integer_names();
    let mut context = Context::new(&builtins);
    context.collect(definitions, &Vec::new(), None).unwrap();
    context.messages
}

fn header_and_source(definitions: &[Definition]) -> (String, String) {
    let mut files = generate(definitions).unwrap();
    assert_eq!(files.len(), 2);
    let source = files.pop().unwrap();
    let header = files.pop().unwrap();
    assert_eq!(header.path, "inc/blueberry_devices.h");
    assert_eq!(source.path, "src/blueberry_devices.c");
    (header.contents, source.contents)
}

fn failure(definitions: &[Definition]) -> Failure {
    try_generate(definitions, &integer_names()).unwrap_err()
}

#[test]
fn version_message_matches_legacy_shape() {
    let defs = devices(vec![
        enumeration(
            "HwType",
            Some(Type::UnsignedShort),
            &[("UNDEFINED", 0xffff), ("LEGACY", 0x0000), ("BLUE_SERVO", 0x0001)],
        ),
        enumeration("McuType", Some(Type::Octet), &[("UNDEFINED", 0xff), ("STM32F446", 0x01)]),
        message(
            "VersionMessage",
            vec![
                topic("blueberry/devices/{device_type}/{nid}/version"),
                annotation("message_key", number(0x8366)),
            ],
            version_members(),
        ),
    ]);
    let files = generate(&defs).unwrap();
    assert_eq!(files.len(), 2);
    let header = &files[0].contents;
    let source = &files[1].contents;

    assert!(header.contains("#define BLUEBERRY_DEVICES_VERSION_MESSAGE_KEY (0x42448366)"));
    assert!(header.contains("HwTypeEnum"));
    assert!(header.contains("McuTypeEnum"));
    assert!(!header.contains("BLUEBERRY_BLUEBERRY_"));
    assert!(header.contains("BbBlock addVersionMessage(Bb * buf, uint32_t firmwareVersion, uint8_t hardwareRev, HwTypeEnum hardwareType, McuTypeEnum mcuType);"));

    assert!(source.contains("#define VERSION_MESSAGE_LENGTH (16)"));
    assert!(source.contains("#define VERSION_MESSAGE_FIRMWARE_VERSION_INDEX (8)"));
    assert!(source.contains("#define VERSION_MESSAGE_HARDWARE_REV_INDEX (12)"));
    assert!(source.contains("#define VERSION_MESSAGE_MCU_TYPE_INDEX (13)"));
    assert!(source.contains("#define VERSION_MESSAGE_HARDWARE_TYPE_INDEX (14)"));
    assert!(source.contains("#define VERSION_MESSAGE_FIRMWARE_VERSION_ORDINAL (3)"));
    assert!(source.contains("#define VERSION_MESSAGE_HARDWARE_REV_ORDINAL (4)"));
    assert!(source.contains("#define VERSION_MESSAGE_HARDWARE_TYPE_ORDINAL (5)"));
    assert!(source.contains("#define VERSION_MESSAGE_MCU_TYPE_ORDINAL (6)"));
    assert!(source.contains("#define VERSION_MESSAGE_MAX_ORDINAL (6)"));
    assert!(source.contains("#define VERSION_MESSAGE_MODULE_MESSAGE_KEY (0x42448366)"));

    assert!(source.contains("const char VERSION_MESSAGE_TOPIC[]"));
    assert!(source.contains("blueberry/devices/\\x81/\\x80/version"));
}

#[test]
fn version_message_add_body_matches_legacy() {
    let defs = devices(vec![
        enumeration("HwType", Some(Type::UnsignedShort), &[("UNDEFINED", 0xffff)]),
        enumeration("McuType", Some(Type::Octet), &[("UNDEFINED", 0xff)]),
        message(
            "VersionMessage",
            vec![
                topic("blueberry/devices/{device_type}/{nid}/version"),
                annotation("message_key", number(0x8366)),
            ],
            version_members(),
        ),
    ]);
    let files = generate(&defs).unwrap();
    let source = &files[1].contents;

    let expected = "BbBlock addVersionMessage(Bb * buf, uint32_t firmwareVersion, uint8_t hardwareRev, HwTypeEnum hardwareType, McuTypeEnum mcuType){\n\
\tBbBlock msg = buf->length;\n\
\t//Extend buffer to include the main message body before writing it\n\
\tbuf->length = msg + VERSION_MESSAGE_LENGTH;\n\
\tsetBbUint32(buf, msg, VERSION_MESSAGE_MODULE_MESSAGE_KEY_INDEX, VERSION_MESSAGE_MODULE_MESSAGE_KEY);\n\
\tsetBbUint16(buf, msg, VERSION_MESSAGE_LENGTH_INDEX, VERSION_MESSAGE_LENGTH/4);//length field is measured in 4-byte words\n\
\tsetBbUint8(buf, msg, VERSION_MESSAGE_MAX_ORDINAL_INDEX, VERSION_MESSAGE_MAX_ORDINAL);\n\
\tsetBbUint32(buf, msg, VERSION_MESSAGE_FIRMWARE_VERSION_INDEX, firmwareVersion);\n\
\tsetBbUint8(buf, msg, VERSION_MESSAGE_HARDWARE_REV_INDEX, hardwareRev);\n\
\tsetBbUint16(buf, msg, VERSION_MESSAGE_HARDWARE_TYPE_INDEX, hardwareType);\n\
\tsetBbUint8(buf, msg, VERSION_MESSAGE_MCU_TYPE_INDEX, mcuType);\n\
\treturn msg;\n\
}";
    assert!(source.contains(expected), "addVersionMessage body diverged from legacy ABI.\nGenerated:\n{}", source);
}

#[test]
fn manifest_messages_emit_new_symbols() {
    let defs = devices(vec![
        message(
            "ManifestSummaryMessage",
            vec![
                topic("blueberry/devices/{device_type}/{nid}/manifest-summary"),
                annotation("message_key", number(0x9100)),
            ],
            vec![
                member("schemaVersion", named("uint16")),
                member("manifestCrc", named("uint32")),
                member("totalParts", named("uint16")),
            ],
        ),
        message(
            "GetManifestMessage",
            vec![
                topic("blueberry/devices/{device_type}/{nid}/get-manifest"),
                annotation("message_key", number(0x9101)),
            ],
            vec![
                member("sinceCrc", named("uint32")),
                member("fromPartIndex", named("uint16")),
            ],
        ),
    ]);
    let files = generate(&defs).unwrap();
    let header = &files[0].contents;
    assert!(header.contains("#define BLUEBERRY_DEVICES_MANIFEST_SUMMARY_MESSAGE_KEY (0x42449100)"));
    assert!(header.contains("#define BLUEBERRY_DEVICES_GET_MANIFEST_MESSAGE_KEY (0x42449101)"));
    assert!(header.contains("BbBlock addManifestSummaryMessage(Bb * buf,"));
    assert!(header.contains("BbBlock addGetManifestMessage(Bb * buf,"));
    assert!(header.contains("uint32_t getGetManifestMessageSinceCrc(Bb * buf, BbBlock msg );"));
    assert!(header.contains("uint16_t getGetManifestMessageFromPartIndex(Bb * buf, BbBlock msg );"));
}

#[test]
fn empty_input_gives_two_empty_files() {
    let (header, source) = header_and_source(&[]);
    assert!(header.starts_with("/*\n * Copyright (c) 2025 Blue Robotics North Inc.\n * \n"));
    assert!(header.ends_with("//Function Prototypes\n//*************************************************************************************\n\n\n\n#endif\n"));
    assert!(header.contains("\n#ifndef _BLUEBERRY_DEVICES_MODULE_\n#define _BLUEBERRY_DEVICES_MODULE_\n\n\n"));
    assert!(source.contains("\n#include <blueberry_devices.h>\n#include <blueberry-message.h>\n\n"));
    assert!(source.contains("\n//Add message field indeces\n\n//Add message field ordinals\n\n//Add message max ordinals"));
    assert!(!source.contains("//Add message boolean field masks"));
    assert!(!source.contains("//Add sequence element byte count"));
    assert!(source.ends_with("//Source\n//*************************************************************************************\n\n\n"));
    assert_eq!(HEADER_PATH, "inc/blueberry_devices.h");
    assert_eq!(SOURCE_PATH, "src/blueberry_devices.c");
}

#[test]
fn scalar_field_text_is_exact() {
    let mut m = Commented {
        id: 0,
        node: MessageDef { name: "Ping".to_string(), base: None, members: Vec::new() },
        annotations: vec![topic("p")],
        comments: vec![" * A ping. ".to_string()],
    };
    let mut flag = member("isOn", Type::Boolean);
    flag.comments.push("* whether it is on".to_string());
    flag.comments.push("second line".to_string());
    m.node.members.push(flag);
    let (header, source) = header_and_source(&[Definition::MessageDef(m)]);
    let prototypes = "/**\n * Adds a Ping to the end of the current buffer\n * A ping.\n * @param buf - the message buffer to add the message to\n * @param isOn - whether it is on\n * @returns - the index of the new message.\n */\n\
BbBlock addPing(Bb * buf, bool isOn);\n\
/**\n * Tests if the current message has no fields present.\n * A ping.\n */\n\
bool isPingEmpty(Bb * buf, BbBlock msg);\n\
/**\n * Tests if the current message has all defined fields present.\n * A ping.\n */\n\
bool isPingFull(Bb * buf, BbBlock msg);\n\
/**\n * A getter for the isOn field\n * whether it is on\n * second line\n */\n\
bool isPingIsOn(Bb * buf, BbBlock msg );\n\
/**\n * Tests if the current message containts the isOn field\n * whether it is on\n * second line\n */\n\
bool isPingIsOnPresent(Bb * buf, BbBlock msg );\n\
\n#endif\n";
    assert!(header.ends_with(prototypes), "{}", header);
    let body = "bool isPingIsOn(Bb * buf, BbBlock msg ){\n\
\tuint16_t i = 0;\n\
\ti += PING_IS_ON_INDEX;\n\
\treturn getBbBool(buf, msg, i, PING_IS_ON_MASK);\n\
}\n";
    assert!(source.contains(body));
    assert!(source.contains("\tsetBbBool(buf, msg, PING_IS_ON_INDEX, PING_IS_ON_MASK, isOn);\n"));
    assert!(source.contains("\n//Add message boolean field masks\n#define PING_IS_ON_MASK (1 << 0)\n"));
    assert!(source.contains("bool isPingEmpty(Bb * buf, BbBlock msg){\n\treturn getBbMessageMaxOrdinal(buf, msg) <= 2;//will always be length and ordinal fields\n}\n"));
    assert!(source.contains("bool isPingFull(Bb * buf, BbBlock msg){\n\treturn getBbMessageMaxOrdinal(buf, msg) >= PING_MAX_ORDINAL;\n}\n"));
    assert!(source.contains("bool isPingIsOnPresent(Bb * buf, BbBlock msg ){\n\treturn PING_IS_ON_ORDINAL <= (getBbMessageMaxOrdinal(buf, msg));\n}\n"));
    assert!(header.contains("\n//Message keys\n#define PING_KEY (0x00000000)\n//Numerical & Boolean Constants\n"));
    assert!(header.contains("extern const char PING_TOPIC[];\n"));
    assert!(source.contains("const char PING_TOPIC[] = \"p\";\n"));
}

#[test]
fn sequences_of_structures_have_element_accessors() {
    let defs = [
        structure(
            "Point",
            vec![
                member("valid", Type::Boolean),
                member("x", Type::Float),
                member("y0", Type::Short),
            ],
        ),
        message("Cloud", vec![topic("c")], vec![member("pointList", sequence_of(named("Point")))]),
    ];
    let (header, source) = header_and_source(&defs);
    assert!(source.contains("#define CLOUD_POINT_LIST_PLACEHOLDER_INDEX (8)\n"));
    assert!(source.contains("#define CLOUD_POINT_LIST_VALID_INDEX (0)\n"));
    assert!(source.contains("#define CLOUD_POINT_LIST_X_INDEX (4)\n"));
    assert!(source.contains("#define CLOUD_POINT_LIST_Y_0_INDEX (8)\n"));
    assert!(source.contains("#define CLOUD_POINT_LIST_PLACEHOLDER_ORDINAL (3)\n"));
    assert!(source.contains("#define CLOUD_POINT_LIST_X_ORDINAL (3)\n"));
    assert!(source.contains("#define CLOUD_POINT_LIST_VALID_MASK (1 << 0)\n"));
    assert!(source.contains("#define CLOUD_POINT_LIST_PLACEHOLDER_SEQUENCE_ELEMENT_BYTE_COUNT (12)\n"));
    assert!(source.contains("#define CLOUD_LENGTH (12)\n"));
    assert!(source.contains("\tsetBbUint16(buf, msg, CLOUD_POINT_LIST_PLACEHOLDER_INDEX, BB_INVALID_BLOCK);//clear sequence header\n"));
    assert!(header.contains("BbBlock addCloud(Bb * buf);\n"));
    assert!(header.contains("bool isCloudPointListValid(Bb * buf, BbBlock msg , uint32_t i0);\n"));
    assert!(header.contains("float getCloudPointListX(Bb * buf, BbBlock msg , uint32_t i0);\n"));
    assert!(header.contains("/**\n * A setter for the x field\n * @param buf - the message buffer to add the message to\n * @param msg - the index of the start of the message\n * @param i0 - index of pointList sequence.\n * @param x\n */\nvoid setCloudPointListX(Bb * buf, BbBlock msg , uint32_t i0, float x);\n"));
    assert!(header.contains("/**\n * A function to initialize a Point List Sequence\n */\nvoid initCloudPointList(Bb * buf, BbBlock msg, uint32_t n);\n"));
    assert!(source.contains("bool isCloudPointListValid(Bb * buf, BbBlock msg , uint32_t i0){\n\
\tuint16_t i = 0;\n\
\ti += CLOUD_POINT_LIST_PLACEHOLDER_INDEX;\n\
\ti = getBbSequenceElementIndex(buf, msg, i, i0);\n\
\ti += CLOUD_POINT_LIST_VALID_INDEX;\n\
\treturn getBbBool(buf, msg, i, CLOUD_POINT_LIST_VALID_MASK);\n\
}\n"));
    assert!(source.contains("void setCloudPointListX(Bb * buf, BbBlock msg , uint32_t i0, float x){\n\
\tuint16_t i = 0;\n\
\ti += CLOUD_POINT_LIST_PLACEHOLDER_INDEX;\n\
\ti = getBbSequenceElementIndex(buf, msg, i, i0);\n\
\ti += CLOUD_POINT_LIST_X_INDEX;\n\
\tif(isBbBlockInvalid(i)){\n\
\t\treturn;//bail because a sequence was not initialized\n\
\t}\n\
\tsetBbFloat32(buf, msg, i, x);\n\
}\n"));
    assert!(source.contains("void initCloudPointList(Bb * buf, BbBlock msg, uint32_t n){\n\
\tuint16_t i = 0;\n\
\ti += CLOUD_POINT_LIST_PLACEHOLDER_INDEX;\n\
\tif(isBbBlockInvalid(i)){\n\
\t\treturn;//bail because a sequence was not initialized\n\
\t}\n\
\t//i is now the index of this sequence field header\n\
\tuint32_t bs = CLOUD_POINT_LIST_PLACEHOLDER_SEQUENCE_ELEMENT_BYTE_COUNT; //the 4 is to account for the length field that precedes the sequence data\n\
\tinitBbSequence(buf, msg, i, bs, n);\n\
}\n"));
    assert!(source.contains("uint32_t getCloudPointListSequenceLength(Bb * buf, BbBlock msg){\n\
\tuint16_t i = 0;\n\
\ti += CLOUD_POINT_LIST_PLACEHOLDER_INDEX;\n\
\tif(isBbBlockInvalid(i)){\n\
\t\treturn 0;//bail because a sequence was not initialized\n\
\t}\n\
\t//i is now the index of this sequence field header\n\
\treturn getBbSequenceLength(buf, msg, i);\n\
}\n"));
}

#[test]
fn sequences_of_primitives_have_element_accessors() {
    let defs = [
        enumeration("Mode", Some(Type::Octet), &[("A", 1)]),
        message(
            "Samples",
            vec![topic("s")],
            vec![
                member("values", sequence_of(named("uint16"))),
                member("modes", sequence_of(named("Mode"))),
            ],
        ),
    ];
    let (header, source) = header_and_source(&defs);
    assert!(header.contains("uint16_t getSamplesValues(Bb * buf, BbBlock msg , uint32_t i0);\n"));
    assert!(header.contains("void setSamplesModes(Bb * buf, BbBlock msg , uint32_t i0, ModeEnum modes);\n"));
    assert!(source.contains("#define SAMPLES_VALUES_INDEX (0)\n"));
    assert!(!source.contains("_DATA_INDEX"));
    assert!(source.contains("#define SAMPLES_VALUES_DATA_ORDINAL (3)\n"));
    assert!(source.contains("#define SAMPLES_MODES_PLACEHOLDER_INDEX (12)\n"));
    assert!(source.contains("#define SAMPLES_VALUES_PLACEHOLDER_SEQUENCE_ELEMENT_BYTE_COUNT (2)\n"));
    assert!(source.contains("#define SAMPLES_MODES_PLACEHOLDER_SEQUENCE_ELEMENT_BYTE_COUNT (1)\n"));
    assert!(source.contains("uint16_t getSamplesValues(Bb * buf, BbBlock msg , uint32_t i0){\n\
\tuint16_t i = 0;\n\
\ti += SAMPLES_VALUES_PLACEHOLDER_INDEX;\n\
\ti = getBbSequenceElementIndex(buf, msg, i, i0);\n\
\ti += SAMPLES_VALUES_INDEX;\n\
\treturn getBbUint16(buf, msg, i);\n\
}\n"));
    assert!(source.contains("\tsetBbUint8(buf, msg, i, modes);\n"));
}

#[test]
fn every_scalar_has_its_helper() {
    let defs = [message(
        "All",
        vec![topic("a")],
        vec![
            member("a", Type::LongLong),
            member("b", Type::Double),
            member("c", Type::Float),
            member("d", Type::Long),
            member("e", Type::Short),
            member("f", Type::Char),
            member("g", Type::String { bound: Some(5) }),
            member("h", Type::WChar),
        ],
    )];
    let (header, source) = header_and_source(&defs);
    assert!(header.contains("BbBlock addAll(Bb * buf, int64_t a, double b, float c, int32_t d, int16_t e, int8_t f, char * g, uint16_t h);\n"));
    assert!(source.contains("\tsetBbUint64(buf, msg, ALL_A_INDEX, a);\n\tsetBbDouble(buf, msg, ALL_B_INDEX, b);\n\tsetBbFloat32(buf, msg, ALL_C_INDEX, c);\n\tsetBbUint32(buf, msg, ALL_D_INDEX, d);\n\tsetBbUint16(buf, msg, ALL_E_INDEX, e);\n\tsetBbUint8(buf, msg, ALL_F_INDEX, f);\n\t// g is a bounded string; populate with copyBbStringToMessage\n\tsetBbUint32(buf, msg, ALL_H_INDEX, h);\n"));
    assert!(source.contains("int64_t getAllA(Bb * buf, BbBlock msg ){\n\tuint16_t i = 0;\n\ti += ALL_A_INDEX;\n\treturn getBbUint64(buf, msg, i);\n}\n"));
    assert!(header.contains("char * getAllG(Bb * buf, BbBlock msg );\n"));
    assert!(!source.contains("getAllG("));
}

#[test]
fn messages_are_emitted_in_the_order_of_their_names() {
    let defs = [
        message("Zeta", vec![topic("z")], Vec::new()),
        message("Alpha", vec![topic("a")], Vec::new()),
        message("Mid", vec![topic("m")], Vec::new()),
    ];
    let (header, source) = header_and_source(&defs);
    let at = |text: &str, part: &str| text.find(part).unwrap();
    assert!(at(&header, "addAlpha") < at(&header, "addMid"));
    assert!(at(&header, "addMid") < at(&header, "addZeta"));
    assert!(at(&source, "addAlpha") < at(&source, "addZeta"));
    assert!(header.contains("#define ALPHA_KEY (0x00000000)\n#define MID_KEY (0x00000000)\n#define ZETA_KEY (0x00000000)\n"));
    assert!(source.contains("#define ALPHA_LENGTH (8)\n#define MID_LENGTH (8)\n#define ZETA_LENGTH (8)\n"));
    assert!(source.contains("#define ALPHA_MAX_ORDINAL (2)\n#define ALPHA_MODULE_MESSAGE_KEY (0x00000000)\n#define MID_MAX_ORDINAL (2)\n"));
}

#[test]
fn messages_inherit_and_override_the_module_key() {
    let defs = vec![module(
        "Outer",
        vec![annotation("module_key", number(1))],
        vec![
            module(
                "Inner",
                vec![annotation("module_key", number(2))],
                vec![message("A", vec![topic("a")], Vec::new())],
            ),
            message("B", vec![topic("b"), annotation("message_key", number(7))], Vec::new()),
            message("C", vec![topic("c"), annotation("MODULE_KEY", number(3))], Vec::new()),
        ],
    )];
    let models = collected(&defs);
    let keys: Vec<(String, u32)> =
        models.iter().map(|m| (m.name.clone(), combined_key(m))).collect();
    assert_eq!(
        keys,
        vec![
            ("A".to_string(), 0x0002_0000),
            ("B".to_string(), 0x0001_0007),
            ("C".to_string(), 0x0003_0000),
        ]
    );
    assert_eq!(models[0].scope, strings(&["Outer", "Inner"]));
}

#[test]
fn ordinals_are_counted_in_one_byte() {
    let members = (0..260).map(|i| member(&format!("m{i}"), Type::Octet)).collect();
    let defs = [message("Big", vec![topic("b")], members)];
    let models = collected(&defs);
    let fields = &models[0].fields;
    assert_eq!(fields[0].ordinal, 3);
    assert_eq!(fields[252].ordinal, 255);
    assert_eq!(fields[253].ordinal, 0);
    assert_eq!(fields[259].ordinal, 6);
    assert_eq!(models[0].max_ordinal, 6);
    assert_eq!(fields[259].offset, MESSAGE_HEADER_BYTES + 259);
    assert_eq!(models[0].body_length, 268);
}

#[test]
fn fields_do_not_overlap_and_stay_in_the_body() {
    let defs = [message(
        "Mixed",
        vec![topic("m")],
        vec![
            member("a", Type::Octet),
            member("b", Type::Double),
            member("c", Type::Short),
            member("d", Type::String { bound: Some(3) }),
            member("e", Type::Long),
        ],
    )];
    let models = collected(&defs);
    let sizes: [u32; 5] = [1, 8, 2, 3, 4];
    let offsets: Vec<u32> = models[0].fields.iter().map(|f| f.offset).collect();
    assert_eq!(offsets, vec![8, 16, 12, 9, 24]);
    for i in 0..5 {
        assert!(offsets[i] + sizes[i] <= models[0].body_length);
        for j in 0..i {
            assert!(offsets[i] + sizes[i] <= offsets[j] || offsets[j] + sizes[j] <= offsets[i]);
        }
    }
    assert_eq!(models[0].body_length, 28);
}

#[test]
fn a_message_without_a_topic_is_refused() {
    let defs = vec![module("M", Vec::new(), vec![message("Lost", Vec::new(), Vec::new())])];
    match failure(&defs) {
        Failure::Codegen(CodegenError::MissingTopic { message }) => assert_eq!(message, "M::Lost"),
        other => panic!("{:?}", other),
    }
    assert!(matches!(generate(&defs), Err(CodegenError::MissingTopic { .. })));
}

fn refused_type(definitions: &[Definition]) -> (String, String, String) {
    match failure(definitions) {
        Failure::Codegen(CodegenError::UnsupportedMemberType { message, member, member_type }) => {
            (message, member, member_type)
        }
        other => panic!("{:?}", other),
    }
}

#[test]
fn unsupported_members_are_refused() {
    let inline = [
        structure("P", Vec::new()),
        message("M", vec![topic("t")], vec![member("p", named("P"))]),
    ];
    assert_eq!(refused_type(&inline), ("M".into(), "p".into(), "P".into()));
    let unknown = [message(
        "M",
        vec![topic("t")],
        vec![member("q", sequence_of(Type::ScopedName(strings(&["A", "B"]))))],
    )];
    assert_eq!(refused_type(&unknown), ("M".into(), "q".into(), "A::B".into()));
    let unbounded =
        [message("M", vec![topic("t")], vec![member("s", Type::String { bound: None })])];
    assert_eq!(
        refused_type(&unbounded),
        ("<unknown>".into(), "<unknown>".into(), "string".into())
    );
}

#[test]
fn circular_definitions_have_no_layout() {
    let aliases = [
        alias("A", named("B")),
        alias("B", sequence_of(named("A"))),
        message("M", vec![topic("t")], vec![member("a", named("A"))]),
    ];
    assert!(matches!(failure(&aliases), Failure::NoLayout));
    let enums = [
        enumeration("E", Some(named("F")), &[]),
        enumeration("F", Some(named("E")), &[]),
        message("M", vec![topic("t")], vec![member("e", named("E"))]),
    ];
    assert!(matches!(failure(&enums), Failure::NoLayout));
    let late = [
        module(
            "Early",
            Vec::new(),
            vec![
                enumeration("E", Some(named("F")), &[]),
                message("M", vec![topic("t")], vec![member("e", named("E"))]),
            ],
        ),
        enumeration("F", Some(Type::ScopedName(strings(&["Early", "E"]))), &[]),
    ];
    assert!(matches!(failure(&late), Failure::NoLayout));
}

#[test]
fn layouts_beyond_32_bits_are_refused() {
    let defs = [message(
        "M",
        vec![topic("t")],
        vec![
            member("a", Type::String { bound: Some(u32::MAX - 16) }),
            member("b", Type::String { bound: Some(16) }),
        ],
    )];
    assert!(matches!(failure(&defs), Failure::NoLayout));
    let fits = [message(
        "M",
        vec![topic("t")],
        vec![member("a", Type::String { bound: Some(u32::MAX - 16) })],
    )];
    assert_eq!(collected(&fits)[0].body_length, u32::MAX - 7);
}

#[test]
fn aliases_and_arrays_are_resolved() {
    let defs = [
        alias("Word", named("uint32")),
        alias("Words", sequence_of(named("Word"))),
        message(
            "M",
            vec![topic("t")],
            vec![
                member("one", named("Word")),
                member("many", named("Words")),
                member(
                    "grid",
                    Type::Array { element_type: Box::new(named("Word")), dimensions: vec![2, 3] },
                ),
            ],
        ),
    ];
    let models = collected(&defs);
    let fields = &models[0].fields;
    assert!(matches!(fields[0].kind, MessageFieldKind::Scalar(Type::UnsignedLong)));
    assert!(matches!(
        fields[1].kind,
        MessageFieldKind::Sequence(SequenceElement::Primitive(Type::UnsignedLong))
    ));
    match &fields[2].kind {
        MessageFieldKind::Sequence(SequenceElement::Primitive(Type::Sequence {
            element_type,
            size,
        })) => {
            assert_eq!(*size, Some(3));
            assert!(matches!(**element_type, Type::UnsignedLong));
        }
        _ => panic!("not a sequence"),
    }
}

#[test]
fn names_are_looked_up_from_the_inside_out() {
    let a = Type::Octet;
    let builtins = integer_names();
    let mut tables = Tables::new(&builtins);
    for path in [&["X", "T"][..], &["T"], &["Y", "Z", "U"], &["P", "V"], &["Q", "V"]] {
        tables.typedefs.push(blueberry_codegen::c::tables::Binding {
            path: strings(path),
            scope: strings(&path[..path.len() - 1]),
            node: &a,
        });
    }
    let find = |name: &[&str], scope: &[&str]| {
        lookup(&tables.typedefs, &strings(name), &strings(scope))
    };
    assert_eq!(find(&["T"], &["X", "Deep"]), Some(strings(&["X", "T"])));
    assert_eq!(find(&["T"], &["Other"]), Some(strings(&["T"])));
    assert_eq!(find(&["U"], &["X"]), Some(strings(&["Y", "Z", "U"])));
    assert_eq!(find(&["Z", "U"], &[]), Some(strings(&["Y", "Z", "U"])));
    assert_eq!(find(&["V"], &[]), None);
    assert_eq!(find(&["Nothing"], &[]), None);
}

#[test]
fn a_later_definition_replaces_an_earlier_one() {
    let defs = [
        alias("T", Type::Octet),
        alias("T", Type::Double),
        message("M", vec![topic("t")], vec![member("a", named("T"))]),
    ];
    assert_eq!(collected(&defs)[0].body_length, 16);
}

#[test]
fn placing_pulls_fitting_fields_forward() {
    let slots = [
        Slot { align: 4, size: 4 },
        Slot { align: 1, size: 1 },
        Slot { align: 2, size: 2 },
        Slot { align: 1, size: 1 },
    ];
    let offsets = place_slots(&slots, 8).unwrap();
    assert_eq!(offsets, vec![8, 12, 14, 13]);
    assert_eq!(compute_body_length(&slots, &offsets, 8), Some(16));
    let inner = place_slots(&slots, 0).unwrap();
    assert_eq!(inner, vec![0, 4, 6, 5]);
    assert_eq!(compute_aligned_struct_size(&slots, &inner), Some(8));
    assert_eq!(place_slots(&[Slot { align: 1, size: 2 }], u32::MAX - 1), None);
}

#[test]
fn aligning_rounds_up() {
    assert_eq!(align_up(13, 4), 16);
    assert_eq!(align_up(16, 4), 16);
    assert_eq!(align_up(13, 1), 13);
    assert_eq!(align_up_checked(u32::MAX, 2), None);
}

#[test]
fn enumerations_are_declared_with_their_literals() {
    let e = EnumDef {
        name: "MotorMode".to_string(),
        base_type: None,
        enumerators: vec![EnumMember {
            name: "OFF".to_string(),
            value: Some(number(0x1a)),
            comments: Vec::new(),
        }],
    };
    let defs = [Definition::EnumDef(Commented {
        id: 0,
        node: e,
        annotations: Vec::new(),
        comments: vec!["* modes".to_string()],
    })];
    let (header, _) = header_and_source(&defs);
    assert!(header.contains("/**\n * modes\n */\ntypedef enum {\n\tMOTOR_MODE_OFF = 0x001a, \n} MotorModeEnum;\n\n"));
}

#[test]
fn enum_literals_follow_the_constant() {
    let literal = |value: Option<ConstValue>| {
        enum_value_literal(&EnumMember { name: "X".to_string(), value, comments: Vec::new() })
    };
    assert_eq!(literal(None), "0");
    assert_eq!(literal(Some(number(5))), "0x0005");
    assert_eq!(literal(Some(number(0x12345))), "0x12345");
    assert_eq!(literal(Some(number(-5))), "-5");
    assert_eq!(literal(Some(ConstValue::ScopedName(strings(&["A", "B"])))), "A_B");
    assert_eq!(literal(Some(ConstValue::Binary { value: 3, id: 0 })), "0");
    let negated = |op| ConstValue::UnaryOp { op, expr: Box::new(number(2)) };
    assert_eq!(literal(Some(negated(UnaryOperator::Minus))), "-0x0002");
    assert_eq!(literal(Some(negated(UnaryOperator::Plus))), "0x0002");
}

#[test]
fn topics_become_literals() {
    assert_eq!(quoted_topic("a/{device_type}/{nid}"), "\"a/\\x81/\\x80\"");
    assert_eq!(quoted_topic("x\"y\\z"), "\"x\\\"y\\\\z\"");
    assert_eq!(quoted_topic("{other}{nid}"), "\"{other}\\x80\"");
    assert_eq!(quoted_topic("{open"), "\"{open}\"");
    assert_eq!(quoted_topic("}{}"), "\"}{}\"");
    assert_eq!(quoted_topic(""), "\"\"");
}

#[test]
fn comment_lines_lose_their_markers() {
    assert_eq!(clean_doc_line("   * text  "), "text");
    assert_eq!(clean_doc_line("*  two"), "two");
    assert_eq!(clean_doc_line("plain"), "plain");
    assert_eq!(clean_doc_line("** twice"), "twice");
    assert_eq!(clean_doc_line("** Note"), "Note");
    assert_eq!(clean_doc_line(" * * a * b *"), "a * b *");
    assert_eq!(clean_doc_line("\t\u{2003}*\u{a0}"), "");
    assert_eq!(clean_doc_line(""), "");
}

#[test]
fn cleaning_a_comment_line_twice_changes_nothing() {
    for line in ["** Note ", " * * x", "plain * text", "*", "\t**\t*  y  "] {
        let once = clean_doc_line(line);
        assert_eq!(clean_doc_line(&once), once);
        assert!(!once.starts_with('*'));
    }
}

#[test]
fn element_accessors_use_defined_indices() {
    let model = MessageModel {
        name: "Msg".to_string(),
        words: "Msg".to_string(),
        scope: Vec::new(),
        module_key: 0,
        message_key: 1,
        topic: "t".to_string(),
        comments: Vec::new(),
        fields: vec![MessageFieldModel {
            name: "items".to_string(),
            capital: "Items".to_string(),
            words: "Items".to_string(),
            ordinal: 3,
            offset: 8,
            comments: Vec::new(),
            kind: MessageFieldKind::Sequence(SequenceElement::Primitive(Type::Octet)),
        }],
        body_length: 12,
        max_ordinal: 3,
    };
    let mut lines = Vec::new();
    collect_index_macros(&model, &mut lines);
    assert!(lines.contains(&"#define MSG_ITEMS_PLACEHOLDER_INDEX (8)".to_string()));
    assert!(lines.contains(&"#define MSG_ITEMS_INDEX (0)".to_string()));
}

#[test]
fn elements_have_the_size_of_the_enumeration_base() {
    let defs = [module(
        "M",
        Vec::new(),
        vec![
            enumeration("E", Some(Type::Octet), &[("A", 1)]),
            message("Msg", vec![topic("t")], vec![member("items", sequence_of(named("E")))]),
        ],
    )];
    let (_, source) = header_and_source(&defs);
    assert!(source.contains("#define MSG_ITEMS_PLACEHOLDER_SEQUENCE_ELEMENT_BYTE_COUNT (1)\n"));
}

#[test]
fn builtin_names_come_from_the_table() {
    let defs = [message("M", vec![topic("t")], vec![member("a", named("word"))])];
    let builtins = vec![Builtin { name: "word".to_string(), ty: Type::UnsignedShort }];
    let files = try_generate(&defs, &builtins).unwrap();
    assert!(files[1].contents.contains("\tsetBbUint16(buf, msg, M_A_INDEX, a);\n"));
    let files = try_generate(&defs, &Vec::new()).unwrap();
    assert!(files[1].contents.contains("\tsetBbUint32(buf, msg, M_A_INDEX, a);\n"));
}

#[test]
fn built_in_names_that_are_not_used_do_not_matter() {
    let defs = [
        alias("Word", named("uint16")),
        structure("Pair", vec![member("a", named("Word")), member("b", named("uint8"))]),
        message("M", vec![topic("t")], vec![
            member("x", named("int32")),
            member("pairs", sequence_of(named("Pair"))),
        ]),
    ];
    let names = names_used(&defs);
    let mut few = integer_names();
    few.retain(|b| names.contains(&b.name));
    assert_eq!(few.len(), 3);
    let text = |builtins: &Vec<Builtin>| {
        let files = try_generate(&defs, builtins).unwrap();
        (files[0].contents.clone(), files[1].contents.clone())
    };
    assert_eq!(text(&few), text(&integer_names()));
    few.pop();
    assert_ne!(text(&few), text(&integer_names()));
}

#[test]
fn a_refused_message_leaves_the_models() {
    let first = [message("A", vec![topic("a")], Vec::new()), enumeration("E", None, &[])];
    let second = [
        message("B", vec![topic("b")], Vec::new()),
        enumeration("F", None, &[]),
        message("C", Vec::new(), Vec::new()),
        enumeration("G", None, &[]),
    ];
    let builtins = integer_names();
    let mut context = Context::new(&builtins);
    context.collect(&first, &Vec::new(), None).unwrap();
    assert!(context.collect(&second, &Vec::new(), None).is_err());
    let messages: Vec<&str> = context.messages.iter().map(|m| m.name.as_str()).collect();
    let enums: Vec<&str> = context.enum_models.iter().map(|e| e.name.as_str()).collect();
    assert_eq!(messages, vec!["A", "B"]);
    assert_eq!(enums, vec!["E", "F"]);
}

#[test]
fn source_does_not_depend_on_the_order_of_messages() {
    let a = || message("A", vec![topic("a")], vec![member("x", Type::Octet)]);
    let b = || message("B", vec![topic("b")], vec![member("y", sequence_of(Type::Double))]);
    let c = || message("C", vec![topic("c")], Vec::new());
    let (_, forwards) = header_and_source(&[a(), b(), c()]);
    let (_, backwards) = header_and_source(&[c(), b(), a()]);
    let (_, mixed) = header_and_source(&[b(), a(), c()]);
    assert_eq!(forwards, backwards);
    assert_eq!(forwards, mixed);
}

#[test]
fn collecting_keeps_what_was_collected() {
    let first = [
        message("A", vec![topic("a")], Vec::new()),
        enumeration("E", None, &[("X", 1)]),
    ];
    let second = [
        enumeration("F", None, &[]),
        module("In", Vec::new(), vec![
            enumeration("G", None, &[]),
            message("B", vec![topic("b")], Vec::new()),
        ]),
    ];
    let builtins = integer_names();
    let mut context = Context::new(&builtins);
    context.collect(&first, &Vec::new(), None).unwrap();
    context.collect(&second, &Vec::new(), None).unwrap();
    let messages: Vec<&str> = context.messages.iter().map(|m| m.name.as_str()).collect();
    let enums: Vec<&str> = context.enum_models.iter().map(|e| e.name.as_str()).collect();
    assert_eq!(messages, vec!["A", "B"]);
    assert_eq!(enums, vec!["E", "G", "F"]);
}

#[test]
fn names_become_c_names() {
    assert_eq!(to_snake_case("firmwareVersion"), "firmware_version");
    assert_eq!(to_snake_case("c0"), "c_0");
    assert_eq!(to_snake_case("STM32F446"), "stm32f446");
    assert_eq!(to_snake_case("a-b c"), "a_b_c");
    assert_eq!(to_screaming_snake("hwType2"), "HW_TYPE_2");
    assert_eq!(titlecase_words("fooBarBaz"), "Foo Bar Baz");
    assert_eq!(titlecase_words("__"), "");
    assert_eq!(titlecase_words("\u{e9}t\u{e9}"), "\u{c9}t\u{e9}");
    assert_eq!(enum_typedef_name("Mode"), "ModeEnum");
    assert_eq!(enum_typedef_name("ModeEnum"), "ModeEnum");
}

#[test]
fn types_have_c_names_and_helpers() {
    let builtins = integer_names();
    let base = Some(Type::Octet);
    let mode = EnumDef { name: "Mode".to_string(), base_type: base, enumerators: Vec::new() };
    let mut tables = Tables::new(&builtins);
    tables.enums.push(blueberry_codegen::c::tables::Binding {
        path: strings(&["Mode"]),
        scope: Vec::new(),
        node: &mode,
    });
    assert_eq!(c_type_name(&tables, &Type::LongDouble), "long double");
    assert_eq!(c_type_name(&tables, &Type::WString), "uint16_t *");
    assert_eq!(c_type_name(&tables, &sequence_of(Type::Octet)), "void *");
    assert_eq!(c_type_name(&tables, &Type::ScopedName(strings(&["A", "B"]))), "B");
    assert_eq!(c_type_name(&tables, &Type::ScopedName(Vec::new())), "void");
    assert!(matches!(
        enum_or_scalar_base(&tables, &named("Unknown")),
        Some(ResolvedScalar::Uint32)
    ));
    assert_eq!(helper_pair(&ResolvedScalar::Bool), ("getBbBool", "setBbBool"));
    assert_eq!(
        helper_pair(&ResolvedScalar::StringBounded(3)),
        ("copyBbStringFromMessage", "copyBbStringToMessage")
    );
    assert_eq!(primitive_element_byte_count(&tables, &Type::Double), 8);
    assert_eq!(primitive_element_byte_count(&tables, &Type::Octet), 1);
    assert_eq!(primitive_element_byte_count(&tables, &named("Mode")), 1);
    assert_eq!(primitive_element_byte_count(&tables, &named("Unknown")), 4);
}

#[test]
fn equal_macro_lines_stand_once() {
    let defs = [
        module("A", Vec::new(), vec![message("Same", vec![topic("a")], Vec::new())]),
        module("B", Vec::new(), vec![message("Same", vec![topic("b")], Vec::new())]),
    ];
    let (header, source) = header_and_source(&defs);
    assert_eq!(source.matches("#define SAME_LENGTH_INDEX (4)\n").count(), 1);
    assert_eq!(source.matches("#define SAME_LENGTH (8)\n").count(), 2);
    assert!(header.contains("#define A_SAME_KEY (0x00000000)\n#define B_SAME_KEY (0x00000000)\n"));
}
