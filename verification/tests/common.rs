//! What the generators share.
use blueberry_codegen::analysis::{analyze, codegen_entry, describe_codegen_error, shows_idl, Parsed};
use blueberry_codegen::annotations::{
    annotation_integer_value, annotation_name_matches, annotation_string, annotation_u16,
    is_message_key_annotation, is_module_key_annotation,
};
use blueberry_codegen::ast::{
    Annotation, AnnotationParam, Commented, ConstValue, Definition, EnumDef, EnumMember,
    IntegerBase, IntegerLiteral, Member, MessageDef, ModuleDef, StructDef, Type, TypeDef,
};
use blueberry_codegen::common::builtins::{integer_names, map_builtin_ident, names_used, Builtin};
use blueberry_codegen::common::collect::{collect_messages, MessageCollector};
use blueberry_codegen::common::errors::{CodegenError, GeneratedFile};
use blueberry_codegen::common::messages::{
    FieldSpec, MessageSpec, PrimitiveType, DEFAULT_MODULE_KEY, MESSAGE_HEADER_SIZE,
};
use blueberry_codegen::common::names::{
    class_name, scoped_name, snake_case_path, to_snake_case, uppercase_path,
};
use blueberry_codegen::common::topic::{quoted_string, split_template, topic_format, Piece, TopicPlaceholder};
use blueberry_codegen::numerals::{decimal_text, hex_pattern_text, hex_text, signed_decimal_text};
use blueberry_codegen::order::{comes_first, order_of, sort_and_dedup, sort_lines};
use blueberry_codegen::typescript::emit_enum;
use blueberry_codegen::unicode::{capitalize, to_lowercase};
use blueberry_codegen::whitespace::char_is_whitespace;

fn strings(parts: &[&str]) -> Vec<String> {
    parts.iter().map(|s| s.to_string()).collect()
}

fn number(value: i128) -> ConstValue {
    ConstValue::Integer(IntegerLiteral::new(value, IntegerBase::Decimal))
}

fn annotation(name: &str, value: ConstValue) -> Annotation {
    Annotation { name: strings(&[name]), params: vec![AnnotationParam::Positional(value)] }
}

fn topic(text: &str) -> Annotation {
    annotation("topic", ConstValue::String(text.to_string()))
}

fn member(name: &str, type_: Type) -> Commented<Member> {
    Commented {
        id: 0,
        node: Member { name: name.to_string(), type_ },
        annotations: Vec::new(),
        comments: Vec::new(),
    }
}

fn message(name: &str, annotations: Vec<Annotation>, members: Vec<Commented<Member>>) -> Definition {
    Definition::MessageDef(Commented {
        id: 0,
        node: MessageDef { name: name.to_string(), base: None, members },
        annotations,
        comments: Vec::new(),
    })
}

fn module(name: &str, annotations: Vec<Annotation>, definitions: Vec<Definition>) -> Definition {
    Definition::ModuleDef(Commented {
        id: 0,
        node: ModuleDef { name: name.to_string(), definitions },
        annotations,
        comments: Vec::new(),
    })
}

fn spec(primitives: &[PrimitiveType]) -> MessageSpec {
    MessageSpec {
        scope: Vec::new(),
        name: "M".to_string(),
        topic: "t".to_string(),
        module_key: 0,
        message_key: 0,
        fields: primitives
            .iter()
            .map(|p| FieldSpec { name: "f".to_string(), primitive: *p })
            .collect(),
    }
}

#[test]
fn payload_sizes_are_padded_to_words() {
    let m = spec(&[PrimitiveType::Bool, PrimitiveType::U32, PrimitiveType::I16]);
    assert_eq!(m.field_payload_size(), 7);
    assert_eq!(m.padded_payload_size(), 8);
    assert_eq!(m.payload_words(), 2);
    let empty = spec(&[]);
    assert_eq!(empty.field_payload_size(), 0);
    assert_eq!(empty.padded_payload_size(), 0);
    assert_eq!(empty.payload_words(), 0);
    assert_eq!(MESSAGE_HEADER_SIZE, 8);
    assert_eq!(DEFAULT_MODULE_KEY, 0);
}

#[test]
fn primitives_have_sizes() {
    let sizes = [
        (PrimitiveType::Bool, 1),
        (PrimitiveType::Char, 1),
        (PrimitiveType::Octet, 1),
        (PrimitiveType::I16, 2),
        (PrimitiveType::U16, 2),
        (PrimitiveType::I32, 4),
        (PrimitiveType::U32, 4),
        (PrimitiveType::F32, 4),
        (PrimitiveType::I64, 8),
        (PrimitiveType::U64, 8),
        (PrimitiveType::F64, 8),
    ];
    for (p, size) in sizes {
        assert_eq!(p.size(), size);
    }
    assert_eq!(PrimitiveType::try_from(&Type::Double), Ok(PrimitiveType::F64));
    assert_eq!(PrimitiveType::try_from(&Type::WChar), Err(()));
}

#[test]
fn messages_are_collected_with_keys() {
    let defs = [
        message("A", vec![topic("a")], vec![member("x", Type::Long)]),
        module(
            "M",
            vec![annotation("module_key", number(9))],
            vec![
                message("B", vec![topic("b"), annotation("message_key", number(77))], Vec::new()),
                message("C", vec![topic("c")], Vec::new()),
            ],
        ),
        message("D", vec![topic("d"), annotation("module_key", number(4))], Vec::new()),
    ];
    let messages = collect_messages(&defs).unwrap();
    let keys: Vec<(String, u16, u16)> = messages
        .iter()
        .map(|m| (m.name.clone(), m.module_key, m.message_key))
        .collect();
    assert_eq!(
        keys,
        vec![
            ("A".to_string(), 0, 1),
            ("B".to_string(), 9, 77),
            ("C".to_string(), 9, 2),
            ("D".to_string(), 4, 3),
        ]
    );
    assert_eq!(messages[1].scope, strings(&["M"]));
    assert_eq!(messages[0].topic, "a");
    assert_eq!(messages[0].fields[0].name, "x");
}

#[test]
fn given_keys_skip_zero() {
    let mut collector = MessageCollector::new();
    assert_eq!(collector.next_message_key(), 1);
    collector.message_key = u16::MAX;
    assert_eq!(collector.next_message_key(), u16::MAX);
    assert_eq!(collector.next_message_key(), 1);
}

#[test]
fn messages_that_cannot_be_collected_are_refused() {
    let missing = [module("M", Vec::new(), vec![message("A", Vec::new(), Vec::new())])];
    assert_eq!(
        collect_messages(&missing).unwrap_err(),
        CodegenError::MissingTopic { message: "M::A".to_string() }
    );
    let derived = [Definition::MessageDef(Commented {
        id: 0,
        node: MessageDef {
            name: "A".to_string(),
            base: Some(strings(&["Base"])),
            members: Vec::new(),
        },
        annotations: vec![topic("a")],
        comments: Vec::new(),
    })];
    assert_eq!(
        collect_messages(&derived).unwrap_err(),
        CodegenError::UnsupportedMessageBase { message: "A".to_string() }
    );
    let refused = |type_: Type| {
        match collect_messages(&[message("A", vec![topic("a")], vec![member("m", type_)])])
            .unwrap_err()
        {
            CodegenError::UnsupportedMemberType { message, member, member_type } => {
                assert_eq!((message.as_str(), member.as_str()), ("A", "m"));
                member_type
            }
            other => panic!("{:?}", other),
        }
    };
    assert_eq!(refused(Type::LongDouble), "long double");
    assert_eq!(refused(Type::WChar), "wchar");
    assert_eq!(refused(Type::String { bound: Some(3) }), "string");
    assert_eq!(refused(Type::WString), "wstring");
    assert_eq!(
        refused(Type::Sequence { element_type: Box::new(Type::Octet), size: None }),
        "sequence"
    );
    assert_eq!(
        refused(Type::Array { element_type: Box::new(Type::Octet), dimensions: vec![1] }),
        "array"
    );
    assert_eq!(refused(Type::ScopedName(strings(&["X", "Y"]))), "X::Y");
}

#[test]
fn a_refused_message_leaves_the_others() {
    let wide = || vec![member("x", Type::Octet), member("m", Type::WChar)];
    let mut c = MessageCollector::new();
    let keyed = [message("A", vec![topic("a")], Vec::new())];
    c.collect_in_scope(&keyed, &Vec::new(), 0).unwrap();
    assert_eq!((c.messages.len(), c.message_key), (1, 2));

    let drawn = [
        message("B", vec![topic("b")], Vec::new()),
        module("M", Vec::new(), vec![message("C", vec![topic("c")], wide())]),
        message("D", vec![topic("d")], Vec::new()),
    ];
    assert!(c.collect_in_scope(&drawn, &Vec::new(), 0).is_err());
    let names: Vec<&str> = c.messages.iter().map(|m| m.name.as_str()).collect();
    assert_eq!(names, vec!["A", "B"]);
    assert_eq!(c.message_key, 4);

    let named = [message("E", vec![topic("e"), annotation("message_key", number(9))], wide())];
    assert!(c.collect_in_scope(&named, &Vec::new(), 0).is_err());
    let untitled = [message("F", Vec::new(), wide())];
    assert!(c.collect_in_scope(&untitled, &Vec::new(), 0).is_err());
    assert_eq!((c.messages.len(), c.message_key), (2, 4));
}

#[test]
fn visiting_a_message_draws_its_key() {
    let mut c = MessageCollector::new();
    let visit = |c: &mut MessageCollector, d: Definition| match d {
        Definition::MessageDef(m) => c.visit_message(&strings(&["M"]), 5, &m),
        _ => panic!("not a message"),
    };
    let spec = visit(&mut c, message("A", vec![topic("a")], Vec::new())).unwrap();
    assert_eq!((spec.module_key, spec.message_key), (5, 1));
    assert_eq!(spec.scope, strings(&["M"]));
    assert!(visit(&mut c, message("B", vec![topic("b")], vec![member("m", Type::WChar)])).is_err());
    assert_eq!((c.messages.len(), c.message_key), (0, 3));
}

#[test]
fn names_of_types_are_listed() {
    let short = |name: &str| Type::ScopedName(strings(&[name]));
    let within = |element: Type| Type::Sequence { element_type: Box::new(element), size: None };
    let array = Type::Array { element_type: Box::new(within(short("d"))), dimensions: vec![2] };
    let commented = |base: Type| Commented {
        id: 0,
        node: EnumDef { name: "E".to_string(), base_type: Some(base), enumerators: Vec::new() },
        annotations: Vec::new(),
        comments: Vec::new(),
    };
    let defs = [
        message("A", Vec::new(), vec![member("x", short("a")), member("y", Type::Octet)]),
        module("M", Vec::new(), vec![
            Definition::EnumDef(commented(short("b"))),
            Definition::TypeDef(Commented {
                id: 0,
                node: TypeDef { name: "T".to_string(), base_type: within(short("c")) },
                annotations: Vec::new(),
                comments: Vec::new(),
            }),
        ]),
        Definition::StructDef(Commented {
            id: 0,
            node: StructDef {
                name: "S".to_string(),
                members: vec![
                    member("z", array),
                    member("w", Type::ScopedName(strings(&["P", "q"]))),
                    member("v", short("a")),
                ],
            },
            annotations: Vec::new(),
            comments: Vec::new(),
        }),
    ];
    assert_eq!(names_used(&defs), strings(&["a", "b", "c", "d", "a"]));
    assert_eq!(names_used(&[]), Vec::<String>::new());
}

#[test]
fn names_are_mangled() {
    assert_eq!(scoped_name(&[], "A"), "A");
    assert_eq!(scoped_name(&strings(&["M", "N"]), "A"), "M::N::A");
    assert_eq!(to_snake_case("VersionMessage"), "version_message");
    assert_eq!(to_snake_case("already_snake"), "already_snake");
    assert_eq!(
        to_snake_case(&to_snake_case("VersionMessage")),
        to_snake_case("VersionMessage")
    );
    assert_eq!(snake_case_path(&strings(&["Blueberry", "Devices"]), "VersionMessage"), "blueberry_devices_version_message");
    assert_eq!(uppercase_path(&strings(&["Blueberry"]), "VersionMessage"), "BLUEBERRY_VERSION_MESSAGE");
    assert_eq!(class_name(&strings(&["Blueberry"]), "Ver"), "Blueberry_Ver");
}

#[test]
fn strings_are_quoted() {
    assert_eq!(quoted_string("a\"b\\c\nd\re\tf"), "\"a\\\"b\\\\c\\nd\\re\\tf\"");
    assert_eq!(quoted_string(""), "\"\"");
    assert_ne!(quoted_string("\\n"), quoted_string("\n"));
}

#[test]
fn topics_become_formats() {
    let f = topic_format("a/{device_type}/{nid}/{x}/{nid}");
    assert_eq!(f.template, "a/%s/%s/{x}/%s");
    assert_eq!(
        f.placeholders,
        vec![TopicPlaceholder::DeviceType, TopicPlaceholder::Nid, TopicPlaceholder::Nid]
    );
    assert_eq!(topic_format("{open").template, "{open}");
    let pieces = split_template("a{b}c");
    assert!(matches!(&pieces[0], Piece::Plain(t) if t == "a"));
    assert!(matches!(&pieces[1], Piece::Named(t) if t == "b"));
    assert!(matches!(&pieces[2], Piece::Plain(t) if t == "c"));
}

#[test]
fn builtin_names_are_types() {
    let builtins = integer_names();
    assert!(matches!(map_builtin_ident(&builtins, "int8"), Some(Type::Char)));
    assert!(matches!(map_builtin_ident(&builtins, "uint8"), Some(Type::Octet)));
    assert!(matches!(map_builtin_ident(&builtins, "int16"), Some(Type::Short)));
    assert!(matches!(map_builtin_ident(&builtins, "uint16"), Some(Type::UnsignedShort)));
    assert!(matches!(map_builtin_ident(&builtins, "int32"), Some(Type::Long)));
    assert!(matches!(map_builtin_ident(&builtins, "uint32"), Some(Type::UnsignedLong)));
    assert!(matches!(map_builtin_ident(&builtins, "int64"), Some(Type::LongLong)));
    assert!(matches!(map_builtin_ident(&builtins, "uint64"), Some(Type::UnsignedLongLong)));
    assert!(map_builtin_ident(&builtins, "long").is_none());
    let own = vec![
        Builtin { name: "word".to_string(), ty: Type::UnsignedShort },
        Builtin { name: "word".to_string(), ty: Type::Long },
    ];
    assert!(matches!(map_builtin_ident(&own, "word"), Some(Type::UnsignedShort)));
    assert!(map_builtin_ident(&own, "int8").is_none());
}

#[test]
fn annotations_are_found_by_their_last_segment() {
    let a = Annotation {
        name: strings(&["blueberry", "Message_Key"]),
        params: vec![AnnotationParam::Named { name: "value".to_string(), value: number(5) }],
    };
    assert!(annotation_name_matches(&a, "message_key"));
    assert!(is_message_key_annotation(&a));
    assert!(!is_module_key_annotation(&a));
    assert_eq!(annotation_integer_value(&a), Some(5));
    let list = [a, annotation("topic", ConstValue::String("t".to_string()))];
    assert_eq!(annotation_u16(&list, "message_key"), Some(5));
    assert_eq!(annotation_string(&list, "TOPIC"), Some("t".to_string()));
    assert_eq!(annotation_u16(&list, "topic"), None);
    assert_eq!(annotation_u16(&[annotation("k", number(65536))], "k"), None);
    assert_eq!(annotation_u16(&[annotation("k", number(-1))], "k"), None);
    assert_eq!(annotation_string(&[], "topic"), None);
}

#[test]
fn numbers_become_text() {
    for n in [0u128, 1, 9, 10, 99, 65535, u64::MAX as u128, u128::MAX] {
        assert_eq!(decimal_text(n), format!("{}", n));
        assert_eq!(hex_text(n, 8), format!("{:08x}", n));
        assert_eq!(hex_text(n, 4), format!("{:04x}", n));
    }
    for n in [0i128, 5, -5, i128::MAX, i128::MIN, 0xABCDEF, -1] {
        assert_eq!(signed_decimal_text(n), format!("{}", n));
        assert_eq!(hex_pattern_text(n), format!("{:X}", n));
    }
}

#[test]
fn whitespace_is_that_of_unicode() {
    for code in 0..=0x10FFFFu32 {
        if let Some(c) = char::from_u32(code) {
            assert_eq!(char_is_whitespace(c), c.is_whitespace());
        }
    }
}

#[test]
fn lines_are_sorted_like_strings() {
    let lines = strings(&["b", "a\u{10000}", "a", "", "b", "a\u{ffff}", "ab", "B"]);
    let mut expected = lines.clone();
    expected.sort();
    assert_eq!(sort_lines(&lines), expected);
    expected.dedup();
    assert_eq!(sort_and_dedup(&lines), expected);
    assert_eq!(order_of(&strings(&["x", "a", "x", "a"])), vec![1, 3, 0, 2]);
    assert!(comes_first("a", "ab"));
    assert!(!comes_first("ab", "a"));
}

#[test]
fn case_mappings_are_those_of_unicode() {
    assert_eq!(capitalize("firmware"), "Firmware");
    assert_eq!(capitalize("\u{e9}a"), "\u{c9}a");
    assert_eq!(capitalize("\u{df}x"), "SSx");
    assert_eq!(capitalize(""), "");
    assert_eq!(to_lowercase("\u{c4}BC"), "\u{e4}bc");
}

#[test]
fn typescript_enums_count_up() {
    let value = |name: &str, value: Option<ConstValue>| EnumMember {
        name: name.to_string(),
        value,
        comments: Vec::new(),
    };
    let e = Commented {
        id: 0,
        node: EnumDef {
            name: "mode".to_string(),
            base_type: None,
            enumerators: vec![
                value("A", None),
                value("B", Some(number(5))),
                value("C", None),
                value("D", Some(ConstValue::Binary { value: -2, id: 0 })),
                value("E", Some(ConstValue::ScopedName(strings(&["X"])))),
                value("F", Some(number(i128::MAX))),
                value("G", None),
            ],
        },
        annotations: Vec::new(),
        comments: Vec::new(),
    };
    let expected = format!(
        "export enum Mode {{\n  A = 0,\n  B = 5,\n  C = 6,\n  D = -2,\n  E = -1,\n  F = {},\n  G = {},\n}}\n",
        i128::MAX,
        i128::MIN
    );
    assert_eq!(emit_enum("Mode", &e), expected);
}

#[test]
fn lowercase_idl_enum_emits_pascal_case_declaration() {
    let value = |name: &str, value: i128| EnumMember {
        name: name.to_string(),
        value: Some(number(value)),
        comments: Vec::new(),
    };
    let e = Commented {
        id: 0,
        node: EnumDef {
            name: "parameter8".to_string(),
            base_type: Some(Type::ScopedName(strings(&["uint8"]))),
            enumerators: vec![value("REVID", 0), value("ID", 1)],
        },
        annotations: Vec::new(),
        comments: Vec::new(),
    };
    let contents = emit_enum("Parameter8", &e);
    assert!(contents.contains("export enum Parameter8"));
    assert!(!contents.contains("export enum parameter8"));
    assert_eq!(contents, "export enum Parameter8 {\n  REVID = 0,\n  ID = 1,\n}\n");
}

#[test]
fn codegen_errors_are_described() {
    assert_eq!(
        describe_codegen_error(&CodegenError::MissingTopic { message: "M".to_string() }),
        "Message \"M\" is missing a @topic annotation"
    );
    assert_eq!(
        describe_codegen_error(&CodegenError::UnsupportedMessageBase { message: "M".to_string() }),
        "Message \"M\" cannot inherit from another type for code generation"
    );
    assert_eq!(
        describe_codegen_error(&CodegenError::UnsupportedMemberType {
            message: "M".to_string(),
            member: "m".to_string(),
            member_type: "wchar".to_string(),
        }),
        "Message \"M\" member \"m\" uses unsupported type \"wchar\""
    );
    assert_eq!(
        describe_codegen_error(&CodegenError::DuplicateMessageKey {
            module_key: 0x42,
            message_key: 0xabc,
            first: "A".to_string(),
            second: "B".to_string(),
        }),
        "Duplicate @message_key(0x0abc) in module 0x0042: used by \"A\" and \"B\""
    );
}

#[test]
fn analysis_depends_on_the_parse_and_the_mode() {
    let parsed = || Ok(Parsed { ast: "tree".to_string(), idl: "text".to_string() });
    assert!(shows_idl("idl") && shows_idl("") && !shows_idl("rust"));
    let a = analyze(parsed(), "idl");
    assert_eq!((a.ast.as_str(), a.generated.as_str()), ("tree", "text"));
    assert!(a.error.is_none() && a.codegen);
    assert_eq!(
        analyze(parsed(), "rust").generated,
        "Rust generation emits files; see the codegen.rust entry for results"
    );
    let failed = analyze(Err("boom".to_string()), "rust");
    assert_eq!(failed.generated, "Cannot generate Rust:\nboom");
    assert_eq!(failed.ast, "boom");
    assert_eq!(failed.error, Some("boom".to_string()));
    assert!(!failed.codegen);
    assert_eq!(analyze(Err("boom".to_string()), "").generated, "Cannot generate IDL:\nboom");
}

#[test]
fn codegen_entries_hold_files_or_an_error() {
    let file = GeneratedFile { path: "p".to_string(), contents: "c".to_string() };
    let good = codegen_entry(Ok(vec![file.clone()]));
    assert_eq!(good.files, vec![file]);
    assert!(good.error.is_none());
    let bad = codegen_entry(Err(CodegenError::MissingTopic { message: "M".to_string() }));
    assert!(bad.files.is_empty());
    assert_eq!(bad.error, Some("Message \"M\" is missing a @topic annotation".to_string()));
}
