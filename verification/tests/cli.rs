//! What the command line tool checks and changes.
use std::collections::HashSet;

use blueberry_codegen::annotations::annotation_u16;
use blueberry_codegen::ast::{
    Annotation, AnnotationParam, Commented, ConstValue, Definition, ImportDef, ImportScope,
    IntegerBase, IntegerLiteral, MessageDef, ModuleDef,
};
use blueberry_codegen::cli::assign::{
    auto_assign_message_keys, crc16_ccitt, find_free, keys_suffice, message_absolute_path,
    rooted_path, warn_missing_message_keys,
};
use blueberry_codegen::cli::bytes::{byte_offset_to_line, find_nth_pattern};
use blueberry_codegen::cli::diagnostics::{
    github_diagnostic, report_parse_error, Diagnostic, LabelColor, OutputFormat, ParseError,
    Report, Severity,
};
use blueberry_codegen::cli::imports::{collect_all_module_paths, validate_imports};
use blueberry_codegen::cli::keys::{validate_keys, SourceFile};
use blueberry_codegen::cli::modules::{merge_definitions, propagate_module_key_annotations};
use blueberry_codegen::cli::options::{
    check_input, fmt_codegen_error, is_rust_path, language_name, requested_targets, visit_entry,
    EmitOptions, Target, Visit,
};
use blueberry_codegen::cli::prepare::{check_files, prepare_directory, prepare_file, Refusal};
use blueberry_codegen::common::errors::CodegenError;

fn strings(parts: &[&str]) -> Vec<String> {
    parts.iter().map(|s| s.to_string()).collect()
}

fn key(name: &str, value: i128) -> Annotation {
    Annotation {
        name: strings(&[name]),
        params: vec![AnnotationParam::Positional(ConstValue::Integer(IntegerLiteral::new(
            value,
            IntegerBase::Hexadecimal,
        )))],
    }
}

fn module(name: &str, annotations: Vec<Annotation>, definitions: Vec<Definition>) -> Definition {
    Definition::ModuleDef(Commented {
        id: 0,
        node: ModuleDef { name: name.to_string(), definitions },
        annotations,
        comments: Vec::new(),
    })
}

fn message(name: &str, annotations: Vec<Annotation>) -> Definition {
    Definition::MessageDef(Commented {
        id: 0,
        node: MessageDef { name: name.to_string(), base: None, members: Vec::new() },
        annotations,
        comments: Vec::new(),
    })
}

fn import(path: &[&str]) -> Definition {
    Definition::ImportDef(Commented {
        id: 0,
        node: ImportDef { scope: ImportScope::Scoped(strings(path)) },
        annotations: Vec::new(),
        comments: Vec::new(),
    })
}

fn file(name: &str, source: &str, definitions: Vec<Definition>) -> SourceFile {
    SourceFile { name: name.to_string(), source: source.to_string(), definitions }
}

fn line(d: &Diagnostic) -> &str {
    match d {
        Diagnostic::Line(text) => text,
        Diagnostic::Report(_) => panic!("a report"),
    }
}

fn report(d: &Diagnostic) -> &Report {
    match d {
        Diagnostic::Report(r) => r,
        Diagnostic::Line(_) => panic!("a line"),
    }
}

fn keys_of(defs: &[Definition], out: &mut Vec<(String, Option<u16>)>) {
    for def in defs {
        match def {
            Definition::MessageDef(m) => {
                out.push((m.node.name.clone(), annotation_u16(&m.annotations, "message_key")))
            }
            Definition::ModuleDef(m) => keys_of(&m.node.definitions, out),
            _ => {}
        }
    }
}

#[test]
fn offsets_become_lines() {
    let source = "a\n\u{e9}\nc";
    assert_eq!(byte_offset_to_line(source, 0), 1);
    assert_eq!(byte_offset_to_line(source, 1), 1);
    assert_eq!(byte_offset_to_line(source, 2), 2);
    assert_eq!(byte_offset_to_line(source, 5), 3);
    assert_eq!(byte_offset_to_line(source, 1000), 3);
    assert_eq!(byte_offset_to_line("", 0), 1);
}

#[test]
fn patterns_are_found_in_bytes() {
    let source = "\u{e9} @key(1) @key(2) @key";
    assert_eq!(find_nth_pattern(source, "@key", 0), (3, 10));
    assert_eq!(find_nth_pattern(source, "@key", 1), (11, 18));
    assert_eq!(find_nth_pattern(source, "@key", 2), (19, 23));
    assert_eq!(find_nth_pattern(source, "@key", 3), (0, 4));
    assert_eq!(find_nth_pattern("ab", "@key", 0), (0, 2));
}

#[test]
fn commands_are_one_line() {
    let d = github_diagnostic("error", "f.idl", "a\nb", 2, "bad");
    assert_eq!(line(&d), "::error file=f.idl,line=2::bad");
}

#[test]
fn parse_errors_are_reported() {
    let source = "one\ntwo";
    let say = |error: &ParseError| {
        line(&report_parse_error(OutputFormat::Github, "f", source, error)).to_string()
    };
    let token = |expected| ParseError::UnrecognizedToken {
        start: 4,
        end: 7,
        token: "two".to_string(),
        expected,
    };
    assert_eq!(
        say(&token(Some("expected `;`".to_string()))),
        "::error file=f,line=2::unexpected token `two`: expected `;`"
    );
    assert_eq!(say(&token(None)), "::error file=f,line=2::unexpected token `two`: unexpected token");
    assert_eq!(
        say(&ParseError::UnrecognizedEof { location: 99, expected: None }),
        "::error file=f,line=2::unexpected end of input: unexpected end of input"
    );
    assert_eq!(say(&ParseError::InvalidToken { location: 1 }), "::error file=f,line=1::invalid token");
    assert_eq!(
        say(&ParseError::ExtraToken { start: 0, end: 3, token: "one".to_string() }),
        "::error file=f,line=1::unexpected extra token `one`"
    );
    assert_eq!(
        say(&ParseError::Validation { message: "no".to_string() }),
        "::error file=f,line=1::no"
    );

    let draw = |error: &ParseError| report_parse_error(OutputFormat::Human, "f", source, error);
    let d = draw(&token(None));
    let r = report(&d);
    assert_eq!(r.message, "unexpected token `two`");
    assert_eq!((r.offset, r.labels[0].start, r.labels[0].end), (4, 4, 7));
    assert_eq!(r.labels[0].message, "unexpected token");
    assert_eq!(r.labels[0].color, LabelColor::Red);
    assert_eq!(r.severity, Severity::Error);
    let d = draw(&ParseError::UnrecognizedEof {
        location: 99,
        expected: Some("expected more".to_string()),
    });
    assert_eq!((report(&d).offset, report(&d).labels[0].end), (7, 7));
    assert_eq!(report(&d).labels[0].message, "expected more");
    let d = draw(&ParseError::InvalidToken { location: 6 });
    assert_eq!((report(&d).labels[0].start, report(&d).labels[0].end), (6, 7));
    let d = draw(&ParseError::InvalidToken { location: 7 });
    assert_eq!((report(&d).labels[0].start, report(&d).labels[0].end), (7, 7));
    let d = draw(&ParseError::ExtraToken { start: 0, end: 3, token: "one".to_string() });
    assert_eq!(report(&d).labels[0].message, "not expected here");
    let d = draw(&ParseError::Validation { message: "no".to_string() });
    assert!(report(&d).labels.is_empty());
}

#[test]
fn agreeing_keys_pass() {
    let files = vec![
        file("a", "", vec![module("M", vec![key("module_key", 1)], vec![message("A", vec![key("message_key", 5)])])]),
        file("b", "", vec![module("M", vec![key("module_key", 1)], vec![message("A", vec![key("message_key", 5)])])]),
        file("c", "", vec![module("N", vec![key("module_key", 2)], vec![message("B", vec![key("message_key", 5)])])]),
    ];
    assert!(validate_keys(OutputFormat::Github, &files).is_ok());
}

#[test]
fn conflicting_module_keys_are_reported() {
    let files = || {
        vec![
            file(
                "a.idl",
                "@module_key(0x1)\nmodule M",
                vec![module("M", vec![key("module_key", 1)], Vec::new())],
            ),
            file(
                "b.idl",
                "\n@module_key(0x2a)\nmodule M",
                vec![module("M", vec![key("module_key", 42)], Vec::new())],
            ),
        ]
    };
    let said = validate_keys(OutputFormat::Github, &files()).unwrap_err();
    assert_eq!(said.len(), 1);
    assert_eq!(
        line(&said[0]),
        "::error file=b.idl,line=2::conflicting @module_key values for module `M`: 0x2A here vs 0x1 in a.idl:1"
    );
    let said = validate_keys(OutputFormat::Human, &files()).unwrap_err();
    let r = report(&said[0]);
    assert_eq!(r.message, "conflicting @module_key values for module `M`");
    assert_eq!((r.file.as_str(), r.offset), ("b.idl", 1));
    assert_eq!(r.labels[0].message, "defined as @module_key(0x2A)");
    assert_eq!((r.labels[0].start, r.labels[0].end), (1, 18));
    assert_eq!(r.labels[1].message, "previously defined as @module_key(0x1)");
    assert_eq!(r.labels[1].file, "a.idl");
    assert_eq!(r.labels[1].color, LabelColor::Yellow);
}

#[test]
fn duplicate_message_keys_are_reported() {
    let files = || {
        vec![file(
            "a.idl",
            "@message_key(0x5) message A\n@message_key(0x5) message B",
            vec![module(
                "Root",
                Vec::new(),
                vec![
                    message("A", vec![key("message_key", 5)]),
                    module("In", Vec::new(), vec![message("B", vec![key("message_key", 5)])]),
                ],
            )],
        )]
    };
    let said = validate_keys(OutputFormat::Github, &files()).unwrap_err();
    assert_eq!(
        line(&said[0]),
        "::error file=a.idl,line=2::duplicate @message_key(0x5) in module `Root`: used by `B` here and `A` in a.idl:1"
    );
    let said = validate_keys(OutputFormat::Human, &files()).unwrap_err();
    let r = report(&said[0]);
    assert_eq!(r.message, "duplicate @message_key(0x5) in module `Root`");
    assert_eq!(r.labels[0].message, "used by message `B`");
    assert_eq!(r.labels[1].message, "first used by message `A`");
    assert_eq!((r.labels[1].start, r.labels[1].end), (0, 17));
}

#[test]
fn imports_must_name_modules() {
    let source = "import ::Known;\nimport ::Lost::One;";
    let files = vec![
        file("a", source, vec![import(&["Known"]), module("X", Vec::new(), vec![import(&["Lost", "One"])])]),
        file("b", "", vec![module("Known", Vec::new(), vec![module("In", Vec::new(), Vec::new())])]),
    ];
    let paths = collect_all_module_paths(&files);
    assert_eq!(
        paths,
        vec![strings(&["X"]), strings(&["Known"]), strings(&["Known", "In"])]
    );
    let said = validate_imports(OutputFormat::Github, &files, &paths).unwrap_err();
    assert_eq!(said.len(), 1);
    assert_eq!(
        line(&said[0]),
        "::error file=a,line=2::unresolved import `Lost::One`: no module `Lost::One` exists"
    );
    let said = validate_imports(OutputFormat::Human, &files, &paths).unwrap_err();
    let r = report(&said[0]);
    assert_eq!(r.message, "unresolved import `Lost::One`");
    assert_eq!((r.labels[0].start, r.labels[0].end), (16, 35));
    assert_eq!(r.labels[0].message, "no module `Lost::One` exists");
    assert!(validate_imports(OutputFormat::Human, &files, &vec![strings(&["Known"]), strings(&["Lost", "One"])]).is_ok());
}

#[test]
fn crc_has_its_check_value() {
    assert_eq!(crc16_ccitt(b"123456789"), 0x29B1);
    assert_eq!(crc16_ccitt(b""), 0xFFFF);
}

#[test]
fn paths_are_lowercased() {
    assert_eq!(message_absolute_path(&strings(&["Blueberry", "DevICES"]), "\u{c4}Msg"), "::blueberry::devices::\u{e4}msg");
    assert_eq!(message_absolute_path(&[], "A"), "::a");
    assert_eq!(rooted_path(&strings(&["M", "N"]), "x"), "::M::N::x");
}

#[test]
fn missing_keys_are_warned_about() {
    let source = "module M { message Ping {} }";
    let files = vec![file(
        "f",
        source,
        vec![module(
            "M",
            Vec::new(),
            vec![message("Ping", Vec::new()), message("Keyed", vec![key("message_key", 1)])],
        )],
    )];
    let hash = crc16_ccitt(b"::m::ping");
    let said = warn_missing_message_keys(OutputFormat::Github, &files);
    assert_eq!(said.len(), 1);
    assert_eq!(
        line(&said[0]),
        format!(
            "::warning file=f,line=1::message `Ping` has no @message_key \u{2014} auto-assigned @message_key(0x{:X}) from CRC-16 CCITT of `::m::ping`",
            hash
        )
    );
    let said = warn_missing_message_keys(OutputFormat::Human, &files);
    let r = report(&said[0]);
    assert_eq!(r.severity, Severity::Warning);
    assert_eq!(r.message, "message `Ping` has no @message_key");
    assert_eq!((r.labels[0].start, r.labels[0].end), (11, 23));
    assert_eq!(r.labels[0].message, "missing @message_key annotation");
    assert_eq!(
        r.note,
        Some(format!("@message_key(0x{:X}) will be auto-assigned from CRC-16 of `::m::ping`", hash))
    );
    assert_eq!(
        r.help,
        Some("the hash uses CRC-16 CCITT of the lowercased absolute path; collisions are resolved by incrementing it by one".to_string())
    );
}

#[test]
fn missing_keys_are_assigned_from_the_path() {
    let hash = crc16_ccitt(b"::m::ping");
    let mut defs = vec![
        message("Taken", vec![key("message_key", hash as i128)]),
        module("M", Vec::new(), vec![message("Ping", Vec::new()), message("ping", Vec::new())]),
    ];
    assert!(keys_suffice(&defs));
    auto_assign_message_keys(&mut defs);
    let mut keys = Vec::new();
    keys_of(&defs, &mut keys);
    assert_eq!(
        keys,
        vec![
            ("Taken".to_string(), Some(hash)),
            ("Ping".to_string(), Some(hash.wrapping_add(1))),
            ("ping".to_string(), Some(hash.wrapping_add(2))),
        ]
    );
    auto_assign_message_keys(&mut defs);
    let mut again = Vec::new();
    keys_of(&defs, &mut again);
    assert_eq!(again, keys);
}

#[test]
fn the_first_free_key_is_taken() {
    let used = HashSet::from([5, 6, 65535, 0]);
    assert_eq!(find_free(4, &used), 4);
    assert_eq!(find_free(5, &used), 7);
    assert_eq!(find_free(65535, &used), 1);
}

#[test]
fn keys_run_out_after_all_are_given() {
    let mut defs: Vec<Definition> =
        (0..65536).map(|i| message("K", vec![key("message_key", i)])).collect();
    assert!(keys_suffice(&defs));
    defs.push(message("One", Vec::new()));
    assert!(!keys_suffice(&defs));
    match prepare_file(OutputFormat::Human, file("f", "", vec![module("M", Vec::new(), Vec::new())])) {
        Ok(p) => assert_eq!(p.definitions.len(), 1),
        Err(e) => panic!("{:?}", e),
    }
    defs.swap(0, 65536);
    defs.pop();
    assert!(keys_suffice(&defs));
    auto_assign_message_keys(&mut defs);
    let mut keys = Vec::new();
    keys_of(&defs, &mut keys);
    assert_eq!(keys[0], ("One".to_string(), Some(0)));
}

#[test]
fn modules_are_merged_by_name() {
    let mut target = vec![module("A", vec![key("module_key", 1)], vec![message("X", Vec::new())])];
    merge_definitions(
        &mut target,
        vec![
            module(
                "A",
                vec![key("module_key", 2)],
                vec![message("Y", Vec::new()), module("In", Vec::new(), Vec::new())],
            ),
            module("B", Vec::new(), Vec::new()),
            module("A", Vec::new(), vec![message("Z", Vec::new())]),
            message("Top", Vec::new()),
        ],
    );
    assert_eq!(target.len(), 3);
    match &target[0] {
        Definition::ModuleDef(m) => {
            assert_eq!(m.annotations.len(), 1);
            assert_eq!(annotation_u16(&m.annotations, "module_key"), Some(1));
            assert_eq!(m.node.definitions.len(), 4);
        }
        _ => panic!("not a module"),
    }
    let mut keys = Vec::new();
    keys_of(&target, &mut keys);
    let names: Vec<&str> = keys.iter().map(|(n, _)| n.as_str()).collect();
    assert_eq!(names, vec!["X", "Y", "Z", "Top"]);
}

#[test]
fn modules_are_merged_at_every_level() {
    fn outline(defs: &[Definition]) -> String {
        let parts: Vec<String> = defs
            .iter()
            .map(|d| match d {
                Definition::ModuleDef(m) => {
                    format!("{}({})", m.node.name, outline(&m.node.definitions))
                }
                Definition::MessageDef(m) => m.node.name.clone(),
                _ => "?".to_string(),
            })
            .collect();
        parts.join(" ")
    }
    let mut target = vec![
        message("M", Vec::new()),
        module(
            "A",
            vec![key("module_key", 7)],
            vec![module("In", Vec::new(), vec![message("X", Vec::new())])],
        ),
    ];
    merge_definitions(
        &mut target,
        vec![
            module("B", Vec::new(), vec![message("Y", Vec::new())]),
            module(
                "A",
                Vec::new(),
                vec![
                    module("In", Vec::new(), vec![message("X", Vec::new())]),
                    module("Out", Vec::new(), Vec::new()),
                ],
            ),
            message("M", Vec::new()),
        ],
    );
    assert_eq!(outline(&target), "M A(In(X X) Out()) B(Y) M");
    match &target[1] {
        Definition::ModuleDef(m) => {
            assert_eq!(annotation_u16(&m.annotations, "module_key"), Some(7));
        }
        _ => panic!("not a module"),
    }
}

#[test]
fn module_keys_are_shared_by_name() {
    let mut defs = vec![
        module("A", Vec::new(), vec![module("B", vec![key("module_key", 7)], Vec::new())]),
        module("B", Vec::new(), vec![module("C", Vec::new(), Vec::new())]),
        module("A", vec![key("module_key", 3)], Vec::new()),
        module("B", vec![key("module_key", 9)], Vec::new()),
    ];
    propagate_module_key_annotations(&mut defs);
    let keys: Vec<Option<u16>> = defs
        .iter()
        .map(|d| match d {
            Definition::ModuleDef(m) => annotation_u16(&m.annotations, "module_key"),
            _ => None,
        })
        .collect();
    assert_eq!(keys, vec![Some(3), Some(7), Some(3), Some(9)]);
    let once = format!("{:?}", defs);
    propagate_module_key_annotations(&mut defs);
    assert_eq!(format!("{:?}", defs), once);
    match &defs[1] {
        Definition::ModuleDef(m) => match &m.node.definitions[0] {
            Definition::ModuleDef(c) => assert!(c.annotations.is_empty()),
            _ => panic!("not a module"),
        },
        _ => panic!("not a module"),
    }
}

#[test]
fn directories_are_prepared() {
    let files = vec![
        file("a", "", vec![module("M", Vec::new(), vec![message("A", Vec::new())])]),
        file("b", "", vec![module("M", Vec::new(), vec![message("B", vec![key("message_key", 5)])])]),
    ];
    let prepared = prepare_directory(OutputFormat::Github, files).unwrap();
    assert_eq!(prepared.warnings.len(), 1);
    assert_eq!(prepared.definitions.len(), 1);
    let mut keys = Vec::new();
    keys_of(&prepared.definitions, &mut keys);
    assert_eq!(
        keys,
        vec![("A".to_string(), Some(crc16_ccitt(b"::m::a"))), ("B".to_string(), Some(5))]
    );
}

#[test]
fn checks_stop_at_the_keys() {
    let bad_keys = || {
        vec![
            module("M", vec![key("module_key", 1)], Vec::new()),
            module("M", vec![key("module_key", 2)], vec![import(&["Lost"])]),
        ]
    };
    match prepare_file(OutputFormat::Github, file("f", "", bad_keys())) {
        Err(Refusal::Diagnostics(said)) => {
            assert_eq!(said.len(), 1);
            assert!(line(&said[0]).contains("conflicting @module_key"));
        }
        other => panic!("{:?}", other),
    }
    let said = check_files(OutputFormat::Github, &vec![file("f", "", vec![import(&["Lost"])])])
        .unwrap_err();
    assert_eq!(line(&said[0]), "::error file=f,line=1::unresolved import `Lost`: no module `Lost` exists");
}

#[test]
fn files_without_a_free_key_are_refused() {
    let mut defs: Vec<Definition> =
        (0..65536).map(|i| message("K", vec![key("message_key", i)])).collect();
    defs.push(message("One", Vec::new()));
    assert!(!keys_suffice(&defs));
    let spread: Vec<Definition> = (0..65537).map(|i| message(&format!("m{i}"), Vec::new())).collect();
    assert!(!keys_suffice(&spread));
    assert!(matches!(
        prepare_file(OutputFormat::Github, file("f", "", spread)),
        Err(Refusal::OutOfKeys)
    ));
}

#[test]
fn directories_can_only_be_formatted() {
    let none = EmitOptions {
        idl: true,
        rust: false,
        c: false,
        cpp: false,
        python: false,
        typescript: false,
    };
    assert_eq!(check_input(true, none), Ok(()));
    let c = EmitOptions { c: true, ..none };
    assert_eq!(check_input(false, c), Ok(()));
    assert_eq!(
        check_input(true, c),
        Err("directory input only supports `--emit-idl`".to_string())
    );
    let all = EmitOptions { idl: true, rust: true, c: true, cpp: true, python: true, typescript: true };
    assert_eq!(
        requested_targets(all),
        vec![Target::Rust, Target::C, Target::Cpp, Target::Python, Target::TypeScript]
    );
    assert_eq!(requested_targets(none), vec![]);
    assert_eq!(language_name(Target::Cpp), "C++");
}

#[test]
fn entries_are_visited_by_name() {
    assert_eq!(visit_entry(true, Some("src"), None), Visit::Descend);
    assert_eq!(visit_entry(true, Some("test"), None), Visit::Skip);
    assert_eq!(visit_entry(true, None, None), Visit::Descend);
    assert_eq!(visit_entry(false, Some("a.idl"), Some("idl")), Visit::Take);
    assert_eq!(visit_entry(false, Some("a.IDL"), Some("IDL")), Visit::Skip);
    assert_eq!(visit_entry(false, Some("test"), None), Visit::Skip);
    assert!(is_rust_path("src/lib.rs"));
    assert!(!is_rust_path("src/lib.rst"));
}

#[test]
fn codegen_errors_name_the_language() {
    assert_eq!(
        fmt_codegen_error("C", &CodegenError::MissingTopic { message: "M".to_string() }),
        "C generation failed: missing @topic for message M"
    );
    assert_eq!(
        fmt_codegen_error("C", &CodegenError::UnsupportedMessageBase { message: "M".to_string() }),
        "C generation failed: message M uses inheritance which is unsupported"
    );
    assert_eq!(
        fmt_codegen_error(
            "Rust",
            &CodegenError::UnsupportedMemberType {
                message: "M".to_string(),
                member: "m".to_string(),
                member_type: "wchar".to_string(),
            }
        ),
        "Rust generation failed: member m in M uses unsupported type wchar"
    );
    assert_eq!(
        fmt_codegen_error(
            "C++",
            &CodegenError::DuplicateMessageKey {
                module_key: 0x42,
                message_key: 0xabc,
                first: "A".to_string(),
                second: "B".to_string(),
            }
        ),
        "C++ generation failed: duplicate @message_key(0x0abc) in module 0x0042: used by A and B"
    );
}
