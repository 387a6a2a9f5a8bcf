//! What the tool was asked to do.
use vstd::prelude::*;
use crate::common::errors::{CodegenError, CodegenErrorView};
use crate::concat::{lemma_occurs_in_sum, lemma_occurs_whole, occurs, Text};
use crate::numerals::{hex, hex_text};
use crate::text::{ends_with, has_suffix, owned, same_text};

verus! {

broadcast use crate::concat::group_append;

/// The outputs that were asked for.
#[derive(Debug, Clone, Copy)]
pub struct EmitOptions {
    pub idl: bool,
    pub rust: bool,
    pub c: bool,
    pub cpp: bool,
    pub python: bool,
    pub typescript: bool,
}

/// Whether generated files were asked for, in any language.
pub open spec fn wants_files(options: EmitOptions) -> bool {
    options.rust || options.c || options.cpp || options.python || options.typescript
}

/// A directory can only be formatted: files are generated from a single file.
pub fn check_input(is_dir: bool, options: EmitOptions) -> (r: Result<(), String>)
    ensures
        match r {
            Ok(_) => !(is_dir && wants_files(options)),
            Err(message) => {
                &&& is_dir
                &&& wants_files(options)
                &&& message@ == "directory input only supports `--emit-idl`"@
            },
        },
{
    if is_dir && (options.rust || options.c || options.cpp || options.python
        || options.typescript) {
        Err(owned("directory input only supports `--emit-idl`"))
    } else {
        Ok(())
    }
}

/// A language that files are generated in.
#[derive(Debug, Clone, Copy, PartialEq, Eq, Structural)]
pub enum Target {
    Rust,
    C,
    Cpp,
    Python,
    TypeScript,
}

/// The languages that were asked for, in the order in which they are generated.
pub open spec fn targets(options: EmitOptions) -> Seq<Target> {
    (if options.rust {
        seq![Target::Rust]
    } else {
        Seq::empty()
    }) + (if options.c {
        seq![Target::C]
    } else {
        Seq::empty()
    }) + (if options.cpp {
        seq![Target::Cpp]
    } else {
        Seq::empty()
    }) + (if options.python {
        seq![Target::Python]
    } else {
        Seq::empty()
    }) + (if options.typescript {
        seq![Target::TypeScript]
    } else {
        Seq::empty()
    })
}

/// The languages that were asked for, in the order in which they are generated.
pub fn requested_targets(options: EmitOptions) -> (r: Vec<Target>)
    ensures
        r@ == targets(options),
{
    let mut r: Vec<Target> = Vec::new();
    if options.rust {
        r.push(Target::Rust);
    }
    if options.c {
        r.push(Target::C);
    }
    if options.cpp {
        r.push(Target::Cpp);
    }
    if options.python {
        r.push(Target::Python);
    }
    if options.typescript {
        r.push(Target::TypeScript);
    }
    assert(r@ =~= targets(options));
    r
}

/// The name of a language.
pub open spec fn language(target: Target) -> Text {
    match target {
        Target::Rust => "Rust"@,
        Target::C => "C"@,
        Target::Cpp => "C++"@,
        Target::Python => "Python"@,
        Target::TypeScript => "TypeScript"@,
    }
}

/// The name of a language.
pub fn language_name(target: Target) -> (r: &'static str)
    ensures
        r@ == language(target),
{
    match target {
        Target::Rust => "Rust",
        Target::C => "C",
        Target::Cpp => "C++",
        Target::Python => "Python",
        Target::TypeScript => "TypeScript",
    }
}

/// What to do with an entry of a directory.
#[derive(Debug, Clone, Copy, PartialEq, Eq, Structural)]
pub enum Visit {
    /// Look into it.
    Descend,
    /// Read it.
    Take,
    /// Leave it.
    Skip,
}

/// Directories are looked into unless they are named `test`; files are read
/// where their extension is `idl`.
pub fn visit_entry(is_dir: bool, name: Option<&str>, extension: Option<&str>) -> (r: Visit)
    ensures
        r == (if is_dir {
            if name is Some && name.unwrap()@ == "test"@ {
                Visit::Skip
            } else {
                Visit::Descend
            }
        } else if extension is Some && extension.unwrap()@ == "idl"@ {
            Visit::Take
        } else {
            Visit::Skip
        }),
{
    if is_dir {
        match name {
            Some(n) => if same_text(n, "test") {
                Visit::Skip
            } else {
                Visit::Descend
            },
            None => Visit::Descend,
        }
    } else {
        match extension {
            Some(e) => if same_text(e, "idl") {
                Visit::Take
            } else {
                Visit::Skip
            },
            None => Visit::Skip,
        }
    }
}

/// Whether a generated file is to be formatted: whether its path ends in `.rs`.
pub fn is_rust_path(path: &str) -> (r: bool)
    ensures
        r == has_suffix(path@, ".rs"@),
{
    ends_with(path, ".rs")
}

/// What is said where a generator gave up.
pub open spec fn generation_failure(language: Text, err: CodegenErrorView) -> Text {
    match err {
        CodegenErrorView::MissingTopic { message } => language
            + " generation failed: missing @topic for message "@ + message,
        CodegenErrorView::UnsupportedMessageBase { message } => language
            + " generation failed: message "@ + message
            + " uses inheritance which is unsupported"@,
        CodegenErrorView::UnsupportedMemberType { message, member, member_type } => language
            + " generation failed: member "@ + member + " in "@ + message
            + " uses unsupported type "@ + member_type,
        CodegenErrorView::DuplicateMessageKey { module_key, message_key, first, second } => language
            + " generation failed: duplicate @message_key(0x"@ + hex(message_key as nat, 4)
            + ") in module 0x"@ + hex(module_key as nat, 4) + ": used by "@ + first + " and "@
            + second,
    }
}

/// Says why a generator gave up.
pub fn fmt_codegen_error(language: &str, err: &CodegenError) -> (r: String)
    ensures
        r@ == generation_failure(language@, err@),
{
    let mut r = owned(language);
    match err {
        CodegenError::MissingTopic { message } => {
            r.push_str(" generation failed: missing @topic for message ");
            r.push_str(message.as_str());
        },
        CodegenError::UnsupportedMessageBase { message } => {
            r.push_str(" generation failed: message ");
            r.push_str(message.as_str());
            r.push_str(" uses inheritance which is unsupported");
        },
        CodegenError::UnsupportedMemberType { message, member, member_type } => {
            r.push_str(" generation failed: member ");
            r.push_str(member.as_str());
            r.push_str(" in ");
            r.push_str(message.as_str());
            r.push_str(" uses unsupported type ");
            r.push_str(member_type.as_str());
        },
        CodegenError::DuplicateMessageKey { module_key, message_key, first, second } => {
            r.push_str(" generation failed: duplicate @message_key(0x");
            r.push_str(hex_text(*message_key as u128, 4).as_str());
            r.push_str(") in module 0x");
            r.push_str(hex_text(*module_key as u128, 4).as_str());
            r.push_str(": used by ");
            r.push_str(first.as_str());
            r.push_str(" and ");
            r.push_str(second.as_str());
        },
    }
    r
}

/// A language is generated exactly where it was asked for, and once.
pub proof fn law_languages_are_generated_where_asked_for(options: EmitOptions, target: Target)
    ensures
        targets(options).no_duplicates(),
        targets(options).contains(target) <==> match target {
            Target::Rust => options.rust,
            Target::C => options.c,
            Target::Cpp => options.cpp,
            Target::Python => options.python,
            Target::TypeScript => options.typescript,
        },
        wants_files(options) <==> targets(options).len() > 0,
{
    let a: Seq<Target> = if options.rust {
        seq![Target::Rust]
    } else {
        Seq::empty()
    };
    let b = a + if options.c {
        seq![Target::C]
    } else {
        Seq::empty()
    };
    let c = b + if options.cpp {
        seq![Target::Cpp]
    } else {
        Seq::empty()
    };
    let d = c + if options.python {
        seq![Target::Python]
    } else {
        Seq::empty()
    };
    let all = targets(options);
    if options.rust {
        assert(all[0] == Target::Rust);
    }
    if options.c {
        assert(all[a.len() as int] == Target::C);
    }
    if options.cpp {
        assert(all[b.len() as int] == Target::Cpp);
    }
    if options.python {
        assert(all[c.len() as int] == Target::Python);
    }
    if options.typescript {
        assert(all[d.len() as int] == Target::TypeScript);
    }
}

/// What is said of a failure begins with the language and names what it is about.
pub proof fn law_failures_name_what_failed(language: Text, err: CodegenErrorView)
    ensures
        language.is_prefix_of(generation_failure(language, err)),
        match err {
            CodegenErrorView::MissingTopic { message } => occurs(
                generation_failure(language, err),
                message,
            ),
            CodegenErrorView::UnsupportedMessageBase { message } => occurs(
                generation_failure(language, err),
                message,
            ),
            CodegenErrorView::UnsupportedMemberType { message, member, member_type } => {
                let text = generation_failure(language, err);
                occurs(text, message) && occurs(text, member) && occurs(text, member_type)
            },
            CodegenErrorView::DuplicateMessageKey { module_key, message_key, first, second } => {
                let text = generation_failure(language, err);
                occurs(text, first) && occurs(text, second) && occurs(
                    text,
                    hex(module_key as nat, 4),
                ) && occurs(text, hex(message_key as nat, 4))
            },
        },
{
    broadcast use lemma_occurs_in_sum;

    let text = generation_failure(language, err);
    assert(text.subrange(0, language.len() as int) =~= language);
    match err {
        CodegenErrorView::MissingTopic { message } => {
            lemma_occurs_whole(message);
        },
        CodegenErrorView::UnsupportedMessageBase { message } => {
            lemma_occurs_whole(message);
        },
        CodegenErrorView::UnsupportedMemberType { message, member, member_type } => {
            lemma_occurs_whole(message);
            lemma_occurs_whole(member);
            lemma_occurs_whole(member_type);
        },
        CodegenErrorView::DuplicateMessageKey { module_key, message_key, first, second } => {
            lemma_occurs_whole(first);
            lemma_occurs_whole(second);
            lemma_occurs_whole(hex(module_key as nat, 4));
            lemma_occurs_whole(hex(message_key as nat, 4));
        },
    }
}

/// Different languages have different names.
pub proof fn law_languages_have_different_names(a: Target, b: Target)
    ensures
        language(a) == language(b) ==> a == b,
{
    reveal_strlit("Rust");
    reveal_strlit("C");
    reveal_strlit("C++");
    reveal_strlit("Python");
    reveal_strlit("TypeScript");
    assert("Rust"@.len() == 4 && "C"@.len() == 1 && "C++"@.len() == 3 && "Python"@.len() == 6
        && "TypeScript"@.len() == 10);
}

} // verus!
