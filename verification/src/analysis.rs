//! What an editor is told about a source and the files generated from it.
use vstd::prelude::*;
use crate::common::errors::{CodegenError, CodegenErrorView, GeneratedFile};
use crate::concat::{lemma_occurs, lemma_occurs_in_sum, lemma_occurs_whole, occurs, views, Text};
use crate::numerals::{hex, hex_text};
use crate::text::{owned, same_text};

verus! {

broadcast use {crate::concat::group_append, crate::concat::group_views};

/// What is told about an error of a generator.
pub open spec fn description(err: CodegenErrorView) -> Text {
    match err {
        CodegenErrorView::MissingTopic { message } => "Message \""@ + message
            + "\" is missing a @topic annotation"@,
        CodegenErrorView::UnsupportedMessageBase { message } => "Message \""@ + message
            + "\" cannot inherit from another type for code generation"@,
        CodegenErrorView::UnsupportedMemberType { message, member, member_type } => "Message \""@
            + message + "\" member \""@ + member + "\" uses unsupported type \""@ + member_type
            + "\""@,
        CodegenErrorView::DuplicateMessageKey { module_key, message_key, first, second } =>
            "Duplicate @message_key(0x"@ + hex(message_key as nat, 4) + ") in module 0x"@ + hex(
            module_key as nat,
            4,
        ) + ": used by \""@ + first + "\" and \""@ + second + "\""@,
    }
}

/// Describes an error of a generator.
pub fn describe_codegen_error(err: &CodegenError) -> (r: String)
    ensures
        r@ == description(err@),
{
    match err {
        CodegenError::MissingTopic { message } => {
            let mut r = owned("Message \"");
            r.push_str(message.as_str());
            r.push_str("\" is missing a @topic annotation");
            r
        },
        CodegenError::UnsupportedMessageBase { message } => {
            let mut r = owned("Message \"");
            r.push_str(message.as_str());
            r.push_str("\" cannot inherit from another type for code generation");
            r
        },
        CodegenError::UnsupportedMemberType { message, member, member_type } => {
            let mut r = owned("Message \"");
            r.push_str(message.as_str());
            r.push_str("\" member \"");
            r.push_str(member.as_str());
            r.push_str("\" uses unsupported type \"");
            r.push_str(member_type.as_str());
            r.push_str("\"");
            r
        },
        CodegenError::DuplicateMessageKey { module_key, message_key, first, second } => {
            let mut r = owned("Duplicate @message_key(0x");
            r.push_str(hex_text(*message_key as u128, 4).as_str());
            r.push_str(") in module 0x");
            r.push_str(hex_text(*module_key as u128, 4).as_str());
            r.push_str(": used by \"");
            r.push_str(first.as_str());
            r.push_str("\" and \"");
            r.push_str(second.as_str());
            r.push_str("\"");
            r
        },
    }
}

/// What a generator made: its files, or why there are none.
#[derive(Debug)]
pub struct CodegenEntry {
    pub files: Vec<GeneratedFile>,
    pub error: Option<String>,
}

/// The outcome of a generator: the files it made, or a description of its error.
pub fn codegen_entry(result: Result<Vec<GeneratedFile>, CodegenError>) -> (r: CodegenEntry)
    ensures
        match result {
            Ok(files) => views(r.files@) == views(files@) && r.error is None,
            Err(e) => r.files@.len() == 0 && r.error is Some && r.error.unwrap()@ == description(
                e@,
            ),
        },
{
    match result {
        Ok(files) => CodegenEntry { files, error: None },
        Err(e) => CodegenEntry { files: Vec::new(), error: Some(describe_codegen_error(&e)) },
    }
}

/// A source that could be parsed: its syntax tree and its formatted text, which is
/// read only where it is shown.
#[derive(Debug)]
pub struct Parsed {
    pub ast: String,
    pub idl: String,
}

/// What is told about a source.
#[derive(Debug)]
pub struct Analysis {
    pub ast: String,
    pub generated: String,
    pub error: Option<String>,
    /// Whether the generators are to be run.
    pub codegen: bool,
}

/// Whether the formatted text of a source is shown.
pub fn shows_idl(mode: &str) -> (r: bool)
    ensures
        r == (mode@ != "rust"@),
{
    !same_text(mode, "rust")
}

/// Tells about a source. Where it could not be parsed, the error stands for the
/// syntax tree as well; otherwise the generators are to be run, and the text is
/// the formatted source unless Rust was asked for.
pub fn analyze(parse: Result<Parsed, String>, mode: &str) -> (r: Analysis)
    ensures
        match parse {
            Ok(parsed) => {
                &&& r.ast@ == parsed.ast@
                &&& r.generated@ == (if mode@ == "rust"@ {
                    "Rust generation emits files; see the codegen.rust entry for results"@
                } else {
                    parsed.idl@
                })
                &&& r.error is None
                &&& r.codegen
            },
            Err(e) => {
                &&& r.ast@ == e@
                &&& r.generated@ == "Cannot generate "@ + (if mode@ == "rust"@ {
                    "Rust"@
                } else {
                    "IDL"@
                }) + ":\n"@ + e@
                &&& r.error is Some
                &&& r.error.unwrap()@ == e@
                &&& !r.codegen
            },
        },
{
    let rust = !shows_idl(mode);
    match parse {
        Ok(parsed) => {
            let generated = if rust {
                owned("Rust generation emits files; see the codegen.rust entry for results")
            } else {
                parsed.idl
            };
            Analysis { ast: parsed.ast, generated, error: None, codegen: true }
        },
        Err(e) => {
            let mut generated = owned("Cannot generate ");
            if rust {
                generated.push_str("Rust");
            } else {
                generated.push_str("IDL");
            }
            generated.push_str(":\n");
            generated.push_str(e.as_str());
            Analysis { ast: e.clone(), generated, error: Some(e), codegen: false }
        },
    }
}

/// What is told about an error names what it is about.
pub proof fn law_descriptions_name_what_failed(err: CodegenErrorView)
    ensures
        match err {
            CodegenErrorView::MissingTopic { message } => occurs(description(err), message),
            CodegenErrorView::UnsupportedMessageBase { message } => occurs(
                description(err),
                message,
            ),
            CodegenErrorView::UnsupportedMemberType { message, member, member_type } => {
                let text = description(err);
                occurs(text, message) && occurs(text, member) && occurs(text, member_type)
            },
            CodegenErrorView::DuplicateMessageKey { module_key, message_key, first, second } => {
                let text = description(err);
                occurs(text, first) && occurs(text, second) && occurs(
                    text,
                    "module 0x"@ + hex(module_key as nat, 4),
                ) && occurs(text, "@message_key(0x"@ + hex(message_key as nat, 4))
            },
        },
{
    let text = description(err);
    match err {
        CodegenErrorView::MissingTopic { message } => {
            lemma_occurs_whole(message);
            broadcast use lemma_occurs_in_sum;

        },
        CodegenErrorView::UnsupportedMessageBase { message } => {
            lemma_occurs_whole(message);
            broadcast use lemma_occurs_in_sum;

        },
        CodegenErrorView::UnsupportedMemberType { message, member, member_type } => {
            lemma_occurs_whole(message);
            lemma_occurs_whole(member);
            lemma_occurs_whole(member_type);
            broadcast use lemma_occurs_in_sum;

        },
        CodegenErrorView::DuplicateMessageKey { module_key, message_key, first, second } => {
            lemma_occurs_whole(first);
            lemma_occurs_whole(second);
            reveal_strlit("Duplicate @message_key(0x");
            reveal_strlit("Duplicate ");
            reveal_strlit("@message_key(0x");
            reveal_strlit(") in module 0x");
            reveal_strlit(") in ");
            reveal_strlit("module 0x");
            assert("Duplicate @message_key(0x"@ =~= "Duplicate "@ + "@message_key(0x"@);
            assert(") in module 0x"@ =~= ") in "@ + "module 0x"@);
            let message_part = "@message_key(0x"@ + hex(message_key as nat, 4);
            let module_part = "module 0x"@ + hex(module_key as nat, 4);
            let end = ": used by \""@ + first + "\" and \""@ + second + "\""@;
            assert(text == "Duplicate "@ + message_part + (") in "@ + module_part + end));
            assert(text == ("Duplicate "@ + message_part + ") in "@) + module_part + end);
            lemma_occurs("Duplicate "@, message_part, ") in "@ + module_part + end);
            lemma_occurs("Duplicate "@ + message_part + ") in "@, module_part, end);
            broadcast use lemma_occurs_in_sum;

        },
    }
}

} // verus!
