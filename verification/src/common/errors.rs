//! What a generator gives back.
use vstd::prelude::*;
use crate::concat::Text;

verus! {

/// A file that a generator made.
#[derive(Debug, Clone, PartialEq, Eq)]
pub struct GeneratedFile {
    pub path: String,
    pub contents: String,
}

/// What contracts see of a [`GeneratedFile`].
pub struct GeneratedFileView {
    pub path: Text,
    pub contents: Text,
}

impl View for GeneratedFile {
    type V = GeneratedFileView;

    open spec fn view(&self) -> GeneratedFileView {
        GeneratedFileView { path: self.path@, contents: self.contents@ }
    }
}

/// Why a generator gave up.
#[derive(Debug, Clone, PartialEq, Eq)]
pub enum CodegenError {
    MissingTopic { message: String },
    UnsupportedMessageBase { message: String },
    UnsupportedMemberType { message: String, member: String, member_type: String },
    DuplicateMessageKey { module_key: u16, message_key: u16, first: String, second: String },
}

/// What contracts see of a [`CodegenError`].
pub enum CodegenErrorView {
    MissingTopic { message: Text },
    UnsupportedMessageBase { message: Text },
    UnsupportedMemberType { message: Text, member: Text, member_type: Text },
    DuplicateMessageKey { module_key: u16, message_key: u16, first: Text, second: Text },
}

impl View for CodegenError {
    type V = CodegenErrorView;

    open spec fn view(&self) -> CodegenErrorView {
        match self {
            CodegenError::MissingTopic { message } => CodegenErrorView::MissingTopic {
                message: message@,
            },
            CodegenError::UnsupportedMessageBase {
                message,
            } => CodegenErrorView::UnsupportedMessageBase { message: message@ },
            CodegenError::UnsupportedMemberType {
                message,
                member,
                member_type,
            } => CodegenErrorView::UnsupportedMemberType {
                message: message@,
                member: member@,
                member_type: member_type@,
            },
            CodegenError::DuplicateMessageKey {
                module_key,
                message_key,
                first,
                second,
            } => CodegenErrorView::DuplicateMessageKey {
                module_key: *module_key,
                message_key: *message_key,
                first: first@,
                second: second@,
            },
        }
    }
}

} // verus!
