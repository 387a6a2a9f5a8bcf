//! Messages and enumerations with everything that the emitter needs to know.
use vstd::prelude::*;
use crate::ast::{Type, TypeView};
use crate::common::errors::{CodegenError, CodegenErrorView};
use crate::concat::{views, Path, Text};

verus! {

/// The bytes of the message header.
pub const MESSAGE_HEADER_BYTES: u32 = 8;

/// A value of an enumeration and its C literal.
pub struct EnumValueModel {
    pub name: String,
    pub literal: String,
    pub comments: Vec<String>,
}

/// What contracts see of an [`EnumValueModel`].
pub struct EnumValueView {
    pub name: Text,
    pub literal: Text,
    pub comments: Seq<Text>,
}

impl View for EnumValueModel {
    type V = EnumValueView;

    open spec fn view(&self) -> EnumValueView {
        EnumValueView {
            name: self.name@,
            literal: self.literal@,
            comments: views(self.comments@),
        }
    }
}

/// An enumeration: its C type, the prefix of its values and its storage type.
pub struct EnumModel {
    pub name: String,
    pub typedef: String,
    pub value_prefix: String,
    pub base: Type,
    pub comments: Vec<String>,
    pub values: Vec<EnumValueModel>,
}

/// What contracts see of an [`EnumModel`].
pub struct EnumView {
    pub name: Text,
    pub typedef: Text,
    pub value_prefix: Text,
    pub base: TypeView,
    pub comments: Seq<Text>,
    pub values: Seq<EnumValueView>,
}

impl View for EnumModel {
    type V = EnumView;

    open spec fn view(&self) -> EnumView {
        EnumView {
            name: self.name@,
            typedef: self.typedef@,
            value_prefix: self.value_prefix@,
            base: self.base@,
            comments: views(self.comments@),
            values: views(self.values@),
        }
    }
}

/// A field of a structure and its offset within one element.
pub struct StructFieldLayout {
    pub name: String,
    /// The name with a capital at its start.
    pub capital: String,
    pub ty: Type,
    pub offset: u32,
    pub comments: Vec<String>,
}

/// What contracts see of a [`StructFieldLayout`].
pub struct StructFieldView {
    pub name: Text,
    pub capital: Text,
    pub ty: TypeView,
    pub offset: nat,
    pub comments: Seq<Text>,
}

impl View for StructFieldLayout {
    type V = StructFieldView;

    open spec fn view(&self) -> StructFieldView {
        StructFieldView {
            name: self.name@,
            capital: self.capital@,
            ty: self.ty@,
            offset: self.offset as nat,
            comments: views(self.comments@),
        }
    }
}

/// A structure as the element of a sequence.
pub struct StructModel {
    pub fields: Vec<StructFieldLayout>,
    /// The bytes from one element to the next.
    pub element_size: u32,
}

/// What contracts see of a [`StructModel`].
pub struct StructView {
    pub fields: Seq<StructFieldView>,
    pub element_size: nat,
}

impl View for StructModel {
    type V = StructView;

    open spec fn view(&self) -> StructView {
        StructView { fields: views(self.fields@), element_size: self.element_size as nat }
    }
}

/// The element of a sequence.
pub enum SequenceElement {
    Struct(StructModel),
    Primitive(Type),
}

/// What contracts see of a [`SequenceElement`].
pub enum ElementView {
    Struct(StructView),
    Primitive(TypeView),
}

impl View for SequenceElement {
    type V = ElementView;

    open spec fn view(&self) -> ElementView {
        match self {
            SequenceElement::Struct(s) => ElementView::Struct(s@),
            SequenceElement::Primitive(t) => ElementView::Primitive(t@),
        }
    }
}

/// What a message field holds.
pub enum MessageFieldKind {
    /// A primitive, an enumeration or a string of fixed length, stored inline.
    Scalar(Type),
    /// The header of a sequence; its elements stand at the end of the buffer.
    Sequence(SequenceElement),
}

/// What contracts see of a [`MessageFieldKind`].
pub enum FieldKindView {
    Scalar(TypeView),
    Sequence(ElementView),
}

impl View for MessageFieldKind {
    type V = FieldKindView;

    open spec fn view(&self) -> FieldKindView {
        match self {
            MessageFieldKind::Scalar(t) => FieldKindView::Scalar(t@),
            MessageFieldKind::Sequence(e) => FieldKindView::Sequence(e@),
        }
    }
}

/// A field of a message: its ordinal in declared order and its byte offset.
pub struct MessageFieldModel {
    pub name: String,
    /// The name with a capital at its start.
    pub capital: String,
    /// The words of the name.
    pub words: String,
    pub ordinal: u8,
    pub offset: u32,
    pub comments: Vec<String>,
    pub kind: MessageFieldKind,
}

/// What contracts see of a [`MessageFieldModel`].
pub struct FieldView {
    pub name: Text,
    pub capital: Text,
    pub words: Text,
    pub ordinal: u8,
    pub offset: nat,
    pub comments: Seq<Text>,
    pub kind: FieldKindView,
}

impl View for MessageFieldModel {
    type V = FieldView;

    open spec fn view(&self) -> FieldView {
        FieldView {
            name: self.name@,
            capital: self.capital@,
            words: self.words@,
            ordinal: self.ordinal,
            offset: self.offset as nat,
            comments: views(self.comments@),
            kind: self.kind@,
        }
    }
}

/// A message with its layout.
pub struct MessageModel {
    pub name: String,
    /// The words of the name.
    pub words: String,
    pub scope: Vec<String>,
    pub module_key: u16,
    pub message_key: u16,
    pub topic: String,
    pub comments: Vec<String>,
    pub fields: Vec<MessageFieldModel>,
    /// The bytes of the body, header included, in whole words.
    pub body_length: u32,
    /// The ordinal of the last field; the header has the first three.
    pub max_ordinal: u8,
}

/// What contracts see of a [`MessageModel`].
pub struct MessageView {
    pub name: Text,
    pub words: Text,
    pub scope: Path,
    pub module_key: u16,
    pub message_key: u16,
    pub topic: Text,
    pub comments: Seq<Text>,
    pub fields: Seq<FieldView>,
    pub body_length: nat,
    pub max_ordinal: u8,
}

impl View for MessageModel {
    type V = MessageView;

    open spec fn view(&self) -> MessageView {
        MessageView {
            name: self.name@,
            words: self.words@,
            scope: views(self.scope@),
            module_key: self.module_key,
            message_key: self.message_key,
            topic: self.topic@,
            comments: views(self.comments@),
            fields: views(self.fields@),
            body_length: self.body_length as nat,
            max_ordinal: self.max_ordinal,
        }
    }
}

/// Why no model could be built.
#[derive(Debug)]
pub enum Failure {
    Codegen(CodegenError),
    /// An alias or an enumeration leads back to itself, or a layout does not fit
    /// in 32 bits.
    NoLayout,
}

/// What contracts see of a [`Failure`].
pub enum FailureView {
    Codegen(CodegenErrorView),
    NoLayout,
}

impl View for Failure {
    type V = FailureView;

    open spec fn view(&self) -> FailureView {
        match self {
            Failure::Codegen(e) => FailureView::Codegen(e@),
            Failure::NoLayout => FailureView::NoLayout,
        }
    }
}

} // verus!
