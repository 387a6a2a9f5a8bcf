//! The syntax tree of interface definitions, and what contracts see of it.
//!
//! Each type has a view with the same shape in which strings are sequences of
//! characters and vectors are sequences.
use vstd::prelude::*;
use crate::concat::{views, Path, Text};
use crate::text::copy_path;

verus! {

broadcast use crate::concat::group_views;

/// The type of a member, an alias or an enumeration's storage.
#[derive(Debug)]
pub enum Type {
    Float,
    Double,
    LongDouble,
    Long,
    UnsignedLong,
    Short,
    UnsignedShort,
    LongLong,
    UnsignedLongLong,
    Octet,
    Boolean,
    Char,
    WChar,
    /// A string, with its bound where one is given.
    String { bound: Option<u32> },
    WString,
    /// A sequence, with its bound where one is given.
    Sequence { element_type: Box<Type>, size: Option<u32> },
    /// An array with one length for each dimension, outermost first.
    Array { element_type: Box<Type>, dimensions: Vec<u32> },
    /// A reference to a definition by name.
    ScopedName(Vec<String>),
}

/// What contracts see of a [`Type`].
pub enum TypeView {
    Float,
    Double,
    LongDouble,
    Long,
    UnsignedLong,
    Short,
    UnsignedShort,
    LongLong,
    UnsignedLongLong,
    Octet,
    Boolean,
    Char,
    WChar,
    String { bound: Option<u32> },
    WString,
    Sequence { element_type: Box<TypeView>, size: Option<u32> },
    Array { element_type: Box<TypeView>, dimensions: Seq<u32> },
    ScopedName(Path),
}

/// The view of a type.
pub open spec fn type_view(t: Type) -> TypeView
    decreases t,
{
    match t {
        Type::Float => TypeView::Float,
        Type::Double => TypeView::Double,
        Type::LongDouble => TypeView::LongDouble,
        Type::Long => TypeView::Long,
        Type::UnsignedLong => TypeView::UnsignedLong,
        Type::Short => TypeView::Short,
        Type::UnsignedShort => TypeView::UnsignedShort,
        Type::LongLong => TypeView::LongLong,
        Type::UnsignedLongLong => TypeView::UnsignedLongLong,
        Type::Octet => TypeView::Octet,
        Type::Boolean => TypeView::Boolean,
        Type::Char => TypeView::Char,
        Type::WChar => TypeView::WChar,
        Type::String { bound } => TypeView::String { bound },
        Type::WString => TypeView::WString,
        Type::Sequence { element_type, size } => TypeView::Sequence {
            element_type: Box::new(type_view(*element_type)),
            size,
        },
        Type::Array { element_type, dimensions } => TypeView::Array {
            element_type: Box::new(type_view(*element_type)),
            dimensions: dimensions@,
        },
        Type::ScopedName(path) => TypeView::ScopedName(views(path@)),
    }
}

impl View for Type {
    type V = TypeView;

    open spec fn view(&self) -> TypeView {
        type_view(*self)
    }
}

fn copy_dimensions(dimensions: &Vec<u32>) -> (r: Vec<u32>)
    ensures
        r@ == dimensions@,
{
    let mut r: Vec<u32> = Vec::new();
    for i in 0..dimensions.len()
        invariant
            r@ == dimensions@.take(i as int),
    {
        r.push(dimensions[i]);
        assert(dimensions@.take(i + 1) =~= dimensions@.take(i as int).push(dimensions@[i as int]));
    }
    assert(dimensions@.take(dimensions@.len() as int) =~= dimensions@);
    r
}

impl Clone for Type {
    fn clone(&self) -> (r: Self)
        ensures
            r@ == self@,
        decreases self,
    {
        match self {
            Type::Float => Type::Float,
            Type::Double => Type::Double,
            Type::LongDouble => Type::LongDouble,
            Type::Long => Type::Long,
            Type::UnsignedLong => Type::UnsignedLong,
            Type::Short => Type::Short,
            Type::UnsignedShort => Type::UnsignedShort,
            Type::LongLong => Type::LongLong,
            Type::UnsignedLongLong => Type::UnsignedLongLong,
            Type::Octet => Type::Octet,
            Type::Boolean => Type::Boolean,
            Type::Char => Type::Char,
            Type::WChar => Type::WChar,
            Type::String { bound } => Type::String { bound: *bound },
            Type::WString => Type::WString,
            Type::Sequence { element_type, size } => {
                let element: Type = (&**element_type).clone();
                Type::Sequence { element_type: Box::new(element), size: *size }
            },
            Type::Array { element_type, dimensions } => {
                let element: Type = (&**element_type).clone();
                Type::Array {
                    element_type: Box::new(element),
                    dimensions: copy_dimensions(dimensions),
                }
            },
            Type::ScopedName(path) => Type::ScopedName(copy_path(path.as_slice())),
        }
    }
}

/// How an integer literal was written.
#[derive(Debug, Clone, Copy, PartialEq, Eq, Structural)]
pub enum IntegerBase {
    Binary,
    Octal,
    Decimal,
    Hexadecimal,
}

/// An integer literal.
#[derive(Debug, Clone, Copy, PartialEq, Eq, Structural)]
pub struct IntegerLiteral {
    pub value: i128,
    pub base: IntegerBase,
}

impl IntegerLiteral {
    pub fn new(value: i128, base: IntegerBase) -> (r: Self)
        ensures
            r == (IntegerLiteral { value, base }),
    {
        IntegerLiteral { value, base }
    }
}

/// The sign in front of a constant.
#[derive(Debug, Clone, Copy, PartialEq, Eq, Structural)]
pub enum UnaryOperator {
    Plus,
    Minus,
}

/// A constant expression.
#[derive(Debug)]
pub enum ConstValue {
    Integer(IntegerLiteral),
    /// A binary literal: the integer that it denotes, and its owner's number for it.
    Binary { value: i128, id: usize },
    String(String),
    ScopedName(Vec<String>),
    UnaryOp { op: UnaryOperator, expr: Box<ConstValue> },
    /// A constant of a kind that nothing here reads, by its owner's number for it.
    Other(usize),
}

/// What contracts see of a [`ConstValue`].
pub enum ConstView {
    Integer(IntegerLiteral),
    Binary { value: i128, id: usize },
    String(Text),
    ScopedName(Path),
    UnaryOp { op: UnaryOperator, expr: Box<ConstView> },
    Other(usize),
}

/// The view of a constant.
pub open spec fn const_view(c: ConstValue) -> ConstView
    decreases c,
{
    match c {
        ConstValue::Integer(lit) => ConstView::Integer(lit),
        ConstValue::Binary { value, id } => ConstView::Binary { value, id },
        ConstValue::String(s) => ConstView::String(s@),
        ConstValue::ScopedName(path) => ConstView::ScopedName(views(path@)),
        ConstValue::UnaryOp { op, expr } => ConstView::UnaryOp {
            op,
            expr: Box::new(const_view(*expr)),
        },
        ConstValue::Other(id) => ConstView::Other(id),
    }
}

impl View for ConstValue {
    type V = ConstView;

    open spec fn view(&self) -> ConstView {
        const_view(*self)
    }
}

impl Clone for ConstValue {
    fn clone(&self) -> (r: Self)
        ensures
            r@ == self@,
        decreases self,
    {
        match self {
            ConstValue::Integer(lit) => ConstValue::Integer(*lit),
            ConstValue::Binary { value, id } => ConstValue::Binary { value: *value, id: *id },
            ConstValue::String(s) => ConstValue::String(s.clone()),
            ConstValue::ScopedName(path) => ConstValue::ScopedName(copy_path(path.as_slice())),
            ConstValue::UnaryOp { op, expr } => {
                let inner: ConstValue = (&**expr).clone();
                ConstValue::UnaryOp { op: *op, expr: Box::new(inner) }
            },
            ConstValue::Other(id) => ConstValue::Other(*id),
        }
    }
}

/// A parameter of an annotation.
#[derive(Debug)]
pub enum AnnotationParam {
    Named { name: String, value: ConstValue },
    Positional(ConstValue),
}

/// What contracts see of an [`AnnotationParam`].
pub enum ParamView {
    Named { name: Text, value: ConstView },
    Positional(ConstView),
}

impl View for AnnotationParam {
    type V = ParamView;

    open spec fn view(&self) -> ParamView {
        match self {
            AnnotationParam::Named { name, value } => ParamView::Named { name: name@, value: value@ },
            AnnotationParam::Positional(value) => ParamView::Positional(value@),
        }
    }
}

impl Clone for AnnotationParam {
    fn clone(&self) -> (r: Self)
        ensures
            r@ == self@,
    {
        match self {
            AnnotationParam::Named { name, value } => AnnotationParam::Named {
                name: name.clone(),
                value: value.clone(),
            },
            AnnotationParam::Positional(value) => AnnotationParam::Positional(value.clone()),
        }
    }
}

/// An annotation such as `@topic("...")`.
#[derive(Debug)]
pub struct Annotation {
    pub name: Vec<String>,
    pub params: Vec<AnnotationParam>,
}

/// What contracts see of an [`Annotation`].
pub struct AnnotationView {
    pub name: Path,
    pub params: Seq<ParamView>,
}

impl View for Annotation {
    type V = AnnotationView;

    open spec fn view(&self) -> AnnotationView {
        AnnotationView { name: views(self.name@), params: views(self.params@) }
    }
}

impl Clone for Annotation {
    fn clone(&self) -> (r: Self)
        ensures
            r@ == self@,
    {
        let mut params: Vec<AnnotationParam> = Vec::new();
        let ghost all = views(self.params@);
        for i in 0..self.params.len()
            invariant
                all == views(self.params@),
                views(params@) == all.take(i as int),
        {
            params.push(self.params[i].clone());
            assert(all.take(i + 1) =~= all.take(i as int).push(all[i as int]));
        }
        assert(all.take(all.len() as int) =~= all);
        Annotation { name: copy_path(self.name.as_slice()), params }
    }
}

/// A syntax node with the annotations and comments that stand before it.
#[derive(Debug)]
pub struct Commented<T> {
    pub node: T,
    pub annotations: Vec<Annotation>,
    pub comments: Vec<String>,
    /// The owner's number for the node, by which it finds what is not held here.
    pub id: usize,
}

/// What contracts see of a [`Commented`].
pub struct CommentedView<N> {
    pub node: N,
    pub annotations: Seq<AnnotationView>,
    pub comments: Seq<Text>,
    pub id: usize,
}

impl<T: View> View for Commented<T> {
    type V = CommentedView<T::V>;

    open spec fn view(&self) -> CommentedView<T::V> {
        CommentedView {
            node: self.node@,
            annotations: views(self.annotations@),
            comments: views(self.comments@),
            id: self.id,
        }
    }
}

/// A member of a structure or message.
#[derive(Debug)]
pub struct Member {
    pub name: String,
    pub type_: Type,
}

/// What contracts see of a [`Member`].
pub struct MemberView {
    pub name: Text,
    pub type_: TypeView,
}

impl View for Member {
    type V = MemberView;

    open spec fn view(&self) -> MemberView {
        MemberView { name: self.name@, type_: self.type_@ }
    }
}

/// The type that an alias stands for.
#[derive(Debug)]
pub struct TypeDef {
    pub name: String,
    pub base_type: Type,
}

/// What contracts see of a [`TypeDef`].
pub struct TypeDefView {
    pub name: Text,
    pub base_type: TypeView,
}

impl View for TypeDef {
    type V = TypeDefView;

    open spec fn view(&self) -> TypeDefView {
        TypeDefView { name: self.name@, base_type: self.base_type@ }
    }
}

/// A structure.
#[derive(Debug)]
pub struct StructDef {
    pub name: String,
    pub members: Vec<Commented<Member>>,
}

/// What contracts see of a [`StructDef`].
pub struct StructDefView {
    pub name: Text,
    pub members: Seq<CommentedView<MemberView>>,
}

impl View for StructDef {
    type V = StructDefView;

    open spec fn view(&self) -> StructDefView {
        StructDefView { name: self.name@, members: views(self.members@) }
    }
}

/// A value of an enumeration, with its number where one is given.
#[derive(Debug)]
pub struct EnumMember {
    pub name: String,
    pub value: Option<ConstValue>,
    pub comments: Vec<String>,
}

/// What contracts see of an [`EnumMember`].
pub struct EnumMemberView {
    pub name: Text,
    pub value: Option<ConstView>,
    pub comments: Seq<Text>,
}

impl View for EnumMember {
    type V = EnumMemberView;

    open spec fn view(&self) -> EnumMemberView {
        EnumMemberView {
            name: self.name@,
            value: match self.value {
                Some(v) => Some(v@),
                None => None,
            },
            comments: views(self.comments@),
        }
    }
}

/// An enumeration, with its storage type where one is given.
#[derive(Debug)]
pub struct EnumDef {
    pub name: String,
    pub base_type: Option<Type>,
    pub enumerators: Vec<EnumMember>,
}

/// What contracts see of an [`EnumDef`].
pub struct EnumDefView {
    pub name: Text,
    pub base_type: Option<TypeView>,
    pub enumerators: Seq<EnumMemberView>,
}

impl View for EnumDef {
    type V = EnumDefView;

    open spec fn view(&self) -> EnumDefView {
        EnumDefView {
            name: self.name@,
            base_type: match self.base_type {
                Some(t) => Some(t@),
                None => None,
            },
            enumerators: views(self.enumerators@),
        }
    }
}

/// A message, with the message that it extends where it names one.
#[derive(Debug)]
pub struct MessageDef {
    pub name: String,
    pub base: Option<Vec<String>>,
    pub members: Vec<Commented<Member>>,
}

/// What contracts see of a [`MessageDef`].
pub struct MessageDefView {
    pub name: Text,
    pub base: Option<Path>,
    pub members: Seq<CommentedView<MemberView>>,
}

impl View for MessageDef {
    type V = MessageDefView;

    open spec fn view(&self) -> MessageDefView {
        MessageDefView {
            name: self.name@,
            base: match self.base {
                Some(path) => Some(views(path@)),
                None => None,
            },
            members: views(self.members@),
        }
    }
}

/// What an import brings in.
#[derive(Debug)]
pub enum ImportScope {
    /// The module with this path.
    Scoped(Vec<String>),
    /// Anything else, by its owner's number for it.
    Other(usize),
}

/// What contracts see of an [`ImportScope`].
pub enum ImportScopeView {
    Scoped(Path),
    Other(usize),
}

impl View for ImportScope {
    type V = ImportScopeView;

    open spec fn view(&self) -> ImportScopeView {
        match self {
            ImportScope::Scoped(path) => ImportScopeView::Scoped(views(path@)),
            ImportScope::Other(id) => ImportScopeView::Other(*id),
        }
    }
}

/// An import.
#[derive(Debug)]
pub struct ImportDef {
    pub scope: ImportScope,
}

/// What contracts see of an [`ImportDef`].
pub struct ImportDefView {
    pub scope: ImportScopeView,
}

impl View for ImportDef {
    type V = ImportDefView;

    open spec fn view(&self) -> ImportDefView {
        ImportDefView { scope: self.scope@ }
    }
}

/// A module and what it defines.
#[derive(Debug)]
pub struct ModuleDef {
    pub name: String,
    pub definitions: Vec<Definition>,
}

/// What contracts see of a [`ModuleDef`].
pub struct ModuleDefView {
    pub name: Text,
    pub definitions: Seq<DefinitionView>,
}

impl View for ModuleDef {
    type V = ModuleDefView;

    open spec fn view(&self) -> ModuleDefView {
        ModuleDefView { name: self.name@, definitions: definitions_view(self.definitions@) }
    }
}

/// A definition.
#[derive(Debug)]
pub enum Definition {
    ModuleDef(Commented<ModuleDef>),
    TypeDef(Commented<TypeDef>),
    StructDef(Commented<StructDef>),
    EnumDef(Commented<EnumDef>),
    MessageDef(Commented<MessageDef>),
    ImportDef(Commented<ImportDef>),
    /// A definition of a kind that nothing here reads, by its owner's number for it.
    Other(usize),
}

/// What contracts see of a [`Definition`].
pub enum DefinitionView {
    ModuleDef(CommentedView<ModuleDefView>),
    TypeDef(CommentedView<TypeDefView>),
    StructDef(CommentedView<StructDefView>),
    EnumDef(CommentedView<EnumDefView>),
    MessageDef(CommentedView<MessageDefView>),
    ImportDef(CommentedView<ImportDefView>),
    Other(usize),
}

/// The view of a definition.
pub open spec fn definition_view(d: Definition) -> DefinitionView
    decreases d,
{
    match d {
        Definition::ModuleDef(m) => DefinitionView::ModuleDef(
            CommentedView {
                node: ModuleDefView {
                    name: m.node.name@,
                    definitions: definitions_view(m.node.definitions@),
                },
                annotations: views(m.annotations@),
                comments: views(m.comments@),
                id: m.id,
            },
        ),
        Definition::TypeDef(t) => DefinitionView::TypeDef(t@),
        Definition::StructDef(s) => DefinitionView::StructDef(s@),
        Definition::EnumDef(e) => DefinitionView::EnumDef(e@),
        Definition::MessageDef(m) => DefinitionView::MessageDef(m@),
        Definition::ImportDef(i) => DefinitionView::ImportDef(i@),
        Definition::Other(id) => DefinitionView::Other(id),
    }
}

/// The views of a list of definitions.
pub open spec fn definitions_view(s: Seq<Definition>) -> Seq<DefinitionView>
    decreases s,
{
    Seq::new(
        s.len(),
        |i: int|
            if 0 <= i < s.len() {
                definition_view(s[i])
            } else {
                arbitrary()
            },
    )
}

impl View for Definition {
    type V = DefinitionView;

    open spec fn view(&self) -> DefinitionView {
        definition_view(*self)
    }
}

} // verus!
