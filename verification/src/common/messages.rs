//! Messages made of primitive fields.
use vstd::prelude::*;
use crate::ast::{Type, TypeView};
use crate::c::tables::stored_size;
use crate::concat::{views, Path, Text};

verus! {

/// The key of a module that names none.
pub const DEFAULT_MODULE_KEY: u16 = 0;

/// The bytes of the message header.
pub const MESSAGE_HEADER_SIZE: usize = 8;

/// A primitive type.
#[derive(Copy, Clone, Debug, PartialEq, Eq, Structural)]
pub enum PrimitiveType {
    Bool,
    Char,
    Octet,
    I16,
    U16,
    I32,
    U32,
    I64,
    U64,
    F32,
    F64,
}

/// The bytes of a primitive.
pub open spec fn primitive_size(p: PrimitiveType) -> nat {
    match p {
        PrimitiveType::Bool | PrimitiveType::Char | PrimitiveType::Octet => 1,
        PrimitiveType::I16 | PrimitiveType::U16 => 2,
        PrimitiveType::I32 | PrimitiveType::U32 | PrimitiveType::F32 => 4,
        PrimitiveType::I64 | PrimitiveType::U64 | PrimitiveType::F64 => 8,
    }
}

/// The primitive that a type is, if it is one.
pub open spec fn primitive_of(t: TypeView) -> Option<PrimitiveType> {
    match t {
        TypeView::Float => Some(PrimitiveType::F32),
        TypeView::Double => Some(PrimitiveType::F64),
        TypeView::Long => Some(PrimitiveType::I32),
        TypeView::UnsignedLong => Some(PrimitiveType::U32),
        TypeView::Short => Some(PrimitiveType::I16),
        TypeView::UnsignedShort => Some(PrimitiveType::U16),
        TypeView::LongLong => Some(PrimitiveType::I64),
        TypeView::UnsignedLongLong => Some(PrimitiveType::U64),
        TypeView::Octet => Some(PrimitiveType::Octet),
        TypeView::Boolean => Some(PrimitiveType::Bool),
        TypeView::Char => Some(PrimitiveType::Char),
        _ => None,
    }
}

impl PrimitiveType {
    /// The bytes of this primitive.
    pub fn size(self) -> (r: usize)
        ensures
            r == primitive_size(self),
    {
        match self {
            PrimitiveType::Bool | PrimitiveType::Char | PrimitiveType::Octet => 1,
            PrimitiveType::I16 | PrimitiveType::U16 => 2,
            PrimitiveType::I32 | PrimitiveType::U32 | PrimitiveType::F32 => 4,
            PrimitiveType::I64 | PrimitiveType::U64 | PrimitiveType::F64 => 8,
        }
    }

    /// The primitive that a type is, if it is one.
    pub fn try_from(value: &Type) -> (r: Result<Self, ()>)
        ensures
            match r {
                Ok(p) => primitive_of(value@) == Some(p),
                Err(_) => primitive_of(value@) is None,
            },
    {
        match value {
            Type::Float => Ok(PrimitiveType::F32),
            Type::Double => Ok(PrimitiveType::F64),
            Type::Long => Ok(PrimitiveType::I32),
            Type::UnsignedLong => Ok(PrimitiveType::U32),
            Type::Short => Ok(PrimitiveType::I16),
            Type::UnsignedShort => Ok(PrimitiveType::U16),
            Type::LongLong => Ok(PrimitiveType::I64),
            Type::UnsignedLongLong => Ok(PrimitiveType::U64),
            Type::Octet => Ok(PrimitiveType::Octet),
            Type::Boolean => Ok(PrimitiveType::Bool),
            Type::Char => Ok(PrimitiveType::Char),
            _ => Err(()),
        }
    }
}

/// A field of a message.
#[derive(Debug, Clone)]
pub struct FieldSpec {
    pub name: String,
    pub primitive: PrimitiveType,
}

/// What contracts see of a [`FieldSpec`].
pub struct FieldSpecView {
    pub name: Text,
    pub primitive: PrimitiveType,
}

impl View for FieldSpec {
    type V = FieldSpecView;

    open spec fn view(&self) -> FieldSpecView {
        FieldSpecView { name: self.name@, primitive: self.primitive }
    }
}

/// A message: where it stands, its keys, its topic and its fields.
#[derive(Debug, Clone)]
pub struct MessageSpec {
    pub scope: Vec<String>,
    pub name: String,
    pub topic: String,
    pub module_key: u16,
    pub message_key: u16,
    pub fields: Vec<FieldSpec>,
}

/// What contracts see of a [`MessageSpec`].
pub struct MessageSpecView {
    pub scope: Path,
    pub name: Text,
    pub topic: Text,
    pub module_key: u16,
    pub message_key: u16,
    pub fields: Seq<FieldSpecView>,
}

impl View for MessageSpec {
    type V = MessageSpecView;

    open spec fn view(&self) -> MessageSpecView {
        MessageSpecView {
            scope: views(self.scope@),
            name: self.name@,
            topic: self.topic@,
            module_key: self.module_key,
            message_key: self.message_key,
            fields: views(self.fields@),
        }
    }
}

/// The bytes of the first `n` fields.
pub open spec fn payload_upto(fields: Seq<FieldSpecView>, n: nat) -> nat
    decreases n,
{
    if n == 0 {
        0
    } else {
        payload_upto(fields, (n - 1) as nat) + primitive_size(fields[n - 1].primitive)
    }
}

/// The bytes of a message's fields.
pub open spec fn payload_size(m: MessageSpecView) -> nat {
    payload_upto(m.fields, m.fields.len())
}

/// The bytes of a message's fields, in whole words of four bytes.
pub open spec fn padded_size(m: MessageSpecView) -> nat {
    ((payload_size(m) + 3) / 4 * 4) as nat
}

proof fn lemma_payload_grows(fields: Seq<FieldSpecView>, n: nat, k: nat)
    requires
        n <= k,
    ensures
        payload_upto(fields, n) <= payload_upto(fields, k),
    decreases k,
{
    if n < k {
        lemma_payload_grows(fields, n, (k - 1) as nat);
    }
}

/// The padded size is the smallest number of whole words that holds the fields.
pub proof fn law_padding_is_least(m: MessageSpecView)
    ensures
        padded_size(m) % 4 == 0,
        payload_size(m) <= padded_size(m) < payload_size(m) + 4,
{
}

impl MessageSpec {
    /// The bytes of the fields.
    pub fn field_payload_size(&self) -> (r: usize)
        requires
            payload_size(self@) <= usize::MAX,
        ensures
            r == payload_size(self@),
    {
        let mut size: usize = 0;
        for i in 0..self.fields.len()
            invariant
                payload_size(self@) <= usize::MAX,
                size == payload_upto(self@.fields, i as nat),
        {
            assert(self@.fields[i as int] == self.fields@[i as int]@);
            proof {
                lemma_payload_grows(self@.fields, (i + 1) as nat, self@.fields.len());
            }
            size += self.fields[i].primitive.size();
        }
        size
    }

    /// The bytes of the fields, in whole words of four bytes.
    pub fn padded_payload_size(&self) -> (r: usize)
        requires
            padded_size(self@) <= usize::MAX,
        ensures
            r == padded_size(self@),
    {
        let size: usize = self.field_payload_size();
        if size % 4 == 0 {
            size
        } else {
            size - size % 4 + 4
        }
    }

    /// The words of the fields.
    pub fn payload_words(&self) -> (r: usize)
        requires
            padded_size(self@) <= usize::MAX,
        ensures
            r * 4 == padded_size(self@),
            r == (payload_size(self@) + 3) / 4,
    {
        self.padded_payload_size() / 4
    }
}

/// Whether a primitive is a number with a fraction.
pub open spec fn is_floating(p: PrimitiveType) -> bool {
    p is F32 || p is F64
}

/// Whether a primitive is an integer without a sign.
pub open spec fn is_unsigned_number(p: PrimitiveType) -> bool {
    p is U16 || p is U32 || p is U64
}

/// A primitive keeps what its type is: it takes the bytes that the type takes on the
/// wire, has a fraction or a sign where the type has, and no other type gives the
/// same primitive. Types that have no primitive are those that name, hold or spell
/// out something else.
pub proof fn law_primitives_keep_their_type(t: TypeView, u: TypeView)
    ensures
        match primitive_of(t) {
            Some(p) => {
                &&& stored_size(t) matches Some(size) && primitive_size(p) == size
                &&& is_floating(p) <==> t is Float || t is Double
                &&& is_unsigned_number(p) <==> t is UnsignedShort || t is UnsignedLong
                    || t is UnsignedLongLong
                &&& p is Bool <==> t is Boolean
                &&& p is Octet <==> t is Octet
                &&& p is Char <==> t is Char
                &&& primitive_of(u) == Some(p) ==> u == t
            },
            None => t is LongDouble || t is WChar || t is WString || t is String || t is Sequence
                || t is Array || t is ScopedName,
        },
{
}

/// The bytes of fields add up: those of two lists of fields one after the other are
/// the bytes of the first and the bytes of the second.
pub proof fn law_payload_adds_up(a: Seq<FieldSpecView>, b: Seq<FieldSpecView>)
    ensures
        payload_upto(a + b, (a + b).len()) == payload_upto(a, a.len()) + payload_upto(b, b.len()),
        a.len() == 1 ==> payload_upto(a, 1) == primitive_size(a[0].primitive),
    decreases b.len(),
{
    reveal_with_fuel(payload_upto, 2);
    if b.len() == 0 {
        assert(a + b =~= a);
    } else {
        let fewer = b.drop_last();
        law_payload_adds_up(a, fewer);
        assert((a + b).drop_last() =~= a + fewer);
        lemma_payload_prefix(a + b, a + fewer, (a + fewer).len());
        lemma_payload_prefix(b, fewer, fewer.len());
    }
}

proof fn lemma_payload_prefix(a: Seq<FieldSpecView>, b: Seq<FieldSpecView>, n: nat)
    requires
        n <= a.len(),
        n <= b.len(),
        forall|i: int| 0 <= i < n ==> #[trigger] a[i] == b[i],
    ensures
        payload_upto(a, n) == payload_upto(b, n),
    decreases n,
{
    if n > 0 {
        lemma_payload_prefix(a, b, (n - 1) as nat);
        assert(a[n - 1] == b[n - 1]);
    }
}

} // verus!
