//! Collecting the messages of a list of definitions.
use vstd::prelude::*;
use crate::annotations::{annotation_string, annotation_u16, string_value, u16_value};
use crate::ast::{
    definition_view, definitions_view, Commented, CommentedView, Definition, DefinitionView,
    MemberView, MessageDef, MessageDefView, Type, TypeView,
};
use crate::common::errors::{CodegenError, CodegenErrorView};
use crate::common::messages::{
    primitive_of, FieldSpec, FieldSpecView, MessageSpec, MessageSpecView, PrimitiveType,
    DEFAULT_MODULE_KEY,
};
use crate::common::names::{scoped_name, scoped_text};
use crate::concat::{lemma_prefix_of_prefix, views, Path, Text};
use crate::text::{child_path, copy_path, join, joined, owned};
use crate::tree::{
    direct_count, found, lemma_found_inside, message_count, messages_before, messages_upto,
    nested_count, Found,
};

verus! {

broadcast use crate::concat::group_views;

/// The key that follows a key that was given out: zero is never given out.
pub open spec fn following_key(key: u16) -> u16 {
    if key == u16::MAX {
        1
    } else {
        (key + 1) as u16
    }
}

/// The name of a type in an error.
pub open spec fn spelled(t: TypeView) -> Text {
    match t {
        TypeView::Float => "float"@,
        TypeView::Double => "double"@,
        TypeView::LongDouble => "long double"@,
        TypeView::Long => "long"@,
        TypeView::UnsignedLong => "unsigned long"@,
        TypeView::Short => "short"@,
        TypeView::UnsignedShort => "unsigned short"@,
        TypeView::LongLong => "long long"@,
        TypeView::UnsignedLongLong => "unsigned long long"@,
        TypeView::Octet => "octet"@,
        TypeView::Boolean => "boolean"@,
        TypeView::Char => "char"@,
        TypeView::WChar => "wchar"@,
        TypeView::String { bound } => "string"@,
        TypeView::WString => "wstring"@,
        TypeView::Sequence { element_type, size } => "sequence"@,
        TypeView::Array { element_type, dimensions } => "array"@,
        TypeView::ScopedName(path) => joined(path, "::"@),
    }
}

fn spell(t: &Type) -> (r: String)
    ensures
        r@ == spelled(t@),
{
    match t {
        Type::Float => owned("float"),
        Type::Double => owned("double"),
        Type::LongDouble => owned("long double"),
        Type::Long => owned("long"),
        Type::UnsignedLong => owned("unsigned long"),
        Type::Short => owned("short"),
        Type::UnsignedShort => owned("unsigned short"),
        Type::LongLong => owned("long long"),
        Type::UnsignedLongLong => owned("unsigned long long"),
        Type::Octet => owned("octet"),
        Type::Boolean => owned("boolean"),
        Type::Char => owned("char"),
        Type::WChar => owned("wchar"),
        Type::String { bound: _ } => owned("string"),
        Type::WString => owned("wstring"),
        Type::Sequence { element_type: _, size: _ } => owned("sequence"),
        Type::Array { element_type: _, dimensions: _ } => owned("array"),
        Type::ScopedName(path) => join(path.as_slice(), "::"),
    }
}

/// The fields of the first `n` members, or the error for the first of them that
/// is not primitive.
pub open spec fn fields_upto(
    message: Text,
    members: Seq<CommentedView<MemberView>>,
    n: nat,
) -> Result<Seq<FieldSpecView>, CodegenErrorView>
    decreases n,
{
    if n == 0 {
        Ok(Seq::empty())
    } else {
        match fields_upto(message, members, (n - 1) as nat) {
            Err(e) => Err(e),
            Ok(before) => {
                let member = members[n - 1].node;
                match primitive_of(member.type_) {
                    Some(primitive) => Ok(
                        before.push(FieldSpecView { name: member.name, primitive }),
                    ),
                    None => Err(
                        CodegenErrorView::UnsupportedMemberType {
                            message,
                            member: member.name,
                            member_type: spelled(member.type_),
                        },
                    ),
                }
            },
        }
    }
}

proof fn lemma_fields_err(
    message: Text,
    members: Seq<CommentedView<MemberView>>,
    n: nat,
    m: nat,
)
    requires
        n <= m,
        fields_upto(message, members, n) is Err,
    ensures
        fields_upto(message, members, m) == fields_upto(message, members, n),
    decreases m,
{
    if n < m {
        lemma_fields_err(message, members, n, (m - 1) as nat);
    }
}

/// What has been collected, and the key for the next message that names none.
pub struct CollectorView {
    pub messages: Seq<MessageSpecView>,
    pub message_key: u16,
}

/// The message that a definition describes, with `next_key` for one that names no
/// key, or why there is none.
pub open spec fn message_of(
    next_key: u16,
    scope: Path,
    module_key: u16,
    m: CommentedView<MessageDefView>,
) -> Result<MessageSpecView, CodegenErrorView> {
    let name = scoped_text(scope, m.node.name);
    if m.node.base is Some {
        Err(CodegenErrorView::UnsupportedMessageBase { message: name })
    } else {
        match string_value(m.annotations, "topic"@) {
            None => Err(CodegenErrorView::MissingTopic { message: name }),
            Some(topic) => match fields_upto(name, m.node.members, m.node.members.len()) {
                Err(e) => Err(e),
                Ok(fields) => Ok(
                    MessageSpecView {
                        scope,
                        name: m.node.name,
                        topic,
                        module_key: match u16_value(m.annotations, "module_key"@) {
                            Some(key) => key,
                            None => module_key,
                        },
                        message_key: match u16_value(m.annotations, "message_key"@) {
                            Some(key) => key,
                            None => next_key,
                        },
                        fields,
                    },
                ),
            },
        }
    }
}

/// The next key once a definition has been visited: a message without a base and
/// with a topic draws one where it names none, before its members are looked at.
pub open spec fn key_once_visited(next_key: u16, m: CommentedView<MessageDefView>) -> u16 {
    if m.node.base is None && string_value(m.annotations, "topic"@) is Some && u16_value(
        m.annotations,
        "message_key"@,
    ) is None {
        following_key(next_key)
    } else {
        next_key
    }
}

/// The collection with one more message.
pub open spec fn with_message(
    c: CollectorView,
    scope: Path,
    module_key: u16,
    m: CommentedView<MessageDefView>,
) -> Result<CollectorView, CodegenErrorView> {
    match message_of(c.message_key, scope, module_key, m) {
        Ok(message) => Ok(
            CollectorView {
                messages: c.messages.push(message),
                message_key: key_once_visited(c.message_key, m),
            },
        ),
        Err(e) => Err(e),
    }
}

/// The collection after the first `n` definitions, modules included.
pub open spec fn collected_upto(
    c: CollectorView,
    defs: Seq<DefinitionView>,
    scope: Path,
    module_key: u16,
    n: nat,
) -> Result<CollectorView, CodegenErrorView>
    decreases defs, n,
{
    if n == 0 || n > defs.len() {
        Ok(c)
    } else {
        match collected_upto(c, defs, scope, module_key, (n - 1) as nat) {
            Err(e) => Err(e),
            Ok(before) => match defs[n - 1] {
                DefinitionView::ModuleDef(m) => collected_upto(
                    before,
                    m.node.definitions,
                    scope.push(m.node.name),
                    match u16_value(m.annotations, "module_key"@) {
                        Some(key) => key,
                        None => module_key,
                    },
                    m.node.definitions.len(),
                ),
                DefinitionView::MessageDef(m) => with_message(before, scope, module_key, m),
                _ => Ok(before),
            },
        }
    }
}

/// What a collector holds after the first `n` definitions, or once the first of
/// them that cannot be collected has been refused: the messages before it, and the
/// next key.
pub open spec fn left_upto(
    c: CollectorView,
    defs: Seq<DefinitionView>,
    scope: Path,
    module_key: u16,
    n: nat,
) -> CollectorView
    decreases defs, n,
{
    if n == 0 || n > defs.len() {
        c
    } else {
        match collected_upto(c, defs, scope, module_key, (n - 1) as nat) {
            Err(_) => left_upto(c, defs, scope, module_key, (n - 1) as nat),
            Ok(before) => match defs[n - 1] {
                DefinitionView::ModuleDef(m) => left_upto(
                    before,
                    m.node.definitions,
                    scope.push(m.node.name),
                    match u16_value(m.annotations, "module_key"@) {
                        Some(key) => key,
                        None => module_key,
                    },
                    m.node.definitions.len(),
                ),
                DefinitionView::MessageDef(m) => match with_message(before, scope, module_key, m) {
                    Ok(after) => after,
                    Err(_) => CollectorView {
                        message_key: key_once_visited(before.message_key, m),
                        ..before
                    },
                },
                _ => before,
            },
        }
    }
}

proof fn lemma_collected_err(
    c: CollectorView,
    defs: Seq<DefinitionView>,
    scope: Path,
    module_key: u16,
    n: nat,
    m: nat,
)
    requires
        n <= m <= defs.len(),
        collected_upto(c, defs, scope, module_key, n) is Err,
    ensures
        collected_upto(c, defs, scope, module_key, m) == collected_upto(
            c,
            defs,
            scope,
            module_key,
            n,
        ),
        left_upto(c, defs, scope, module_key, m) == left_upto(c, defs, scope, module_key, n),
    decreases m,
{
    if n < m {
        lemma_collected_err(c, defs, scope, module_key, n, (m - 1) as nat);
    }
}

/// A collection that nothing has been added to.
pub open spec fn no_messages() -> CollectorView {
    CollectorView { messages: Seq::empty(), message_key: 1 }
}

/// Collects messages in order and gives keys to those that name none.
pub struct MessageCollector {
    pub messages: Vec<MessageSpec>,
    pub message_key: u16,
}

impl View for MessageCollector {
    type V = CollectorView;

    open spec fn view(&self) -> CollectorView {
        CollectorView { messages: views(self.messages@), message_key: self.message_key }
    }
}

impl MessageCollector {
    pub fn new() -> (r: Self)
        ensures
            r@ == no_messages(),
    {
        MessageCollector { messages: Vec::new(), message_key: 1 }
    }

    /// Gives out the next key.
    pub fn next_message_key(&mut self) -> (r: u16)
        ensures
            r == old(self)@.message_key,
            final(self)@ == (CollectorView {
                message_key: following_key(old(self)@.message_key),
                ..old(self)@
            }),
    {
        let key: u16 = self.message_key;
        self.message_key = if key == u16::MAX {
            1
        } else {
            key + 1
        };
        key
    }

    fn fields_of(message: &str, m: &Commented<MessageDef>) -> (r: Result<
        Vec<FieldSpec>,
        CodegenError,
    >)
        ensures
            match r {
                Ok(fields) => fields_upto(message@, m@.node.members, m@.node.members.len()) == Ok::<
                    Seq<FieldSpecView>,
                    CodegenErrorView,
                >(views(fields@)),
                Err(e) => fields_upto(message@, m@.node.members, m@.node.members.len()) == Err::<
                    Seq<FieldSpecView>,
                    CodegenErrorView,
                >(e@),
            },
    {
        let ghost members = m@.node.members;
        let mut fields: Vec<FieldSpec> = Vec::new();
        for i in 0..m.node.members.len()
            invariant
                members == m@.node.members,
                fields_upto(message@, members, i as nat) == Ok::<
                    Seq<FieldSpecView>,
                    CodegenErrorView,
                >(views(fields@)),
        {
            let member = &m.node.members[i].node;
            assert(members[i as int].node == member@);
            match PrimitiveType::try_from(&member.type_) {
                Ok(primitive) => {
                    fields.push(FieldSpec { name: member.name.clone(), primitive });
                },
                Err(_) => {
                    proof {
                        lemma_fields_err(message@, members, (i + 1) as nat, members.len());
                    }
                    return Err(
                        CodegenError::UnsupportedMemberType {
                            message: owned(message),
                            member: member.name.clone(),
                            member_type: spell(&member.type_),
                        },
                    );
                },
            }
        }
        Ok(fields)
    }

    /// Builds the message that a definition describes, and draws a key for one
    /// that names none.
    pub fn visit_message(
        &mut self,
        scope: &[String],
        module_key: u16,
        m: &Commented<MessageDef>,
    ) -> (r: Result<MessageSpec, CodegenError>)
        ensures
            match r {
                Ok(message) => message_of(
                    old(self)@.message_key,
                    views(scope@),
                    module_key,
                    m@,
                ) == Ok::<MessageSpecView, CodegenErrorView>(message@),
                Err(e) => message_of(
                    old(self)@.message_key,
                    views(scope@),
                    module_key,
                    m@,
                ) == Err::<MessageSpecView, CodegenErrorView>(e@),
            },
            final(self)@ == (CollectorView {
                message_key: key_once_visited(old(self)@.message_key, m@),
                ..old(self)@
            }),
    {
        let name = scoped_name(scope, m.node.name.as_str());
        if m.node.base.is_some() {
            return Err(CodegenError::UnsupportedMessageBase { message: name });
        }
        let topic = match annotation_string(m.annotations.as_slice(), "topic") {
            Some(topic) => topic,
            None => {
                return Err(CodegenError::MissingTopic { message: name });
            },
        };
        let own_module_key: u16 = match annotation_u16(m.annotations.as_slice(), "module_key") {
            Some(key) => key,
            None => module_key,
        };
        let message_key: u16 = match annotation_u16(m.annotations.as_slice(), "message_key") {
            Some(key) => key,
            None => self.next_message_key(),
        };
        match Self::fields_of(name.as_str(), m) {
            Ok(fields) => Ok(
                MessageSpec {
                    scope: copy_path(scope),
                    name: m.node.name.clone(),
                    topic,
                    module_key: own_module_key,
                    message_key,
                    fields,
                },
            ),
            Err(e) => Err(e),
        }
    }

    /// Adds the messages of the definitions, those in modules included.
    pub fn collect_in_scope(
        &mut self,
        defs: &[Definition],
        scope: &Vec<String>,
        module_key: u16,
    ) -> (r: Result<(), CodegenError>)
        ensures
            match r {
                Ok(_) => collected_upto(
                    old(self)@,
                    definitions_view(defs@),
                    views(scope@),
                    module_key,
                    defs@.len(),
                ) == Ok::<CollectorView, CodegenErrorView>(final(self)@),
                Err(e) => collected_upto(
                    old(self)@,
                    definitions_view(defs@),
                    views(scope@),
                    module_key,
                    defs@.len(),
                ) == Err::<CollectorView, CodegenErrorView>(e@),
            },
            final(self)@ == left_upto(
                old(self)@,
                definitions_view(defs@),
                views(scope@),
                module_key,
                defs@.len(),
            ),
            old(self)@.messages.is_prefix_of(final(self)@.messages),
        decreases defs@,
    {
        let ghost start = self@;
        let ghost all = definitions_view(defs@);
        let ghost at = views(scope@);
        proof {
            law_collecting_keeps_messages(start, all, at, module_key, all.len());
        }
        for i in 0..defs.len()
            invariant
                start == old(self)@,
                all == definitions_view(defs@),
                at == views(scope@),
                start.messages.is_prefix_of(
                    left_upto(start, all, at, module_key, all.len()).messages,
                ),
                left_upto(start, all, at, module_key, i as nat) == self@,
                collected_upto(start, all, at, module_key, i as nat) == Ok::<
                    CollectorView,
                    CodegenErrorView,
                >(self@),
        {
            assert(all[i as int] == definition_view(defs@[i as int]));
            match &defs[i] {
                Definition::ModuleDef(m) => {
                    let inner = child_path(scope.as_slice(), m.node.name.as_str());
                    let inner_key: u16 = match annotation_u16(
                        m.annotations.as_slice(),
                        "module_key",
                    ) {
                        Some(key) => key,
                        None => module_key,
                    };
                    match self.collect_in_scope(m.node.definitions.as_slice(), &inner, inner_key) {
                        Ok(_) => {},
                        Err(e) => {
                            proof {
                                lemma_collected_err(
                                    start,
                                    all,
                                    at,
                                    module_key,
                                    (i + 1) as nat,
                                    all.len(),
                                );
                            }
                            return Err(e);
                        },
                    }
                },
                Definition::MessageDef(m) => {
                    match self.visit_message(scope.as_slice(), module_key, m) {
                        Ok(message) => {
                            self.messages.push(message);
                        },
                        Err(e) => {
                            proof {
                                lemma_collected_err(
                                    start,
                                    all,
                                    at,
                                    module_key,
                                    (i + 1) as nat,
                                    all.len(),
                                );
                            }
                            return Err(e);
                        },
                    }
                },
                _ => {},
            }
        }
        Ok(())
    }
}

/// The messages of a list of definitions.
pub open spec fn messages_of(defs: Seq<DefinitionView>) -> Result<
    Seq<MessageSpecView>,
    CodegenErrorView,
> {
    match collected_upto(no_messages(), defs, Seq::empty(), DEFAULT_MODULE_KEY, defs.len()) {
        Ok(c) => Ok(c.messages),
        Err(e) => Err(e),
    }
}

/// Collects the messages of a list of definitions, or says why one cannot be.
pub fn collect_messages(defs: &[Definition]) -> (r: Result<Vec<MessageSpec>, CodegenError>)
    ensures
        match r {
            Ok(messages) => messages_of(definitions_view(defs@)) == Ok::<
                Seq<MessageSpecView>,
                CodegenErrorView,
            >(views(messages@)),
            Err(e) => messages_of(definitions_view(defs@)) == Err::<
                Seq<MessageSpecView>,
                CodegenErrorView,
            >(e@),
        },
{
    let mut collector = MessageCollector::new();
    let scope: Vec<String> = Vec::new();
    match collector.collect_in_scope(defs, &scope, DEFAULT_MODULE_KEY) {
        Ok(_) => Ok(collector.messages),
        Err(e) => Err(e),
    }
}

/// Collecting leaves the messages that are there where they stand, whether it
/// succeeds or not; where it succeeds, it leaves what was collected.
pub proof fn law_collecting_keeps_messages(
    c: CollectorView,
    defs: Seq<DefinitionView>,
    scope: Path,
    module_key: u16,
    n: nat,
)
    ensures
        c.messages.is_prefix_of(left_upto(c, defs, scope, module_key, n).messages),
        collected_upto(c, defs, scope, module_key, n) matches Ok(r) ==> r == left_upto(
            c,
            defs,
            scope,
            module_key,
            n,
        ),
    decreases defs, n,
{
    if 0 < n <= defs.len() {
        law_collecting_keeps_messages(c, defs, scope, module_key, (n - 1) as nat);
        if let Ok(before) = collected_upto(c, defs, scope, module_key, (n - 1) as nat) {
            if let DefinitionView::ModuleDef(m) = defs[n - 1] {
                law_collecting_keeps_messages(
                    before,
                    m.node.definitions,
                    scope.push(m.node.name),
                    match u16_value(m.annotations, "module_key"@) {
                        Some(key) => key,
                        None => module_key,
                    },
                    m.node.definitions.len(),
                );
            }
            let after = left_upto(c, defs, scope, module_key, n);
            lemma_prefix_of_prefix(c.messages, before.messages, after.messages);
        }
    }
}

/// Collecting gives one message for every message among the definitions, at any
/// depth.
pub proof fn law_every_message_is_collected(
    c: CollectorView,
    defs: Seq<DefinitionView>,
    scope: Path,
    module_key: u16,
    n: nat,
)
    requires
        n <= defs.len(),
    ensures
        collected_upto(c, defs, scope, module_key, n) matches Ok(r) ==> r.messages.len()
            == c.messages.len() + nested_count(defs, n) + direct_count(defs, n),
    decreases defs, n,
{
    if n > 0 {
        law_every_message_is_collected(c, defs, scope, module_key, (n - 1) as nat);
        if let Ok(before) = collected_upto(c, defs, scope, module_key, (n - 1) as nat) {
            if let DefinitionView::ModuleDef(m) = defs[n - 1] {
                law_every_message_is_collected(
                    before,
                    m.node.definitions,
                    scope.push(m.node.name),
                    match u16_value(m.annotations, "module_key"@) {
                        Some(key) => key,
                        None => module_key,
                    },
                    m.node.definitions.len(),
                );
                assert(message_count(m.node.definitions) == nested_count(
                    m.node.definitions,
                    m.node.definitions.len(),
                ) + direct_count(m.node.definitions, m.node.definitions.len()));
            }
        }
    }
}

/// A key that is given out is never zero.
pub proof fn law_given_keys_are_not_zero(key: u16)
    requires
        key != 0,
    ensures
        following_key(key) != 0,
{
}

/// The key that is given out `n` keys after `key`.
pub open spec fn key_after(key: u16, n: nat) -> u16
    decreases n,
{
    if n == 0 {
        key
    } else {
        following_key(key_after(key, (n - 1) as nat))
    }
}

proof fn lemma_key_after(key: u16, n: nat)
    requires
        key != 0,
    ensures
        key_after(key, n) != 0,
        key_after(key, n) == (key - 1 + n) % 65535 + 1,
    decreases n,
{
    if n > 0 {
        lemma_key_after(key, (n - 1) as nat);
    }
}

/// Keys that are given out repeat only after all of them have been given out.
pub proof fn law_given_keys_are_distinct(key: u16, a: nat, b: nat)
    requires
        key != 0,
        a < b < a + 65535,
    ensures
        key_after(key, a) != key_after(key, b),
{
    lemma_key_after(key, a);
    lemma_key_after(key, b);
}

/// Keys are given out in turn from one on: after the last comes the first again, and
/// zero is left out.
pub proof fn law_keys_are_given_in_turn(n: nat)
    ensures
        key_after(no_messages().message_key, n) == n % 65535 + 1,
{
    lemma_key_after(1, n);
}

/// Whether a message can be collected: it has no base, has a topic, and every one of its
/// members is of a type that is a primitive.
pub open spec fn can_be_collected(m: CommentedView<MessageDefView>) -> bool {
    &&& m.node.base is None
    &&& string_value(m.annotations, "topic"@) is Some
    &&& forall|i: int|
        0 <= i < m.node.members.len() ==> primitive_of((#[trigger] m.node.members[i]).node.type_)
            is Some
}

/// The key of the module around a place: that of the innermost module around it that names
/// one, and `outer` where none does.
pub open spec fn module_key_around(
    outer: u16,
    defs: Seq<DefinitionView>,
    steps: Seq<int>,
) -> u16
    decreases steps.len(),
{
    if steps.len() < 2 || !(0 <= steps[0] < defs.len()) {
        outer
    } else {
        match defs[steps[0]] {
            DefinitionView::ModuleDef(m) => module_key_around(
                match u16_value(m.annotations, "module_key"@) {
                    Some(key) => key,
                    None => outer,
                },
                m.node.definitions,
                steps.drop_first(),
            ),
            _ => outer,
        }
    }
}

/// How many messages among the first `n` definitions, at any depth, name no key.
pub open spec fn drawing_count(defs: Seq<DefinitionView>, n: nat) -> nat
    decreases defs, n,
{
    if n == 0 || n > defs.len() {
        0
    } else {
        drawing_count(defs, (n - 1) as nat) + match defs[n - 1] {
            DefinitionView::MessageDef(m) => if u16_value(m.annotations, "message_key"@) is None {
                1nat
            } else {
                0
            },
            DefinitionView::ModuleDef(m) => drawing_count(
                m.node.definitions,
                m.node.definitions.len(),
            ),
            _ => 0,
        }
    }
}

/// How many messages that name no key come before a place.
pub open spec fn drawing_before(defs: Seq<DefinitionView>, steps: Seq<int>) -> nat
    decreases steps.len(),
{
    if steps.len() == 0 || !(0 <= steps[0] < defs.len()) {
        0
    } else {
        drawing_count(defs, steps[0] as nat) + match defs[steps[0]] {
            DefinitionView::ModuleDef(m) => drawing_before(
                m.node.definitions,
                steps.drop_first(),
            ),
            _ => 0,
        }
    }
}

/// Whether a collected message is what a definition at `path` describes: with the keys and
/// the topic that it names, or else the keys given here, and with one field for each member,
/// in order, of the primitive that the member's type is.
pub open spec fn describes(
    spec: MessageSpecView,
    path: Path,
    m: CommentedView<MessageDefView>,
    module_key: u16,
    next_key: u16,
) -> bool {
    &&& spec.scope == path
    &&& spec.name == m.node.name
    &&& string_value(m.annotations, "topic"@) == Some(spec.topic)
    &&& spec.module_key == (match u16_value(m.annotations, "module_key"@) {
        Some(key) => key,
        None => module_key,
    })
    &&& spec.message_key == (match u16_value(m.annotations, "message_key"@) {
        Some(key) => key,
        None => next_key,
    })
    &&& spec.fields.len() == m.node.members.len()
    &&& forall|i: int|
        #![trigger spec.fields[i]]
        #![trigger m.node.members[i]]
        0 <= i < spec.fields.len() ==> spec.fields[i].name == m.node.members[i].node.name
            && primitive_of(m.node.members[i].node.type_) == Some(spec.fields[i].primitive)
}

proof fn lemma_fields_follow_members(
    message: Text,
    members: Seq<CommentedView<MemberView>>,
    n: nat,
)
    requires
        n <= members.len(),
    ensures
        match fields_upto(message, members, n) {
            Ok(fields) => fields.len() == n && forall|i: int|
                #![trigger fields[i]]
                #![trigger members[i]]
                0 <= i < n ==> fields[i].name == members[i].node.name && primitive_of(
                    members[i].node.type_,
                ) == Some(fields[i].primitive),
            Err(_) => exists|i: int|
                0 <= i < n && primitive_of((#[trigger] members[i]).node.type_) is None,
        },
    decreases n,
{
    if n > 0 {
        lemma_fields_follow_members(message, members, (n - 1) as nat);
        if fields_upto(message, members, (n - 1) as nat) is Ok && fields_upto(
            message,
            members,
            n,
        ) is Err {
            assert(primitive_of(members[n - 1].node.type_) is None);
        }
    }
}

proof fn lemma_key_after_adds(key: u16, a: nat, b: nat)
    ensures
        key_after(key_after(key, a), b) == key_after(key, a + b),
    decreases b,
{
    if b > 0 {
        lemma_key_after_adds(key, a, (b - 1) as nat);
    }
}

proof fn lemma_keys_drawn(
    c: CollectorView,
    defs: Seq<DefinitionView>,
    scope: Path,
    module_key: u16,
    n: nat,
)
    requires
        n <= defs.len(),
    ensures
        collected_upto(c, defs, scope, module_key, n) matches Ok(r) ==> {
            &&& r.message_key == key_after(c.message_key, drawing_count(defs, n))
            &&& r.messages.len() == c.messages.len() + messages_upto(defs, n)
            &&& c.messages.is_prefix_of(r.messages)
        },
    decreases defs, n,
{
    law_every_message_is_collected(c, defs, scope, module_key, n);
    law_collecting_keeps_messages(c, defs, scope, module_key, n);
    if n > 0 {
        lemma_keys_drawn(c, defs, scope, module_key, (n - 1) as nat);
        if let Ok(before) = collected_upto(c, defs, scope, module_key, (n - 1) as nat) {
            let drawn = drawing_count(defs, (n - 1) as nat);
            match defs[n - 1] {
                DefinitionView::ModuleDef(m) => {
                    let inside = m.node.definitions;
                    let key = match u16_value(m.annotations, "module_key"@) {
                        Some(key) => key,
                        None => module_key,
                    };
                    lemma_keys_drawn(
                        before,
                        inside,
                        scope.push(m.node.name),
                        key,
                        inside.len(),
                    );
                    lemma_key_after_adds(
                        c.message_key,
                        drawn,
                        drawing_count(inside, inside.len()),
                    );
                },
                DefinitionView::MessageDef(m) => {
                    lemma_key_after_adds(c.message_key, drawn, 1);
                },
                _ => {},
            }
        }
    }
}

proof fn lemma_collected_message(
    c: CollectorView,
    defs: Seq<DefinitionView>,
    scope: Path,
    module_key: u16,
    n: nat,
    steps: Seq<int>,
)
    requires
        n <= defs.len(),
        collected_upto(c, defs, scope, module_key, n) is Ok,
        found(defs, scope, steps) matches Some(f) && f.def is MessageDef,
        steps[0] < n,
    ensures
        ({
            let r = collected_upto(c, defs, scope, module_key, n)->Ok_0;
            let f = found(defs, scope, steps).unwrap();
            let i = c.messages.len() + messages_before(defs, steps);
            &&& can_be_collected(f.def->MessageDef_0)
            &&& i < r.messages.len()
            &&& describes(
                r.messages[i as int],
                f.path,
                f.def->MessageDef_0,
                module_key_around(module_key, defs, steps),
                key_after(c.message_key, drawing_before(defs, steps)),
            )
        }),
    decreases defs, n,
{
    let before = collected_upto(c, defs, scope, module_key, (n - 1) as nat)->Ok_0;
    let r = collected_upto(c, defs, scope, module_key, n)->Ok_0;
    let f = found(defs, scope, steps).unwrap();
    let i = c.messages.len() + messages_before(defs, steps);
    lemma_keys_drawn(c, defs, scope, module_key, (n - 1) as nat);
    lemma_keys_drawn(c, defs, scope, module_key, n);
    if steps[0] < n - 1 {
        lemma_collected_message(c, defs, scope, module_key, (n - 1) as nat, steps);
        match defs[n - 1] {
            DefinitionView::ModuleDef(m) => {
                let key = match u16_value(m.annotations, "module_key"@) {
                    Some(key) => key,
                    None => module_key,
                };
                lemma_keys_drawn(
                    before,
                    m.node.definitions,
                    scope.push(m.node.name),
                    key,
                    m.node.definitions.len(),
                );
            },
            _ => {},
        }
        assert(before.messages.is_prefix_of(r.messages));
        assert(r.messages.subrange(0, before.messages.len() as int)[i as int]
            == r.messages[i as int]);
    } else if steps.len() == 1 {
        let m = f.def->MessageDef_0;
        lemma_fields_follow_members(
            scoped_text(scope, m.node.name),
            m.node.members,
            m.node.members.len(),
        );
        assert(steps.drop_first().len() == 0);
        assert(r.messages[i as int] == r.messages.last());
        assert forall|k: int| 0 <= k < m.node.members.len() implies primitive_of(
            (#[trigger] m.node.members[k]).node.type_,
        ) is Some by {}
    } else {
        let m = defs[n - 1]->ModuleDef_0;
        let inside = m.node.definitions;
        let rest = steps.drop_first();
        let key = match u16_value(m.annotations, "module_key"@) {
            Some(key) => key,
            None => module_key,
        };
        assert(found(inside, scope.push(m.node.name), rest) == Some(f));
        lemma_collected_message(
            before,
            inside,
            scope.push(m.node.name),
            key,
            inside.len(),
            rest,
        );
        lemma_key_after_adds(
            c.message_key,
            drawing_count(defs, (n - 1) as nat),
            drawing_before(inside, rest),
        );
    }
}

/// Every message at any depth is collected in its turn, as its definition describes it:
/// under the path of its modules, with its own module key or that of the innermost module
/// around it that names one, and with its own key or the one that is next in turn.
pub proof fn law_messages_are_collected_as_described(defs: Seq<DefinitionView>, steps: Seq<int>)
    requires
        messages_of(defs) is Ok,
        found(defs, Seq::empty(), steps) matches Some(f) && f.def is MessageDef,
    ensures
        ({
            let messages = messages_of(defs)->Ok_0;
            let f = found(defs, Seq::empty(), steps).unwrap();
            let i = messages_before(defs, steps);
            &&& messages.len() == messages_upto(defs, defs.len())
            &&& i < messages.len()
            &&& describes(
                messages[i as int],
                f.path,
                f.def->MessageDef_0,
                module_key_around(0, defs, steps),
                key_after(1, drawing_before(defs, steps)),
            )
        }),
{
    lemma_collected_message(
        no_messages(),
        defs,
        Seq::empty(),
        DEFAULT_MODULE_KEY,
        defs.len(),
        steps,
    );
    lemma_keys_drawn(no_messages(), defs, Seq::empty(), DEFAULT_MODULE_KEY, defs.len());
}

proof fn lemma_refused_message(
    c: CollectorView,
    defs: Seq<DefinitionView>,
    scope: Path,
    module_key: u16,
    n: nat,
)
    requires
        n <= defs.len(),
        collected_upto(c, defs, scope, module_key, n) is Err,
    ensures
        exists|steps: Seq<int>| #[trigger]
            found(defs, scope, steps) matches Some(f) && f.def matches DefinitionView::MessageDef(m)
                && !can_be_collected(m),
    decreases defs, n,
{
    if let Ok(before) = collected_upto(c, defs, scope, module_key, (n - 1) as nat) {
        match defs[n - 1] {
            DefinitionView::ModuleDef(m) => {
                let inside = m.node.definitions;
                let below = scope.push(m.node.name);
                let key = match u16_value(m.annotations, "module_key"@) {
                    Some(key) => key,
                    None => module_key,
                };
                lemma_refused_message(before, inside, below, key, inside.len());
                let rest = choose|steps: Seq<int>| #[trigger]
                    found(inside, below, steps) matches Some(f)
                        && f.def matches DefinitionView::MessageDef(m) && !can_be_collected(m);
                lemma_found_inside(defs, scope, n - 1, rest);
                let steps = seq![n - 1] + rest;
                assert(found(defs, scope, steps) == found(inside, below, rest));
            },
            DefinitionView::MessageDef(m) => {
                lemma_fields_follow_members(
                    scoped_text(scope, m.node.name),
                    m.node.members,
                    m.node.members.len(),
                );
                let steps = seq![n - 1];
                assert(found(defs, scope, steps) == Some(Found { path: scope, def: defs[n - 1] }));
            },
            _ => {},
        }
    } else {
        lemma_refused_message(c, defs, scope, module_key, (n - 1) as nat);
    }
}

/// Messages can be collected exactly where every one of them, at any depth, can be.
pub proof fn law_collecting_fails_exactly_where_a_message_cannot_be(defs: Seq<DefinitionView>)
    ensures
        messages_of(defs) is Ok <==> forall|steps: Seq<int>|
            (#[trigger] found(defs, Seq::empty(), steps)) matches Some(f)
                ==> f.def matches DefinitionView::MessageDef(m) ==> can_be_collected(m),
{
    if messages_of(defs) is Ok {
        assert forall|steps: Seq<int>|
            (#[trigger] found(defs, Seq::empty(), steps)) matches Some(f)
                ==> f.def matches DefinitionView::MessageDef(m) ==> can_be_collected(m) by {
            if let Some(f) = found(defs, Seq::empty(), steps) {
                if f.def is MessageDef {
                    lemma_collected_message(
                        no_messages(),
                        defs,
                        Seq::empty(),
                        DEFAULT_MODULE_KEY,
                        defs.len(),
                        steps,
                    );
                }
            }
        }
    } else {
        lemma_refused_message(
            no_messages(),
            defs,
            Seq::empty(),
            DEFAULT_MODULE_KEY,
            defs.len(),
        );
    }
}

/// A message that cannot be collected is refused for the first thing that is wrong with it:
/// its base, then the want of a topic, then the first member whose type is no primitive. The
/// refusal names the message by its full path.
pub proof fn law_refusals_say_why(
    next_key: u16,
    scope: Path,
    module_key: u16,
    m: CommentedView<MessageDefView>,
    i: int,
)
    ensures
        ({
            let name = scoped_text(scope, m.node.name);
            let r = message_of(next_key, scope, module_key, m);
            &&& m.node.base is Some ==> r == Err::<MessageSpecView, CodegenErrorView>(
                CodegenErrorView::UnsupportedMessageBase { message: name },
            )
            &&& m.node.base is None && string_value(m.annotations, "topic"@) is None ==> r == Err::<
                MessageSpecView,
                CodegenErrorView,
            >(CodegenErrorView::MissingTopic { message: name })
            &&& m.node.base is None && string_value(m.annotations, "topic"@) is Some && 0 <= i
                < m.node.members.len() && primitive_of(m.node.members[i].node.type_) is None && (
            forall|j: int|
                0 <= j < i ==> primitive_of((#[trigger] m.node.members[j]).node.type_) is Some)
                ==> r == Err::<MessageSpecView, CodegenErrorView>(
                CodegenErrorView::UnsupportedMemberType {
                    message: name,
                    member: m.node.members[i].node.name,
                    member_type: spelled(m.node.members[i].node.type_),
                },
            )
        }),
{
    if 0 <= i < m.node.members.len() && primitive_of(m.node.members[i].node.type_) is None && (
    forall|j: int| 0 <= j < i ==> primitive_of((#[trigger] m.node.members[j]).node.type_) is Some) {
        let name = scoped_text(scope, m.node.name);
        let members = m.node.members;
        lemma_fields_follow_members(name, members, i as nat);
        lemma_fields_err(name, members, (i + 1) as nat, members.len());
    }
}

/// A scoped name is the segments of its scope and the name with two colons between
/// neighbours.
pub proof fn law_scoped_names_are_joined(scope: Path, name: Text)
    ensures
        scoped_text(scope, name) == joined(scope.push(name), "::"@),
{
    assert(scope.push(name).drop_last() =~= scope);
    if scope.len() == 0 {
        assert(scope.push(name)[0] == name);
    }
}

/// A type is spelled as it is declared: with `unsigned` before the signed type of its width, with
/// `long` before what it is longer than, and with `w` before what it is wider than; a name with
/// colons between its parts.
pub proof fn law_types_are_spelled_as_declared(t: TypeView)
    ensures
        spelled(TypeView::UnsignedShort) == "unsigned "@ + spelled(TypeView::Short),
        spelled(TypeView::UnsignedLong) == "unsigned "@ + spelled(TypeView::Long),
        spelled(TypeView::UnsignedLongLong) == "unsigned "@ + spelled(TypeView::LongLong),
        spelled(TypeView::LongLong) == spelled(TypeView::Long) + " "@ + spelled(TypeView::Long),
        spelled(TypeView::LongDouble) == spelled(TypeView::Long) + " "@ + spelled(TypeView::Double),
        spelled(TypeView::WChar) == "w"@ + spelled(TypeView::Char),
        t is String ==> spelled(TypeView::WString) == "w"@ + spelled(t),
        t matches TypeView::ScopedName(path) ==> spelled(t) == joined(path, "::"@),
{
    reveal_strlit("unsigned ");
    reveal_strlit("short");
    reveal_strlit("unsigned short");
    reveal_strlit("long");
    reveal_strlit("unsigned long");
    reveal_strlit("long long");
    reveal_strlit("unsigned long long");
    reveal_strlit("double");
    reveal_strlit("long double");
    reveal_strlit(" ");
    reveal_strlit("w");
    reveal_strlit("char");
    reveal_strlit("wchar");
    reveal_strlit("string");
    reveal_strlit("wstring");
    assert("unsigned short"@ =~= "unsigned "@ + "short"@);
    assert("unsigned long"@ =~= "unsigned "@ + "long"@);
    assert("unsigned long long"@ =~= "unsigned "@ + "long long"@);
    assert("long long"@ =~= "long"@ + " "@ + "long"@);
    assert("long double"@ =~= "long"@ + " "@ + "double"@);
    assert("wchar"@ =~= "w"@ + "char"@);
    assert("wstring"@ =~= "w"@ + "string"@);
}

} // verus!
