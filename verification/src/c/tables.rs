//! The names that definitions bind, and what a type refers to through them.
use vstd::prelude::*;
use crate::ast::{EnumDef, EnumDefView, StructDef, StructDefView, Type, TypeView};
use crate::chains::{chain, lemma_long_chain_never_ends};
use crate::common::builtins::{
    are_primitive, builtin_type, lemma_builtin_is_primitive, map_builtin_ident, Builtin, BuiltinView,
};
use crate::concat::{views, Path};
use crate::text::{copy_path, same_path};

verus! {

broadcast use {crate::concat::group_append, crate::concat::group_views};

/// A name bound by a definition: its full path, the scope that it was defined
/// in, and what was defined.
pub struct Binding<'a, T> {
    pub path: Vec<String>,
    pub scope: Vec<String>,
    pub node: &'a T,
}

/// What contracts see of a [`Binding`].
pub struct BindingView<N> {
    pub path: Path,
    pub scope: Path,
    pub node: N,
}

impl<'a, T: View> View for Binding<'a, T> {
    type V = BindingView<T::V>;

    open spec fn view(&self) -> BindingView<T::V> {
        BindingView { path: views(self.path@), scope: views(self.scope@), node: self.node@ }
    }
}

/// The last of the first `n` bindings of `path`: a later definition replaces an
/// earlier one of the same path.
pub open spec fn last_binding<N>(bindings: Seq<BindingView<N>>, path: Path, n: nat) -> Option<
    BindingView<N>,
>
    decreases n,
{
    if n == 0 {
        None
    } else if bindings[n - 1].path == path {
        Some(bindings[n - 1])
    } else {
        last_binding(bindings, path, (n - 1) as nat)
    }
}

/// What `path` is bound to.
pub open spec fn binding_of<N>(bindings: Seq<BindingView<N>>, path: Path) -> Option<
    BindingView<N>,
> {
    last_binding(bindings, path, bindings.len())
}

/// What `path` is bound to.
pub fn find_binding<'a, 'b, T: View>(bindings: &'b Vec<Binding<'a, T>>, path: &[String]) -> (r:
    Option<&'b Binding<'a, T>>)
    ensures
        match r {
            Some(b) => binding_of(views(bindings@), views(path@)) == Some(b@),
            None => binding_of(views(bindings@), views(path@)) is None,
        },
{
    let mut n: usize = bindings.len();
    while n > 0
        invariant
            n <= bindings@.len(),
            binding_of(views(bindings@), views(path@)) == last_binding(
                views(bindings@),
                views(path@),
                n as nat,
            ),
        decreases n,
    {
        assert(views(bindings@)[n - 1] == bindings@[n - 1]@);
        if same_path(bindings[n - 1].path.as_slice(), path) {
            return Some(&bindings[n - 1]);
        }
        n -= 1;
    }
    None
}

/// The innermost bound path that `name` can mean: in the first `prefix`
/// segments of the scope, or in fewer.
pub open spec fn innermost<N>(
    bindings: Seq<BindingView<N>>,
    name: Path,
    scope: Path,
    prefix: int,
) -> Option<Path>
    decreases prefix + 1,
{
    if prefix < 0 {
        None
    } else if binding_of(bindings, scope.take(prefix) + name) is Some {
        Some(scope.take(prefix) + name)
    } else {
        innermost(bindings, name, scope, prefix - 1)
    }
}

/// Whether a path ends with the segments of `name`.
pub open spec fn is_path_suffix(path: Path, name: Path) -> bool {
    name.len() <= path.len() && path.skip(path.len() - name.len()) == name
}

/// The first bound path at or after position `from` that ends with `name`.
pub open spec fn first_suffix_match<N>(
    bindings: Seq<BindingView<N>>,
    name: Path,
    from: int,
) -> Option<Path>
    decreases bindings.len() - from,
{
    if from < 0 || from >= bindings.len() {
        None
    } else if is_path_suffix(bindings[from].path, name) {
        Some(bindings[from].path)
    } else {
        first_suffix_match(bindings, name, from + 1)
    }
}

/// The one bound path that ends with `name`, where there is exactly one.
pub open spec fn only_suffix_match<N>(bindings: Seq<BindingView<N>>, name: Path) -> Option<Path> {
    match first_suffix_match(bindings, name, 0) {
        Some(path) => if forall|i: int|
            0 <= i < bindings.len() && is_path_suffix((#[trigger] bindings[i]).path, name)
                ==> bindings[i].path == path {
            Some(path)
        } else {
            None
        },
        None => None,
    }
}

/// The bound path that `name` means inside `scope`: the innermost one, else the
/// only one anywhere that ends with `name`.
pub open spec fn looked_up<N>(bindings: Seq<BindingView<N>>, name: Path, scope: Path) -> Option<
    Path,
> {
    match innermost(bindings, name, scope, scope.len() as int) {
        Some(path) => Some(path),
        None => only_suffix_match(bindings, name),
    }
}

fn path_ends_with(path: &[String], name: &[String]) -> (r: bool)
    ensures
        r == is_path_suffix(views(path@), views(name@)),
{
    if name.len() > path.len() {
        return false;
    }
    let total: usize = path.len();
    let start: usize = total - name.len();
    for i in 0..name.len()
        invariant
            total == path@.len(),
            start + name@.len() == path@.len(),
            forall|k: int| 0 <= k < i ==> path@[start + k]@ == name@[k]@,
    {
        if path[start + i] != name[i] {
            assert(views(path@).skip(start as int)[i as int] != views(name@)[i as int]);
            return false;
        }
    }
    assert(views(path@).skip(start as int) =~= views(name@));
    true
}

/// The first `n` segments of `scope` followed by `name`.
fn nested_path(scope: &[String], n: usize, name: &[String]) -> (r: Vec<String>)
    requires
        n <= scope@.len(),
    ensures
        views(r@) == views(scope@).take(n as int) + views(name@),
{
    let mut r: Vec<String> = Vec::new();
    for i in 0..n
        invariant
            n <= scope@.len(),
            views(r@) == views(scope@).take(i as int),
    {
        r.push(scope[i].clone());
        assert(views(r@) =~= views(scope@).take(i + 1));
    }
    for i in 0..name.len()
        invariant
            n <= scope@.len(),
            views(r@) == views(scope@).take(n as int) + views(name@).take(i as int),
    {
        r.push(name[i].clone());
        assert(views(r@) =~= views(scope@).take(n as int) + views(name@).take(i + 1));
    }
    assert(views(name@).take(name@.len() as int) =~= views(name@));
    r
}

/// The bound path that `name` means inside `scope`.
pub fn lookup<'a, T: View>(
    bindings: &Vec<Binding<'a, T>>,
    name: &[String],
    scope: &[String],
) -> (r: Option<Vec<String>>)
    ensures
        match r {
            Some(path) => looked_up(views(bindings@), views(name@), views(scope@)) == Some(
                views(path@),
            ),
            None => looked_up(views(bindings@), views(name@), views(scope@)) is None,
        },
{
    let mut prefix: usize = scope.len();
    loop
        invariant
            prefix <= scope@.len(),
            innermost(views(bindings@), views(name@), views(scope@), scope@.len() as int)
                == innermost(views(bindings@), views(name@), views(scope@), prefix as int),
        ensures
            innermost(views(bindings@), views(name@), views(scope@), scope@.len() as int) is None,
        decreases prefix,
    {
        let candidate = nested_path(scope, prefix, name);
        if find_binding(bindings, candidate.as_slice()).is_some() {
            return Some(candidate);
        }
        if prefix == 0 {
            assert(innermost(views(bindings@), views(name@), views(scope@), -1) is None);
            break;
        }
        prefix -= 1;
    }
    find_only_suffix(bindings, name)
}

fn find_only_suffix<'a, T: View>(bindings: &Vec<Binding<'a, T>>, name: &[String]) -> (r: Option<
    Vec<String>,
>)
    ensures
        match r {
            Some(path) => only_suffix_match(views(bindings@), views(name@)) == Some(views(path@)),
            None => only_suffix_match(views(bindings@), views(name@)) is None,
        },
{
    let n: usize = bindings.len();
    let ghost all = views(bindings@);
    let ghost wanted = views(name@);
    let mut first: usize = 0;
    while first < n && !path_ends_with(bindings[first].path.as_slice(), name)
        invariant
            first <= n,
            n == bindings@.len(),
            all == views(bindings@),
            wanted == views(name@),
            first_suffix_match(all, wanted, 0) == first_suffix_match(all, wanted, first as int),
            forall|i: int| 0 <= i < first ==> !is_path_suffix((#[trigger] all[i]).path, wanted),
        decreases n - first,
    {
        assert(all[first as int].path == views(bindings@[first as int].path@));
        first += 1;
    }
    if first == n {
        return None;
    }
    assert(all[first as int].path == views(bindings@[first as int].path@));
    let mut i: usize = first + 1;
    while i < n
        invariant
            first < i <= n,
            n == bindings@.len(),
            all == views(bindings@),
            wanted == views(name@),
            first_suffix_match(all, wanted, 0) == Some(all[first as int].path),
            all[first as int].path == views(bindings@[first as int].path@),
            forall|k: int|
                0 <= k < i && is_path_suffix((#[trigger] all[k]).path, wanted) ==> all[k].path
                    == all[first as int].path,
        decreases n - i,
    {
        assert(all[i as int].path == views(bindings@[i as int].path@));
        if path_ends_with(bindings[i].path.as_slice(), name) && !same_path(
            bindings[i].path.as_slice(),
            bindings[first].path.as_slice(),
        ) {
            return None;
        }
        i += 1;
    }
    Some(copy_path(bindings[first].path.as_slice()))
}

/// The built-in names, and the named definitions seen so far.
pub struct Tables<'a> {
    pub builtins: &'a Vec<Builtin>,
    pub typedefs: Vec<Binding<'a, Type>>,
    pub structs: Vec<Binding<'a, StructDef>>,
    pub enums: Vec<Binding<'a, EnumDef>>,
}

/// The bound enumerations as contracts see them.
pub type Enums = Seq<BindingView<EnumDefView>>;

/// What contracts see of [`Tables`].
pub struct TablesView {
    pub builtins: Seq<BuiltinView>,
    pub typedefs: Seq<BindingView<TypeView>>,
    pub structs: Seq<BindingView<StructDefView>>,
    pub enums: Enums,
}

impl<'a> View for Tables<'a> {
    type V = TablesView;

    open spec fn view(&self) -> TablesView {
        TablesView {
            builtins: views(self.builtins@),
            typedefs: views(self.typedefs@),
            structs: views(self.structs@),
            enums: views(self.enums@),
        }
    }
}

/// An array as nested sequences, the first `n` dimensions from the inside out.
pub open spec fn nested_sequences(element: TypeView, dimensions: Seq<u32>, n: nat) -> TypeView
    decreases n,
{
    if n == 0 {
        element
    } else {
        nested_sequences(
            TypeView::Sequence {
                element_type: Box::new(element),
                size: Some(dimensions[n - 1]),
            },
            dimensions,
            (n - 1) as nat,
        )
    }
}

/// A type with its aliases replaced by what they stand for and its names by full
/// paths, following at most `fuel` aliases one after another; none where that is
/// not enough.
pub open spec fn resolved_within(tables: TablesView, ty: TypeView, scope: Path, fuel: nat) -> Option<
    TypeView,
>
    decreases fuel, ty,
{
    match ty {
        TypeView::Sequence { element_type, size } => match resolved_within(
            tables,
            *element_type,
            scope,
            fuel,
        ) {
            Some(element) => Some(TypeView::Sequence { element_type: Box::new(element), size }),
            None => None,
        },
        TypeView::Array { element_type, dimensions } => match resolved_within(
            tables,
            *element_type,
            scope,
            fuel,
        ) {
            Some(element) => Some(nested_sequences(element, dimensions, dimensions.len())),
            None => None,
        },
        TypeView::ScopedName(name) => if name.len() == 1 && builtin_type(tables.builtins, name[0]) is Some {
            builtin_type(tables.builtins, name[0])
        } else {
            match looked_up(tables.typedefs, name, scope) {
                Some(path) => if fuel == 0 {
                    None
                } else {
                    let b = binding_of(tables.typedefs, path)->0;
                    resolved_within(tables, b.node, b.scope, (fuel - 1) as nat)
                },
                None => match looked_up(tables.structs, name, scope) {
                    Some(path) => Some(TypeView::ScopedName(path)),
                    None => match looked_up(tables.enums, name, scope) {
                        Some(path) => Some(TypeView::ScopedName(path)),
                        None => Some(ty),
                    },
                },
            }
        },
        _ => Some(ty),
    }
}

/// A type with its aliases replaced by what they stand for and its names by full
/// paths; none where an alias leads back to itself. A chain of aliases that ends
/// passes each alias once at most, so as many steps as there are aliases do.
pub open spec fn resolved(tables: TablesView, ty: TypeView, scope: Path) -> Option<TypeView> {
    resolved_within(tables, ty, scope, tables.typedefs.len())
}

/// A looked-up path is bound.
pub proof fn lemma_looked_up_is_bound<N>(bindings: Seq<BindingView<N>>, name: Path, scope: Path)
    ensures
        looked_up(bindings, name, scope) matches Some(path) ==> binding_of(bindings, path) is Some,
{
    lemma_innermost_is_bound(bindings, name, scope, scope.len() as int);
    lemma_first_suffix_is_bound(bindings, name, 0);
}

proof fn lemma_innermost_is_bound<N>(
    bindings: Seq<BindingView<N>>,
    name: Path,
    scope: Path,
    prefix: int,
)
    ensures
        innermost(bindings, name, scope, prefix) matches Some(path) ==> binding_of(bindings, path)
            is Some,
    decreases prefix + 1,
{
    if prefix >= 0 {
        lemma_innermost_is_bound(bindings, name, scope, prefix - 1);
    }
}

proof fn lemma_first_suffix_is_bound<N>(bindings: Seq<BindingView<N>>, name: Path, from: int)
    requires
        0 <= from,
    ensures
        first_suffix_match(bindings, name, from) matches Some(path) ==> binding_of(bindings, path)
            is Some,
    decreases bindings.len() - from,
{
    if from < bindings.len() {
        lemma_first_suffix_is_bound(bindings, name, from + 1);
        lemma_binding_at(bindings, from, bindings.len());
    }
}

proof fn lemma_binding_at<N>(bindings: Seq<BindingView<N>>, i: int, n: nat)
    requires
        0 <= i < n <= bindings.len(),
    ensures
        last_binding(bindings, bindings[i].path, n) is Some,
    decreases n,
{
    if i < n - 1 {
        lemma_binding_at(bindings, i, (n - 1) as nat);
    }
}

/// Wraps `element` in one sequence for each dimension, the last one innermost.
fn nest_sequences(element: Type, dimensions: &Vec<u32>) -> (r: Type)
    ensures
        r@ == nested_sequences(element@, dimensions@, dimensions@.len()),
{
    let mut r = element;
    let mut n: usize = dimensions.len();
    while n > 0
        invariant
            n <= dimensions@.len(),
            nested_sequences(element@, dimensions@, dimensions@.len()) == nested_sequences(
                r@,
                dimensions@,
                n as nat,
            ),
        decreases n,
    {
        r = Type::Sequence { element_type: Box::new(r), size: Some(dimensions[n - 1]) };
        n -= 1;
    }
    r
}

impl<'a> Tables<'a> {
    pub fn new(builtins: &'a Vec<Builtin>) -> (r: Self)
        ensures
            r@ == (TablesView {
                builtins: views(builtins@),
                typedefs: Seq::empty(),
                structs: Seq::empty(),
                enums: Seq::empty(),
            }),
    {
        Tables { builtins, typedefs: Vec::new(), structs: Vec::new(), enums: Vec::new() }
    }

    fn resolve_within(&self, ty: &Type, scope: &[String], fuel: usize) -> (r: Option<Type>)
        ensures
            match r {
                Some(t) => resolved_within(self@, ty@, views(scope@), fuel as nat) == Some(t@),
                None => resolved_within(self@, ty@, views(scope@), fuel as nat) is None,
            },
        decreases fuel, ty,
    {
        match ty {
            Type::Sequence { element_type, size } => {
                let element_ref: &Type = &**element_type;
                match self.resolve_within(element_ref, scope, fuel) {
                    Some(element) => Some(
                        Type::Sequence { element_type: Box::new(element), size: *size },
                    ),
                    None => None,
                }
            },
            Type::Array { element_type, dimensions } => {
                let element_ref: &Type = &**element_type;
                match self.resolve_within(element_ref, scope, fuel) {
                    Some(element) => Some(nest_sequences(element, dimensions)),
                    None => None,
                }
            },
            Type::ScopedName(name) => {
                if name.len() == 1 {
                    assert(views(name@)[0] == name@[0]@);
                    if let Some(mapped) = map_builtin_ident(self.builtins, name[0].as_str()) {
                        return Some(mapped);
                    }
                }
                proof {
                    lemma_looked_up_is_bound(self@.typedefs, views(name@), views(scope@));
                }
                if let Some(path) = lookup(&self.typedefs, name.as_slice(), scope) {
                    if fuel == 0 {
                        return None;
                    }
                    return match find_binding(&self.typedefs, path.as_slice()) {
                        Some(b) => self.resolve_within(b.node, b.scope.as_slice(), fuel - 1),
                        None => None,
                    };
                }
                if let Some(path) = lookup(&self.structs, name.as_slice(), scope) {
                    return Some(Type::ScopedName(path));
                }
                if let Some(path) = lookup(&self.enums, name.as_slice(), scope) {
                    return Some(Type::ScopedName(path));
                }
                Some(ty.clone())
            },
            _ => Some(ty.clone()),
        }
    }

    /// Replaces aliases by what they stand for and names by full paths; gives
    /// none where an alias leads back to itself.
    pub fn resolve_type(&self, ty: &Type, scope: &[String]) -> (r: Option<Type>)
        ensures
            match r {
                Some(t) => resolved(self@, ty@, views(scope@)) == Some(t@),
                None => resolved(self@, ty@, views(scope@)) is None,
            },
    {
        self.resolve_within(ty, scope, self.typedefs.len())
    }
}

/// The type that stores a value: the storage type of an enumeration, any other
/// type as it is. Follows at most `fuel` enumerations one after another, and
/// gives none where that is not enough.
pub open spec fn storage_within(
    enums: Enums,
    ty: TypeView,
    fuel: nat,
) -> Option<TypeView>
    decreases fuel,
{
    match ty {
        TypeView::ScopedName(path) => match binding_of(enums, path) {
            Some(b) => if fuel == 0 {
                None
            } else {
                storage_within(enums, declared_storage(b.node), (fuel - 1) as nat)
            },
            None => Some(ty),
        },
        _ => Some(ty),
    }
}

/// The storage type that an enumeration names, `unsigned long` where it names
/// none.
pub open spec fn declared_storage(e: EnumDefView) -> TypeView {
    match e.base_type {
        Some(t) => t,
        None => TypeView::UnsignedLong,
    }
}

/// The type that stores a value, or none where enumerations store each other in
/// a circle.
pub open spec fn storage(enums: Enums, ty: TypeView) -> Option<TypeView> {
    storage_within(enums, ty, enums.len())
}

/// The bytes that a stored value takes inline, or none for a string without a
/// bound. The data of a sequence stands elsewhere: only its header counts.
pub open spec fn stored_size(t: TypeView) -> Option<u32> {
    match t {
        TypeView::Boolean | TypeView::Char | TypeView::Octet => Some(1),
        TypeView::Short | TypeView::UnsignedShort => Some(2),
        TypeView::LongLong | TypeView::UnsignedLongLong | TypeView::Double => Some(8),
        TypeView::String { bound } => bound,
        _ => Some(4),
    }
}

/// The alignment of a stored value.
pub open spec fn stored_align(t: TypeView) -> u32 {
    match t {
        TypeView::Boolean | TypeView::Char | TypeView::Octet => 1,
        TypeView::String { bound } => 1,
        TypeView::Short | TypeView::UnsignedShort => 2,
        TypeView::LongLong | TypeView::UnsignedLongLong | TypeView::Double => 8,
        _ => 4,
    }
}

impl<'a> Tables<'a> {
    fn storage_of_within(&self, ty: &Type, fuel: usize) -> (r: Option<Type>)
        ensures
            match r {
                Some(t) => storage_within(self@.enums, ty@, fuel as nat) == Some(t@),
                None => storage_within(self@.enums, ty@, fuel as nat) is None,
            },
        decreases fuel,
    {
        match ty {
            Type::ScopedName(path) => match find_binding(&self.enums, path.as_slice()) {
                Some(b) => if fuel == 0 {
                    None
                } else {
                    match &b.node.base_type {
                        Some(t) => self.storage_of_within(t, fuel - 1),
                        None => self.storage_of_within(&Type::UnsignedLong, fuel - 1),
                    }
                },
                None => Some(ty.clone()),
            },
            _ => Some(ty.clone()),
        }
    }

    /// The type that stores a value of `ty`.
    pub fn storage_of(&self, ty: &Type) -> (r: Option<Type>)
        ensures
            match r {
                Some(t) => storage(self@.enums, ty@) == Some(t@),
                None => storage(self@.enums, ty@) is None,
            },
    {
        self.storage_of_within(ty, self.enums.len())
    }
}

/// The bytes that a stored value takes inline.
pub fn wire_size(t: &Type) -> (r: Option<u32>)
    ensures
        r == stored_size(t@),
{
    match t {
        Type::Boolean | Type::Char | Type::Octet => Some(1),
        Type::Short | Type::UnsignedShort => Some(2),
        Type::LongLong | Type::UnsignedLongLong | Type::Double => Some(8),
        Type::String { bound } => *bound,
        _ => Some(4),
    }
}

/// The alignment of a stored value.
pub fn wire_align(t: &Type) -> (r: u32)
    ensures
        r == stored_align(t@),
{
    match t {
        Type::Boolean | Type::Char | Type::Octet => 1,
        Type::String { bound: _ } => 1,
        Type::Short | Type::UnsignedShort => 2,
        Type::LongLong | Type::UnsignedLongLong | Type::Double => 8,
        _ => 4,
    }
}

/// Whether nothing is left to resolve in a type: it holds no array, and every
/// name in it is the full path of a structure or an enumeration, or bound to
/// nothing.
pub open spec fn is_settled(tables: TablesView, ty: TypeView) -> bool
    decreases ty,
{
    match ty {
        TypeView::Sequence { element_type, size } => is_settled(tables, *element_type),
        TypeView::Array { element_type, dimensions } => false,
        TypeView::ScopedName(path) => {
            ||| binding_of(tables.structs, path) is Some
            ||| binding_of(tables.enums, path) is Some
            ||| binding_of(tables.typedefs, path) is None
        },
        _ => true,
    }
}

proof fn lemma_unfound_is_unbound<N>(
    bindings: Seq<BindingView<N>>,
    name: Path,
    scope: Path,
    prefix: int,
)
    requires
        0 <= prefix,
        innermost(bindings, name, scope, prefix) is None,
    ensures
        binding_of(bindings, name) is None,
    decreases prefix,
{
    if prefix == 0 {
        assert(scope.take(0) + name =~= name);
    } else {
        lemma_unfound_is_unbound(bindings, name, scope, prefix - 1);
    }
}

proof fn lemma_nested_is_settled(
    tables: TablesView,
    element: TypeView,
    dimensions: Seq<u32>,
    n: nat,
)
    requires
        is_settled(tables, element),
    ensures
        is_settled(tables, nested_sequences(element, dimensions, n)),
    decreases n,
{
    if n > 0 {
        let inner = TypeView::Sequence {
            element_type: Box::new(element),
            size: Some(dimensions[n - 1]),
        };
        assert(is_settled(tables, inner));
        lemma_nested_is_settled(tables, inner, dimensions, (n - 1) as nat);
    }
}

proof fn lemma_resolved_is_settled(tables: TablesView, ty: TypeView, scope: Path, fuel: nat)
    requires
        are_primitive(tables.builtins),
    ensures
        resolved_within(tables, ty, scope, fuel) matches Some(t) ==> is_settled(tables, t),
    decreases fuel, ty,
{
    match ty {
        TypeView::Sequence { element_type, size } => {
            lemma_resolved_is_settled(tables, *element_type, scope, fuel);
        },
        TypeView::Array { element_type, dimensions } => {
            lemma_resolved_is_settled(tables, *element_type, scope, fuel);
            if let Some(element) = resolved_within(tables, *element_type, scope, fuel) {
                lemma_nested_is_settled(tables, element, dimensions, dimensions.len());
            }
        },
        TypeView::ScopedName(name) => {
            if name.len() == 1 && builtin_type(tables.builtins, name[0]) is Some {
                lemma_builtin_is_primitive(tables.builtins, name[0], 0);
            } else {
                match looked_up(tables.typedefs, name, scope) {
                    Some(path) => {
                        if fuel > 0 {
                            let b = binding_of(tables.typedefs, path)->0;
                            lemma_resolved_is_settled(tables, b.node, b.scope, (fuel - 1) as nat);
                        }
                    },
                    None => {
                        lemma_looked_up_is_bound(tables.structs, name, scope);
                        lemma_looked_up_is_bound(tables.enums, name, scope);
                        lemma_unfound_is_unbound(
                            tables.typedefs,
                            name,
                            scope,
                            scope.len() as int,
                        );
                    },
                }
            }
        },
        _ => {},
    }
}

/// A resolved type holds no array and no alias: every name in it is the full
/// path of a structure or an enumeration, or bound to nothing.
pub proof fn law_resolved_types_are_settled(tables: TablesView, ty: TypeView, scope: Path)
    requires
        are_primitive(tables.builtins),
    ensures
        resolved(tables, ty, scope) matches Some(t) ==> is_settled(tables, t),
{
    lemma_resolved_is_settled(tables, ty, scope, tables.typedefs.len());
}

/// The alias that resolving a type comes to first.
pub open spec fn first_alias(tables: TablesView, ty: TypeView, scope: Path) -> Option<Path>
    decreases ty,
{
    match ty {
        TypeView::Sequence { element_type, size } => first_alias(tables, *element_type, scope),
        TypeView::Array { element_type, dimensions } => first_alias(tables, *element_type, scope),
        TypeView::ScopedName(name) => if name.len() == 1 && builtin_type(tables.builtins, name[0]) is Some {
            None
        } else {
            looked_up(tables.typedefs, name, scope)
        },
        _ => None,
    }
}

/// The alias that an alias stands for, if it stands for one.
pub open spec fn next_alias(tables: TablesView) -> spec_fn(Path) -> Option<Path> {
    |path: Path|
        {
            let b = binding_of(tables.typedefs, path)->0;
            first_alias(tables, b.node, b.scope)
        }
}

/// The paths of bindings.
pub open spec fn bound_paths<N>(bindings: Seq<BindingView<N>>) -> Seq<Path> {
    bindings.map_values(|b: BindingView<N>| b.path)
}

proof fn lemma_binding_is_among<N>(bindings: Seq<BindingView<N>>, path: Path, n: nat)
    requires
        n <= bindings.len(),
        last_binding(bindings, path, n) is Some,
    ensures
        bound_paths(bindings).contains(path),
    decreases n,
{
    if bindings[n - 1].path == path {
        assert(bound_paths(bindings)[n - 1] == path);
    } else {
        lemma_binding_is_among(bindings, path, (n - 1) as nat);
    }
}

proof fn lemma_first_alias_is_bound(tables: TablesView, ty: TypeView, scope: Path)
    ensures
        first_alias(tables, ty, scope) matches Some(path) ==> bound_paths(
            tables.typedefs,
        ).contains(path),
    decreases ty,
{
    match ty {
        TypeView::Sequence { element_type, size } => {
            lemma_first_alias_is_bound(tables, *element_type, scope);
        },
        TypeView::Array { element_type, dimensions } => {
            lemma_first_alias_is_bound(tables, *element_type, scope);
        },
        TypeView::ScopedName(name) => {
            lemma_looked_up_is_bound(tables.typedefs, name, scope);
            if let Some(path) = looked_up(tables.typedefs, name, scope) {
                lemma_binding_is_among(tables.typedefs, path, tables.typedefs.len());
            }
        },
        _ => {},
    }
}

proof fn lemma_resolved_exactly_where_chain_ends(
    tables: TablesView,
    ty: TypeView,
    scope: Path,
    fuel: nat,
)
    ensures
        resolved_within(tables, ty, scope, fuel) is None <==> chain(
            next_alias(tables),
            first_alias(tables, ty, scope),
            fuel,
        ) is Some,
    decreases fuel, ty,
{
    match ty {
        TypeView::Sequence { element_type, size } => {
            lemma_resolved_exactly_where_chain_ends(tables, *element_type, scope, fuel);
        },
        TypeView::Array { element_type, dimensions } => {
            lemma_resolved_exactly_where_chain_ends(tables, *element_type, scope, fuel);
        },
        TypeView::ScopedName(name) => {
            if let Some(path) = first_alias(tables, ty, scope) {
                if fuel > 0 {
                    let b = binding_of(tables.typedefs, path)->0;
                    lemma_resolved_exactly_where_chain_ends(
                        tables,
                        b.node,
                        b.scope,
                        (fuel - 1) as nat,
                    );
                    assert(next_alias(tables)(path) == first_alias(tables, b.node, b.scope));
                }
            } else {
                assert(chain(next_alias(tables), None::<Path>, fuel) is None);
            }
        },
        _ => {
            assert(chain(next_alias(tables), None::<Path>, fuel) is None);
        },
    }
}

proof fn lemma_more_steps_keep_result(
    tables: TablesView,
    ty: TypeView,
    scope: Path,
    fuel: nat,
    more: nat,
)
    requires
        fuel <= more,
        resolved_within(tables, ty, scope, fuel) is Some,
    ensures
        resolved_within(tables, ty, scope, more) == resolved_within(tables, ty, scope, fuel),
    decreases fuel, ty,
{
    match ty {
        TypeView::Sequence { element_type, size } => {
            lemma_more_steps_keep_result(tables, *element_type, scope, fuel, more);
        },
        TypeView::Array { element_type, dimensions } => {
            lemma_more_steps_keep_result(tables, *element_type, scope, fuel, more);
        },
        TypeView::ScopedName(name) => {
            if let Some(path) = first_alias(tables, ty, scope) {
                if fuel > 0 {
                    let b = binding_of(tables.typedefs, path)->0;
                    lemma_more_steps_keep_result(
                        tables,
                        b.node,
                        b.scope,
                        (fuel - 1) as nat,
                        (more - 1) as nat,
                    );
                }
            }
        },
        _ => {},
    }
}

/// As many steps as there are aliases do: where they are not enough to resolve a
/// type no number of them is, and where they are enough more of them change
/// nothing.
pub proof fn law_unresolved_aliases_never_end(
    tables: TablesView,
    ty: TypeView,
    scope: Path,
    fuel: nat,
)
    requires
        fuel >= tables.typedefs.len(),
    ensures
        resolved_within(tables, ty, scope, fuel) == resolved(tables, ty, scope),
{
    let universe = bound_paths(tables.typedefs);
    if resolved(tables, ty, scope) is Some {
        lemma_more_steps_keep_result(tables, ty, scope, tables.typedefs.len(), fuel);
    } else {
        let hop = next_alias(tables);
        let p = first_alias(tables, ty, scope);
        lemma_resolved_exactly_where_chain_ends(tables, ty, scope, tables.typedefs.len());
        lemma_resolved_exactly_where_chain_ends(tables, ty, scope, fuel);
        lemma_first_alias_is_bound(tables, ty, scope);
        assert forall|x: Path| (#[trigger] hop(x) matches Some(y) ==> universe.contains(y)) by {
            let b = binding_of(tables.typedefs, x)->0;
            lemma_first_alias_is_bound(tables, b.node, b.scope);
        }
        lemma_long_chain_never_ends(hop, p, universe, fuel);
    }
}

/// The enumeration that a type names, if it names one.
pub open spec fn named_enum(enums: Enums, ty: TypeView) -> Option<Path> {
    match ty {
        TypeView::ScopedName(path) => if binding_of(enums, path) is Some {
            Some(path)
        } else {
            None
        },
        _ => None,
    }
}

/// The enumeration that stores an enumeration, if one does.
pub open spec fn storing_enum(enums: Enums) -> spec_fn(Path) -> Option<
    Path,
> {
    |path: Path| named_enum(enums, declared_storage((binding_of(enums, path)->0).node))
}

proof fn lemma_stored_exactly_where_chain_ends(
    enums: Enums,
    ty: TypeView,
    fuel: nat,
)
    ensures
        storage_within(enums, ty, fuel) is None <==> chain(
            storing_enum(enums),
            named_enum(enums, ty),
            fuel,
        ) is Some,
    decreases fuel,
{
    match named_enum(enums, ty) {
        Some(path) => {
            if fuel > 0 {
                let next = declared_storage((binding_of(enums, path)->0).node);
                lemma_stored_exactly_where_chain_ends(enums, next, (fuel - 1) as nat);
                assert(storing_enum(enums)(path) == named_enum(enums, next));
            }
        },
        None => {
            assert(chain(storing_enum(enums), None::<Path>, fuel) is None);
        },
    }
}

proof fn lemma_more_steps_keep_storage(
    enums: Enums,
    ty: TypeView,
    fuel: nat,
    more: nat,
)
    requires
        fuel <= more,
        storage_within(enums, ty, fuel) is Some,
    ensures
        storage_within(enums, ty, more) == storage_within(enums, ty, fuel),
    decreases fuel,
{
    if let Some(path) = named_enum(enums, ty) {
        if fuel > 0 {
            let next = declared_storage((binding_of(enums, path)->0).node);
            lemma_more_steps_keep_storage(enums, next, (fuel - 1) as nat, (more - 1) as nat);
        }
    }
}

/// As many steps as there are enumerations do: where they are not enough to find
/// what stores a value no number of them is, and where they are enough more of
/// them change nothing.
pub proof fn law_unstored_enums_never_end(
    enums: Enums,
    ty: TypeView,
    fuel: nat,
)
    requires
        fuel >= enums.len(),
    ensures
        storage_within(enums, ty, fuel) == storage(enums, ty),
{
    let universe = bound_paths(enums);
    if storage(enums, ty) is Some {
        lemma_more_steps_keep_storage(enums, ty, enums.len(), fuel);
    } else {
        let hop = storing_enum(enums);
        let p = named_enum(enums, ty);
        lemma_stored_exactly_where_chain_ends(enums, ty, enums.len());
        lemma_stored_exactly_where_chain_ends(enums, ty, fuel);
        if let Some(x) = p {
            lemma_binding_is_among(enums, x, enums.len());
        }
        assert forall|x: Path| (#[trigger] hop(x) matches Some(y) ==> universe.contains(y)) by {
            if let Some(y) = hop(x) {
                lemma_binding_is_among(enums, y, enums.len());
            }
        }
        lemma_long_chain_never_ends(hop, p, universe, fuel);
    }
}

/// A stored value that is no string is as aligned as it is long. Integers take one
/// byte and double from one kind to the next, with a sign or without; numbers with a
/// fraction take as much as the integers of the same rank, and what has no place of
/// its own on the wire takes a word. A string has as many bytes as its bound says and
/// may stand anywhere.
pub proof fn law_values_are_aligned_to_their_size(t: TypeView)
    ensures
        match t {
            TypeView::String { bound } => stored_size(t) == bound && stored_align(t) == 1,
            _ => stored_size(t) == Some(stored_align(t)),
        },
        stored_size(TypeView::Octet) == Some(1u32),
        stored_size(TypeView::Char) == stored_size(TypeView::Octet),
        stored_size(TypeView::Boolean) == stored_size(TypeView::Octet),
        stored_size(TypeView::Short).unwrap() == 2 * stored_size(TypeView::Char).unwrap(),
        stored_size(TypeView::Long).unwrap() == 2 * stored_size(TypeView::Short).unwrap(),
        stored_size(TypeView::LongLong).unwrap() == 2 * stored_size(TypeView::Long).unwrap(),
        stored_size(TypeView::UnsignedShort) == stored_size(TypeView::Short),
        stored_size(TypeView::UnsignedLong) == stored_size(TypeView::Long),
        stored_size(TypeView::UnsignedLongLong) == stored_size(TypeView::LongLong),
        stored_size(TypeView::Float) == stored_size(TypeView::Long),
        stored_size(TypeView::Double) == stored_size(TypeView::LongLong),
        t is Sequence || t is Array || t is ScopedName || t is WChar || t is WString
            || t is LongDouble ==> stored_size(t) == stored_size(TypeView::Long),
{
}

/// Whether a path is bound.
pub open spec fn is_bound<N>(bindings: Seq<BindingView<N>>, path: Path) -> bool {
    exists|i: int| 0 <= i < bindings.len() && (#[trigger] bindings[i]).path == path
}

proof fn lemma_last_binding<N>(bindings: Seq<BindingView<N>>, path: Path, n: nat)
    requires
        n <= bindings.len(),
    ensures
        match last_binding(bindings, path, n) {
            Some(b) => b.path == path && exists|i: int|
                0 <= i < n && #[trigger] bindings[i] == b && forall|j: int|
                    i < j < n ==> (#[trigger] bindings[j]).path != path,
            None => forall|i: int| 0 <= i < n ==> (#[trigger] bindings[i]).path != path,
        },
    decreases n,
{
    if n > 0 {
        lemma_last_binding(bindings, path, (n - 1) as nat);
        if bindings[n - 1].path == path {
            assert(bindings[n - 1] == last_binding(bindings, path, n)->0);
        } else if let Some(b) = last_binding(bindings, path, n) {
            let i = choose|i: int|
                0 <= i < n - 1 && #[trigger] bindings[i] == b && forall|j: int|
                    i < j < n - 1 ==> (#[trigger] bindings[j]).path != path;
            assert(bindings[i] == b);
        }
    }
}

/// A path means what was bound to it last, and nothing exactly where nothing was
/// bound to it.
pub proof fn law_the_last_binding_counts<N>(bindings: Seq<BindingView<N>>, path: Path, i: int)
    ensures
        binding_of(bindings, path) is Some <==> is_bound(bindings, path),
        0 <= i < bindings.len() && bindings[i].path == path && (forall|j: int|
            i < j < bindings.len() ==> (#[trigger] bindings[j]).path != path) ==> binding_of(
            bindings,
            path,
        ) == Some(bindings[i]),
{
    lemma_last_binding(bindings, path, bindings.len());
    if 0 <= i < bindings.len() && bindings[i].path == path && (forall|j: int|
        i < j < bindings.len() ==> (#[trigger] bindings[j]).path != path) {
        let b = binding_of(bindings, path)->0;
        let k = choose|k: int|
            0 <= k < bindings.len() && #[trigger] bindings[k] == b && forall|j: int|
                k < j < bindings.len() ==> (#[trigger] bindings[j]).path != path;
        assert(bindings[k].path == path);
        assert(k == i);
    }
}

proof fn lemma_innermost_is_longest<N>(
    bindings: Seq<BindingView<N>>,
    name: Path,
    scope: Path,
    prefix: int,
    k: int,
)
    requires
        0 <= k <= prefix <= scope.len(),
        is_bound(bindings, scope.take(k) + name),
        forall|l: int| k < l <= prefix ==> !is_bound(bindings, #[trigger] scope.take(l) + name),
    ensures
        innermost(bindings, name, scope, prefix) == Some(scope.take(k) + name),
    decreases prefix,
{
    law_the_last_binding_counts(bindings, scope.take(prefix) + name, 0);
    if k < prefix {
        assert(!is_bound(bindings, scope.take(prefix) + name));
        lemma_innermost_is_longest(bindings, name, scope, prefix - 1, k);
    }
}

/// A name means the path that is bound in the innermost module around the place
/// where it stands: of the modules around it, the one with the longest path in which
/// it is bound.
pub proof fn law_the_innermost_name_is_meant<N>(
    bindings: Seq<BindingView<N>>,
    name: Path,
    scope: Path,
    k: int,
)
    requires
        0 <= k <= scope.len(),
        is_bound(bindings, scope.take(k) + name),
        forall|l: int|
            k < l <= scope.len() ==> !is_bound(bindings, #[trigger] scope.take(l) + name),
    ensures
        looked_up(bindings, name, scope) == Some(scope.take(k) + name),
{
    lemma_innermost_is_longest(bindings, name, scope, scope.len() as int, k);
}

proof fn lemma_innermost_is_nothing<N>(
    bindings: Seq<BindingView<N>>,
    name: Path,
    scope: Path,
    prefix: int,
)
    requires
        prefix <= scope.len(),
        forall|l: int| 0 <= l <= prefix ==> !is_bound(bindings, #[trigger] scope.take(l) + name),
    ensures
        innermost(bindings, name, scope, prefix) is None,
    decreases prefix + 1,
{
    if prefix >= 0 {
        law_the_last_binding_counts(bindings, scope.take(prefix) + name, 0);
        assert(!is_bound(bindings, scope.take(prefix) + name));
        lemma_innermost_is_nothing(bindings, name, scope, prefix - 1);
    }
}

proof fn lemma_first_suffix<N>(bindings: Seq<BindingView<N>>, name: Path, from: int)
    requires
        0 <= from,
    ensures
        match first_suffix_match(bindings, name, from) {
            Some(path) => exists|i: int|
                from <= i < bindings.len() && (#[trigger] bindings[i]).path == path
                    && is_path_suffix(path, name),
            None => forall|i: int|
                from <= i < bindings.len() ==> !is_path_suffix((#[trigger] bindings[i]).path, name),
        },
    decreases bindings.len() - from,
{
    if from < bindings.len() {
        lemma_first_suffix(bindings, name, from + 1);
        if is_path_suffix(bindings[from].path, name) {
            assert(bindings[from].path == first_suffix_match(bindings, name, from)->0);
        }
    }
}

/// A name that is bound in no module around the place where it stands means the path
/// anywhere that is some modules and then the name, where there is one and no other;
/// where there is none, or where there are two, it means nothing.
pub proof fn law_other_names_are_meant_where_unambiguous<N>(
    bindings: Seq<BindingView<N>>,
    name: Path,
    scope: Path,
    modules: Path,
    others: Path,
)
    requires
        forall|l: int|
            0 <= l <= scope.len() ==> !is_bound(bindings, #[trigger] scope.take(l) + name),
    ensures
        looked_up(bindings, name, scope) matches Some(path) ==> is_bound(bindings, path) && exists|
            before: Path,
        | path == #[trigger] (before + name),
        is_bound(bindings, modules + name) && is_bound(bindings, others + name) && modules
            != others ==> looked_up(bindings, name, scope) is None,
        is_bound(bindings, modules + name) && (forall|i: int, before: Path|
            0 <= i < bindings.len() && (#[trigger] bindings[i]).path == #[trigger] (before + name)
                ==> before == modules) ==> looked_up(bindings, name, scope) == Some(
            modules + name,
        ),
{
    lemma_innermost_is_nothing(bindings, name, scope, scope.len() as int);
    lemma_first_suffix(bindings, name, 0);
    if let Some(path) = looked_up(bindings, name, scope) {
        let before = path.take(path.len() - name.len());
        assert(path =~= before + name);
    }
    if is_bound(bindings, modules + name) {
        let i = choose|i: int|
            0 <= i < bindings.len() && (#[trigger] bindings[i]).path == modules + name;
        assert((modules + name).skip(modules.len() as int) =~= name);
        assert(is_path_suffix(bindings[i].path, name));
        if is_bound(bindings, others + name) && modules != others {
            let j = choose|j: int|
                0 <= j < bindings.len() && (#[trigger] bindings[j]).path == others + name;
            assert((others + name).skip(others.len() as int) =~= name);
            assert(is_path_suffix(bindings[j].path, name));
            if modules + name == others + name {
                assert(modules =~= (modules + name).take(modules.len() as int));
                assert(others =~= (others + name).take(others.len() as int));
            }
        }
        if forall|i: int, before: Path|
            0 <= i < bindings.len() && (#[trigger] bindings[i]).path == #[trigger] (before + name)
                ==> before == modules {
            assert forall|k: int|
                0 <= k < bindings.len() && is_path_suffix(
                    (#[trigger] bindings[k]).path,
                    name,
                ) implies bindings[k].path == modules + name by {
                let path = bindings[k].path;
                let before = path.take(path.len() - name.len());
                assert(path =~= before + name);
            }
        }
    }
}

/// A name that stands for an alias means what the alias means where it was defined.
pub proof fn law_an_alias_means_what_it_stands_for(
    tables: TablesView,
    name: Path,
    scope: Path,
)
    requires
        name.len() != 1 || builtin_type(tables.builtins, name[0]) is None,
        looked_up(tables.typedefs, name, scope) is Some,
    ensures
        ({
            let alias = binding_of(
                tables.typedefs,
                looked_up(tables.typedefs, name, scope).unwrap(),
            ).unwrap();
            resolved(tables, TypeView::ScopedName(name), scope) == resolved(
                tables,
                alias.node,
                alias.scope,
            )
        }),
{
    let ty = TypeView::ScopedName(name);
    lemma_looked_up_is_bound(tables.typedefs, name, scope);
    let alias = binding_of(
        tables.typedefs,
        looked_up(tables.typedefs, name, scope).unwrap(),
    ).unwrap();
    let more = tables.typedefs.len() + 1;
    law_unresolved_aliases_never_end(tables, ty, scope, more);
    assert(resolved_within(tables, ty, scope, more) == resolved_within(
        tables,
        alias.node,
        alias.scope,
        (more - 1) as nat,
    ));
}

/// A built-in name goes before every definition; a name that no alias has means a
/// structure, else an enumeration, by its full path; and a name that nothing has stays
/// as it is.
pub proof fn law_other_names_mean_definitions(tables: TablesView, name: Path, scope: Path)
    ensures
        ({
            let ty = TypeView::ScopedName(name);
            let builtin = if name.len() == 1 {
                builtin_type(tables.builtins, name[0])
            } else {
                None
            };
            let alias = looked_up(tables.typedefs, name, scope);
            let structure = looked_up(tables.structs, name, scope);
            let enumeration = looked_up(tables.enums, name, scope);
            let r = resolved(tables, ty, scope);
            &&& builtin is Some ==> r == builtin
            &&& builtin is None && alias is None ==> {
                &&& structure is Some ==> r == Some(TypeView::ScopedName(structure.unwrap()))
                &&& structure is None && enumeration is Some ==> r == Some(
                    TypeView::ScopedName(enumeration.unwrap()),
                )
                &&& structure is None && enumeration is None ==> r == Some(ty)
            }
        }),
{
}

proof fn lemma_nested_from_outside(element: TypeView, dimensions: Seq<u32>, n: nat)
    requires
        0 < n <= dimensions.len(),
    ensures
        nested_sequences(element, dimensions, n) == (TypeView::Sequence {
            element_type: Box::new(
                nested_sequences(element, dimensions.drop_first(), (n - 1) as nat),
            ),
            size: Some(dimensions[0]),
        }),
    decreases n,
{
    if n > 1 {
        let inner = TypeView::Sequence {
            element_type: Box::new(element),
            size: Some(dimensions[n - 1]),
        };
        lemma_nested_from_outside(inner, dimensions, (n - 1) as nat);
        assert(dimensions.drop_first()[n - 2] == dimensions[n - 1]);
    } else {
        reveal_with_fuel(nested_sequences, 2);
    }
}

/// An array is a sequence, as long as its first dimension says, of arrays with the
/// other dimensions; one without dimensions is its element. Sequences are resolved by
/// resolving their elements.
pub proof fn law_arrays_are_sequences(
    tables: TablesView,
    element: TypeView,
    dimensions: Seq<u32>,
    size: Option<u32>,
    scope: Path,
)
    ensures
        dimensions.len() == 0 ==> resolved(
            tables,
            TypeView::Array { element_type: Box::new(element), dimensions },
            scope,
        ) == resolved(tables, element, scope),
        dimensions.len() > 0 ==> resolved(
            tables,
            TypeView::Array { element_type: Box::new(element), dimensions },
            scope,
        ) == resolved(
            tables,
            TypeView::Sequence {
                element_type: Box::new(
                    TypeView::Array {
                        element_type: Box::new(element),
                        dimensions: dimensions.drop_first(),
                    },
                ),
                size: Some(dimensions[0]),
            },
            scope,
        ),
        resolved(
            tables,
            TypeView::Sequence { element_type: Box::new(element), size },
            scope,
        ) == match resolved(tables, element, scope) {
            Some(inner) => Some(TypeView::Sequence { element_type: Box::new(inner), size }),
            None => None,
        },
{
    reveal_with_fuel(resolved_within, 3);
    if dimensions.len() > 0 {
        if let Some(inner) = resolved(tables, element, scope) {
            lemma_nested_from_outside(inner, dimensions, dimensions.len());
        }
    }
}

/// An enumeration is stored as what it names is stored, and as an `unsigned long` where
/// it names nothing; anything else is stored as it is.
pub proof fn law_enumerations_are_stored_as_they_say(enums: Enums, path: Path, ty: TypeView)
    ensures
        match binding_of(enums, path) {
            Some(e) => storage(enums, TypeView::ScopedName(path)) == match e.node.base_type {
                Some(base) => storage(enums, base),
                None => Some(TypeView::UnsignedLong),
            },
            None => storage(enums, TypeView::ScopedName(path)) == Some(
                TypeView::ScopedName(path),
            ),
        },
        !(ty is ScopedName) ==> storage(enums, ty) == Some(ty),
{
    if let Some(e) = binding_of(enums, path) {
        let more = enums.len() + 1;
        law_unstored_enums_never_end(enums, TypeView::ScopedName(path), more);
        assert(storage_within(enums, TypeView::ScopedName(path), more) == storage_within(
            enums,
            declared_storage(e.node),
            (more - 1) as nat,
        ));
    }
}

} // verus!
