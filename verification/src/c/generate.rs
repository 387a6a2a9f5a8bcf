//! From definitions to the emitted files.
use vstd::prelude::*;
use crate::ast::{definitions_view, Definition, DefinitionView, TypeView};
use crate::c::context::{
    collected, law_collecting_failures, nothing_collected, Context, ContextView,
};
use crate::c::model::{
    ElementView, Failure, FailureView, FieldKindView, FieldView, StructFieldView,
};
use crate::c::builder::is_model_failure;
use crate::c::render::{header_text, render_header, render_source, source_text};
use crate::c::tables::storage;
use crate::c::types::{
    field_has_scalars, message_has_scalars, messages_have_scalars, scalars_known,
    sub_fields_have_scalars,
};
use crate::common::builtins::{integer_builtins, integer_names, Builtin, BuiltinView};
use crate::common::errors::{CodegenError, GeneratedFile, GeneratedFileView};
use crate::concat::views;
use crate::text::owned;

verus! {

broadcast use crate::concat::group_views;

/// Where the header goes.
pub const HEADER_PATH: &'static str = "inc/blueberry_devices.h";

/// Where the source goes.
pub const SOURCE_PATH: &'static str = "src/blueberry_devices.c";

/// The two files of a context.
pub open spec fn files_of(c: ContextView) -> Seq<GeneratedFileView> {
    seq![
        GeneratedFileView { path: HEADER_PATH@, contents: header_text(c) },
        GeneratedFileView { path: SOURCE_PATH@, contents: source_text(c) },
    ]
}

/// The files for a list of definitions, or why there are none.
pub open spec fn generated(defs: Seq<DefinitionView>, builtins: Seq<BuiltinView>) -> Result<
    Seq<GeneratedFileView>,
    FailureView,
> {
    match collected(nothing_collected(builtins), defs, Seq::empty(), None) {
        Err(e) => Err(e),
        Ok(c) => if messages_have_scalars(c.tables.enums, c.messages) {
            Ok(files_of(c))
        } else {
            Err(FailureView::NoLayout)
        },
    }
}

/// Generates the two files, or says why there are none. A name of one segment
/// that is among `builtins` stands for the type there.
pub fn try_generate(definitions: &[Definition], builtins: &Vec<Builtin>) -> (r: Result<
    Vec<GeneratedFile>,
    Failure,
>)
    ensures
        match r {
            Ok(files) => generated(definitions_view(definitions@), views(builtins@)) == Ok::<
                Seq<GeneratedFileView>,
                FailureView,
            >(views(files@)),
            Err(e) => generated(definitions_view(definitions@), views(builtins@)) == Err::<
                Seq<GeneratedFileView>,
                FailureView,
            >(e@),
        },
{
    let mut c = Context::new(builtins);
    let scope: Vec<String> = Vec::new();
    match c.collect(definitions, &scope, None) {
        Ok(_) => {},
        Err(e) => {
            return Err(e);
        },
    }
    if !scalars_known(&c.tables, &c.messages) {
        return Err(Failure::NoLayout);
    }
    let header = render_header(&c);
    let source = render_source(&c);
    let mut files: Vec<GeneratedFile> = Vec::new();
    files.push(GeneratedFile { path: owned(HEADER_PATH), contents: header });
    files.push(GeneratedFile { path: owned(SOURCE_PATH), contents: source });
    assert(views(files@) =~= files_of(c@));
    Ok(files)
}

/// Generates the two files with the names of the integer types built in, of
/// definitions that have a layout: no alias and no enumeration leads back to
/// itself, and every layout fits in 32 bits.
pub fn generate(definitions: &[Definition]) -> (r: Result<Vec<GeneratedFile>, CodegenError>)
    requires
        generated(definitions_view(definitions@), integer_builtins()) != Err::<
            Seq<GeneratedFileView>,
            FailureView,
        >(FailureView::NoLayout),
    ensures
        match r {
            Ok(files) => generated(definitions_view(definitions@), integer_builtins()) == Ok::<
                Seq<GeneratedFileView>,
                FailureView,
            >(views(files@)),
            Err(e) => generated(definitions_view(definitions@), integer_builtins()) == Err::<
                Seq<GeneratedFileView>,
                FailureView,
            >(FailureView::Codegen(e@)),
        },
{
    let builtins = integer_names();
    match try_generate(definitions, &builtins) {
        Ok(files) => Ok(files),
        Err(Failure::Codegen(e)) => Err(e),
        Err(Failure::NoLayout) => {
            assert(false);
            Ok(Vec::new())
        },
    }
}

/// Generating gives the header and the source, each at its place; it fails only
/// for want of a topic, a supported type or a layout.
pub proof fn law_generates_header_and_source(
    defs: Seq<DefinitionView>,
    builtins: Seq<BuiltinView>,
)
    ensures
        match generated(defs, builtins) {
            Ok(files) => files.len() == 2 && files[0].path == HEADER_PATH@ && files[1].path
                == SOURCE_PATH@,
            Err(e) => is_model_failure(e),
        },
{
    law_collecting_failures(nothing_collected(builtins), defs, Seq::empty(), None);
}

/// The types of the values in a field: its own, that of its elements, or those of their members.
pub open spec fn value_types(f: FieldView) -> Seq<TypeView> {
    match f.kind {
        FieldKindView::Scalar(ty) => seq![ty],
        FieldKindView::Sequence(ElementView::Primitive(ty)) => seq![ty],
        FieldKindView::Sequence(ElementView::Struct(s)) => s.fields.map_values(
            |sub: StructFieldView| sub.ty,
        ),
    }
}

/// Whether it is known how every value in every message is stored.
pub open spec fn every_value_is_stored(c: ContextView) -> bool {
    forall|i: int, j: int, k: int|
        0 <= i < c.messages.len() && 0 <= j < c.messages[i].fields.len() && 0 <= k < value_types(
            c.messages[i].fields[j],
        ).len() ==> storage(c.tables.enums, #[trigger] value_types(c.messages[i].fields[j])[k]) is Some
}

proof fn lemma_stored_values(c: ContextView)
    ensures
        messages_have_scalars(c.tables.enums, c.messages) <==> every_value_is_stored(c),
{
    let enums = c.tables.enums;
    if messages_have_scalars(enums, c.messages) {
        assert forall|i: int, j: int, k: int|
            0 <= i < c.messages.len() && 0 <= j < c.messages[i].fields.len() && 0 <= k
                < value_types(c.messages[i].fields[j]).len() implies storage(
            enums,
            #[trigger] value_types(c.messages[i].fields[j])[k],
        ) is Some by {
            assert(message_has_scalars(enums, c.messages[i]));
            let f = c.messages[i].fields[j];
            assert(field_has_scalars(enums, f));
            if let FieldKindView::Sequence(ElementView::Struct(s)) = f.kind {
                assert(value_types(f)[k] == s.fields[k].ty);
            }
        }
    }
    if every_value_is_stored(c) {
        assert forall|i: int| 0 <= i < c.messages.len() implies message_has_scalars(
            enums,
            #[trigger] c.messages[i],
        ) by {
            assert forall|j: int| 0 <= j < c.messages[i].fields.len() implies field_has_scalars(
                enums,
                #[trigger] c.messages[i].fields[j],
            ) by {
                let f = c.messages[i].fields[j];
                match f.kind {
                    FieldKindView::Sequence(ElementView::Struct(s)) => {
                        assert forall|k: int| 0 <= k < s.fields.len() implies storage(
                            enums,
                            (#[trigger] s.fields[k]).ty,
                        ) is Some by {
                            assert(value_types(c.messages[i].fields[j])[k] == s.fields[k].ty);
                        }
                        assert(sub_fields_have_scalars(enums, s.fields));
                    },
                    FieldKindView::Scalar(ty) => {
                        assert(value_types(c.messages[i].fields[j])[0] == ty);
                    },
                    FieldKindView::Sequence(ElementView::Primitive(ty)) => {
                        assert(value_types(c.messages[i].fields[j])[0] == ty);
                    },
                }
            }
        }
    }
}

/// Files are generated exactly where the definitions can be collected and it is known how each of
/// their values is stored. They are then the header and the source of what was collected; a
/// failure to collect is passed on as it is.
pub proof fn law_files_are_generated_where_values_are_stored(
    defs: Seq<DefinitionView>,
    builtins: Seq<BuiltinView>,
)
    ensures
        match collected(nothing_collected(builtins), defs, Seq::empty(), None) {
            Err(e) => generated(defs, builtins) == Err::<Seq<GeneratedFileView>, FailureView>(e),
            Ok(c) => match generated(defs, builtins) {
                Err(e) => !every_value_is_stored(c) && e is NoLayout,
                Ok(files) => {
                    &&& every_value_is_stored(c)
                    &&& files.len() == 2
                    &&& files[0].path == "inc/blueberry_devices.h"@
                    &&& files[0].contents == header_text(c)
                    &&& files[1].path == "src/blueberry_devices.c"@
                    &&& files[1].contents == source_text(c)
                },
            },
        },
{
    if let Ok(c) = collected(nothing_collected(builtins), defs, Seq::empty(), None) {
        lemma_stored_values(c);
    }
}

} // verus!
