//! A tiny `chat` project (protocol `Chat`, `send(text) -> Message`), the one
//! that a [`Pump`](crate::pump::Pump) starts on and that examples are wired up
//! with.

use vstd::prelude::*;
use crate::dict::views;
use crate::shape::{
    ArgShape, ArgView, FieldShape, FieldView, FnShape, FnView, Framing, ProjectShape, ProjectView, ProtocolShape,
    ProtocolView, SchemaShape, SchemaView, Ty, TypeDef, TypeDefView, TypeRef,
};

verus! {

/// The connection id that a session gives its first wire.
pub const CONN: &'static str = "c1";

/// `name(text: string) -> Message`, or with no return where it is one-way.
pub open spec fn fn_view(name: Seq<char>, index: u32, oneway: bool) -> FnView {
    FnView {
        name,
        index,
        oneway,
        args: seq![ArgView { name: "text"@, ty: Ty::Prim("string"@) }],
        returns: if oneway {
            None
        } else {
            Some(Ty::Ref("Message"@))
        },
        throws: Seq::empty(),
    }
}

/// `struct Message { body: string, seq: u64 }`.
pub open spec fn message_view() -> TypeDefView {
    TypeDefView::Struct {
        name: "Message"@,
        fields: seq![
            FieldView { name: "body"@, ty: Ty::Prim("string"@), optional: false },
            FieldView { name: "seq"@, ty: Ty::Prim("u64"@), optional: false },
        ],
    }
}

/// The protocol `Chat` (datagram) with the given functions.
pub open spec fn proto_view(functions: Seq<FnView>) -> ProtocolView {
    ProtocolView { name: "Chat"@, framing: Framing::Datagram, functions }
}

/// The schema `chat` with the given functions and hash.
pub open spec fn schema_view(functions: Seq<FnView>, ir_hash: Seq<char>) -> SchemaView {
    SchemaView {
        namespace: "chat"@,
        ir_hash,
        protocols: seq![proto_view(functions)],
        errors: Seq::empty(),
        types: seq![message_view()],
    }
}

/// The functions of the canonical project: just `send(text) -> Message`.
pub open spec fn chat_functions() -> Seq<FnView> {
    seq![fn_view("send"@, 0, false)]
}

/// The canonical schema.
pub open spec fn chat_schema() -> SchemaView {
    schema_view(chat_functions(), "0x9f2b1c7d4e6a8035"@)
}

/// `name(text: string) -> Message`, or (one-way) `name(text: string)`.
pub fn fn_shape(name: &str, index: u32, oneway: bool) -> (r: FnShape)
    ensures
        r@ == fn_view(name@, index, oneway),
{
    let mut args: Vec<ArgShape> = Vec::new();
    args.push(ArgShape { name: "text".to_owned(), ty: TypeRef::Prim { name: "string".to_owned() } });
    let answer = if oneway {
        None
    } else {
        Some(TypeRef::Ref { name: "Message".to_owned() })
    };
    let r = FnShape { name: name.to_owned(), index, oneway, args, returns: answer, throws: Vec::new() };
    assert(r@.args =~= fn_view(name@, index, oneway).args);
    assert(r@.throws =~= Seq::empty());
    r
}

/// `struct Message { body: string, seq: u64 }`.
pub fn message_type() -> (r: TypeDef)
    ensures
        r@ == message_view(),
{
    let mut fields: Vec<FieldShape> = Vec::new();
    fields.push(
        FieldShape { name: "body".to_owned(), ty: TypeRef::Prim { name: "string".to_owned() }, optional: false },
    );
    fields.push(
        FieldShape { name: "seq".to_owned(), ty: TypeRef::Prim { name: "u64".to_owned() }, optional: false },
    );
    let r = TypeDef::Struct { name: "Message".to_owned(), fields };
    assert(r@->fields =~= message_view()->fields);
    r
}

/// A `chat` project: protocol `Chat` (datagram) with the given functions, the
/// `Message` type, and a given IR hash.
pub fn shape_with(functions: Vec<FnShape>, ir_hash: &str) -> (r: ProjectShape)
    ensures
        r@ == (ProjectView { schemas: seq![schema_view(views(functions@), ir_hash@)] }),
{
    let ghost held = views(functions@);
    let mut protocols: Vec<ProtocolShape> = Vec::new();
    protocols.push(ProtocolShape { name: "Chat".to_owned(), framing: Framing::Datagram, functions });
    let mut types: Vec<TypeDef> = Vec::new();
    types.push(message_type());
    let schema = SchemaShape {
        namespace: "chat".to_owned(),
        ir_hash: ir_hash.to_owned(),
        protocols,
        errors: Vec::new(),
        types,
    };
    assert(schema@.protocols =~= seq![proto_view(held)]);
    assert(schema@.errors =~= Seq::empty());
    assert(schema@.types =~= seq![message_view()]);
    let mut schemas: Vec<SchemaShape> = Vec::new();
    schemas.push(schema);
    let r = ProjectShape { schemas };
    assert(r@.schemas =~= seq![schema_view(held, ir_hash@)]);
    r
}

/// The canonical project: just `send(text) -> Message`, under a fixed hash of
/// sixteen hex digits.
pub fn shape() -> (r: ProjectShape)
    ensures
        r@ == (ProjectView { schemas: seq![chat_schema()] }),
{
    let mut functions: Vec<FnShape> = Vec::new();
    functions.push(fn_shape("send", 0, false));
    assert(views(functions@) =~= chat_functions());
    shape_with(functions, "0x9f2b1c7d4e6a8035")
}

/// The one schema of [`shape`].
pub fn schema() -> (r: SchemaShape)
    ensures
        r@ == chat_schema(),
{
    let mut shape = shape();
    assert(views(shape.schemas@).len() == 1);
    assert(views(shape.schemas@)[0] == chat_schema());
    shape.schemas.remove(0)
}

/// The one protocol of [`schema`].
pub fn proto() -> (r: ProtocolShape)
    ensures
        r@ == proto_view(chat_functions()),
{
    let mut schema = schema();
    assert(views(schema.protocols@).len() == 1);
    assert(views(schema.protocols@)[0] == proto_view(chat_functions()));
    schema.protocols.remove(0)
}

} // verus!
