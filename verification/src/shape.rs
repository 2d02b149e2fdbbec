//! The shape of a compiled project as the simulator sees it: a mirror of what
//! the playground editor's `describe_project` emits. Everything here is derived
//! from the frozen IR by that function; the simulator only *reads* this
//! projection, it never compiles anything itself.

use serde_json::Value;
use vstd::prelude::*;
use crate::dict::{contains_text, copied_all, find_first, first_where, lemma_first, lemma_found, lemma_none, views, Copied};
use crate::json;
use crate::json::{content, members_of, Json};
use crate::text::same_text;

verus! {

// ── the types ───────────────────────────────────────────────────────────

#[derive(Debug, PartialEq)]
pub struct ProjectShape {
    pub schemas: Vec<SchemaShape>,
}

#[derive(Debug, PartialEq)]
pub struct SchemaShape {
    /// `::`-joined, e.g. `chat` or `wire::frame`.
    pub namespace: String,
    /// `0x`-prefixed 16 hex digits: the value the generators emit as `IR_HASH`,
    /// so a sim connection's handshake mirrors a real one.
    pub ir_hash: String,
    pub protocols: Vec<ProtocolShape>,
    pub errors: Vec<ErrorShape>,
    /// Every struct / enum in the schema, for the call form's nested inputs.
    pub types: Vec<TypeDef>,
}

/// How a protocol frames its calls on the wire.
#[derive(Clone, Copy, Debug, PartialEq, Eq, Structural)]
pub enum Framing {
    Datagram,
    Jsonrpc,
}

#[derive(Debug, PartialEq)]
pub struct ProtocolShape {
    pub name: String,
    pub framing: Framing,
    pub functions: Vec<FnShape>,
}

#[derive(Debug, PartialEq)]
pub struct FnShape {
    pub name: String,
    /// 0-based position in the protocol: the id that call resolution matches.
    pub index: u32,
    /// No return at all: a fire-and-forget `notify`.
    pub oneway: bool,
    pub args: Vec<ArgShape>,
    pub returns: Option<TypeRef>,
    pub throws: Vec<ThrowShape>,
}

#[derive(Debug, PartialEq)]
pub struct ArgShape {
    pub name: String,
    pub ty: TypeRef,
}

#[derive(Debug, PartialEq)]
pub struct ThrowShape {
    pub ordinal: u16,
    /// The error's name, or `"<unresolved>"` for a bare `throws` slot.
    pub name: String,
}

#[derive(Debug, PartialEq)]
pub struct ErrorShape {
    pub ordinal: u16,
    pub name: String,
    pub message: String,
    pub fields: Vec<FieldShape>,
}

#[derive(Debug, PartialEq)]
pub struct FieldShape {
    pub name: String,
    pub ty: TypeRef,
    pub optional: bool,
}

#[derive(Debug, PartialEq)]
pub enum TypeDef {
    Struct { name: String, fields: Vec<FieldShape> },
    Enum { name: String, variants: Vec<String> },
}

#[derive(Debug, PartialEq)]
#[allow(inconsistent_fields)]
pub enum TypeRef {
    Prim { name: String },
    Ref { name: String },
    Array { of: Box<TypeRef> },
    Unit,
    Union { of: Vec<TypeRef> },
}

// ── what they hold ──────────────────────────────────────────────────────

/// What a [`TypeRef`] holds.
#[verifier::ext_equal]
pub ghost enum Ty {
    Prim(Seq<char>),
    Ref(Seq<char>),
    Array(Box<Ty>),
    Unit,
    Union(Seq<Ty>),
}

#[verifier::ext_equal]
pub ghost struct FieldView {
    pub name: Seq<char>,
    pub ty: Ty,
    pub optional: bool,
}

#[verifier::ext_equal]
pub ghost enum TypeDefView {
    Struct { name: Seq<char>, fields: Seq<FieldView> },
    Enum { name: Seq<char>, variants: Seq<Seq<char>> },
}

#[verifier::ext_equal]
pub ghost struct ArgView {
    pub name: Seq<char>,
    pub ty: Ty,
}

#[verifier::ext_equal]
pub ghost struct ThrowView {
    pub ordinal: u16,
    pub name: Seq<char>,
}

#[verifier::ext_equal]
pub ghost struct ErrorView {
    pub ordinal: u16,
    pub name: Seq<char>,
    pub message: Seq<char>,
    pub fields: Seq<FieldView>,
}

#[verifier::ext_equal]
pub ghost struct FnView {
    pub name: Seq<char>,
    pub index: u32,
    pub oneway: bool,
    pub args: Seq<ArgView>,
    pub returns: Option<Ty>,
    pub throws: Seq<ThrowView>,
}

#[verifier::ext_equal]
pub ghost struct ProtocolView {
    pub name: Seq<char>,
    pub framing: Framing,
    pub functions: Seq<FnView>,
}

#[verifier::ext_equal]
pub ghost struct SchemaView {
    pub namespace: Seq<char>,
    pub ir_hash: Seq<char>,
    pub protocols: Seq<ProtocolView>,
    pub errors: Seq<ErrorView>,
    pub types: Seq<TypeDefView>,
}

#[verifier::ext_equal]
pub ghost struct ProjectView {
    pub schemas: Seq<SchemaView>,
}

/// What a [`TypeRef`] holds.
pub open spec fn ty_of(t: TypeRef) -> Ty
    decreases t,
{
    match t {
        TypeRef::Prim { name } => Ty::Prim(name@),
        TypeRef::Ref { name } => Ty::Ref(name@),
        TypeRef::Array { of } => Ty::Array(Box::new(ty_of(*of))),
        TypeRef::Unit => Ty::Unit,
        TypeRef::Union { of } => Ty::Union(
            Seq::new(
                of@.len(),
                |i: int|
                    if 0 <= i < of@.len() {
                        ty_of(of@[i])
                    } else {
                        Ty::Unit
                    },
            ),
        ),
    }
}

impl View for TypeRef {
    type V = Ty;

    open spec fn view(&self) -> Ty {
        ty_of(*self)
    }
}

impl View for FieldShape {
    type V = FieldView;

    open spec fn view(&self) -> FieldView {
        FieldView { name: self.name@, ty: self.ty@, optional: self.optional }
    }
}

impl View for TypeDef {
    type V = TypeDefView;

    open spec fn view(&self) -> TypeDefView {
        match self {
            TypeDef::Struct { name, fields } => TypeDefView::Struct { name: name@, fields: views(fields@) },
            TypeDef::Enum { name, variants } => TypeDefView::Enum { name: name@, variants: views(variants@) },
        }
    }
}

impl TypeDefView {
    pub open spec fn name(self) -> Seq<char> {
        match self {
            TypeDefView::Struct { name, .. } => name,
            TypeDefView::Enum { name, .. } => name,
        }
    }
}

impl View for ArgShape {
    type V = ArgView;

    open spec fn view(&self) -> ArgView {
        ArgView { name: self.name@, ty: self.ty@ }
    }
}

impl View for ThrowShape {
    type V = ThrowView;

    open spec fn view(&self) -> ThrowView {
        ThrowView { ordinal: self.ordinal, name: self.name@ }
    }
}

impl View for ErrorShape {
    type V = ErrorView;

    open spec fn view(&self) -> ErrorView {
        ErrorView {
            ordinal: self.ordinal,
            name: self.name@,
            message: self.message@,
            fields: views(self.fields@),
        }
    }
}

impl View for FnShape {
    type V = FnView;

    open spec fn view(&self) -> FnView {
        FnView {
            name: self.name@,
            index: self.index,
            oneway: self.oneway,
            args: views(self.args@),
            returns: match self.returns {
                Some(t) => Some(t@),
                None => None,
            },
            throws: views(self.throws@),
        }
    }
}

impl View for ProtocolShape {
    type V = ProtocolView;

    open spec fn view(&self) -> ProtocolView {
        ProtocolView { name: self.name@, framing: self.framing, functions: views(self.functions@) }
    }
}

impl View for SchemaShape {
    type V = SchemaView;

    open spec fn view(&self) -> SchemaView {
        SchemaView {
            namespace: self.namespace@,
            ir_hash: self.ir_hash@,
            protocols: views(self.protocols@),
            errors: views(self.errors@),
            types: views(self.types@),
        }
    }
}

impl View for ProjectShape {
    type V = ProjectView;

    open spec fn view(&self) -> ProjectView {
        ProjectView { schemas: views(self.schemas@) }
    }
}

// ── copies ──────────────────────────────────────────────────────────────

impl Copied for TypeRef {
    fn copied(&self) -> (r: Self)
        decreases self,
    {
        match self {
            TypeRef::Prim { name } => TypeRef::Prim { name: name.clone() },
            TypeRef::Ref { name } => TypeRef::Ref { name: name.clone() },
            TypeRef::Array { of } => TypeRef::Array { of: Box::new((&**of).copied()) },
            TypeRef::Unit => TypeRef::Unit,
            TypeRef::Union { of } => {
                let mut out: Vec<TypeRef> = Vec::new();
                let mut i: usize = 0;
                while i < of.len()
                    invariant
                        i <= of@.len(),
                        out@.len() == i,
                        self matches TypeRef::Union { of: all } && all == of,
                        forall|k: int| 0 <= k < i ==> (#[trigger] out@[k])@ == of@[k]@,
                    decreases of@.len() - i,
                {
                    out.push(of[i].copied());
                    i = i + 1;
                }
                let r = TypeRef::Union { of: out };
                assert(ty_of(r)->Union_0 =~= ty_of(*self)->Union_0);
                r
            },
        }
    }
}

impl Copied for FieldShape {
    fn copied(&self) -> (r: Self) {
        FieldShape { name: self.name.clone(), ty: self.ty.copied(), optional: self.optional }
    }
}

impl Copied for TypeDef {
    fn copied(&self) -> (r: Self) {
        match self {
            TypeDef::Struct { name, fields } => TypeDef::Struct { name: name.clone(), fields: copied_all(fields) },
            TypeDef::Enum { name, variants } => TypeDef::Enum { name: name.clone(), variants: copied_all(variants) },
        }
    }
}

impl Copied for ArgShape {
    fn copied(&self) -> (r: Self) {
        ArgShape { name: self.name.clone(), ty: self.ty.copied() }
    }
}

impl Copied for ThrowShape {
    fn copied(&self) -> (r: Self) {
        ThrowShape { ordinal: self.ordinal, name: self.name.clone() }
    }
}

impl Copied for ErrorShape {
    fn copied(&self) -> (r: Self) {
        ErrorShape {
            ordinal: self.ordinal,
            name: self.name.clone(),
            message: self.message.clone(),
            fields: copied_all(&self.fields),
        }
    }
}

impl Copied for FnShape {
    fn copied(&self) -> (r: Self) {
        FnShape {
            name: self.name.clone(),
            index: self.index,
            oneway: self.oneway,
            args: copied_all(&self.args),
            returns: match &self.returns {
                Some(t) => Some(t.copied()),
                None => None,
            },
            throws: copied_all(&self.throws),
        }
    }
}

impl Copied for ProtocolShape {
    fn copied(&self) -> (r: Self) {
        ProtocolShape { name: self.name.clone(), framing: self.framing, functions: copied_all(&self.functions) }
    }
}

impl Copied for SchemaShape {
    fn copied(&self) -> (r: Self) {
        SchemaShape {
            namespace: self.namespace.clone(),
            ir_hash: self.ir_hash.clone(),
            protocols: copied_all(&self.protocols),
            errors: copied_all(&self.errors),
            types: copied_all(&self.types),
        }
    }
}

impl Copied for ProjectShape {
    fn copied(&self) -> (r: Self) {
        ProjectShape { schemas: copied_all(&self.schemas) }
    }
}

impl Default for ProjectShape {
    fn default() -> (r: Self)
        ensures
            r@ == (ProjectView { schemas: Seq::empty() }),
    {
        let r = ProjectShape { schemas: Vec::new() };
        assert(r@.schemas =~= Seq::empty());
        r
    }
}

impl Clone for ProjectShape {
    fn clone(&self) -> (r: Self)
        ensures
            r@ == self@,
    {
        self.copied()
    }
}

impl Clone for SchemaShape {
    fn clone(&self) -> (r: Self)
        ensures
            r@ == self@,
    {
        self.copied()
    }
}

impl Clone for ProtocolShape {
    fn clone(&self) -> (r: Self)
        ensures
            r@ == self@,
    {
        self.copied()
    }
}

impl Clone for FnShape {
    fn clone(&self) -> (r: Self)
        ensures
            r@ == self@,
    {
        self.copied()
    }
}

impl Clone for ArgShape {
    fn clone(&self) -> (r: Self)
        ensures
            r@ == self@,
    {
        self.copied()
    }
}

impl Clone for ThrowShape {
    fn clone(&self) -> (r: Self)
        ensures
            r@ == self@,
    {
        self.copied()
    }
}

impl Clone for ErrorShape {
    fn clone(&self) -> (r: Self)
        ensures
            r@ == self@,
    {
        self.copied()
    }
}

impl Clone for FieldShape {
    fn clone(&self) -> (r: Self)
        ensures
            r@ == self@,
    {
        self.copied()
    }
}

impl Clone for TypeDef {
    fn clone(&self) -> (r: Self)
        ensures
            r@ == self@,
    {
        self.copied()
    }
}

impl Clone for TypeRef {
    fn clone(&self) -> (r: Self)
        ensures
            r@ == self@,
    {
        self.copied()
    }
}

// ── lookups ─────────────────────────────────────────────────────────────

impl ProjectView {
    /// The schema `ns`.
    pub open spec fn schema(self, ns: Seq<char>) -> Option<SchemaView> {
        first_where(self.schemas, |s: SchemaView| s.namespace == ns)
    }

    /// The protocol `name` in the schema `ns`, with its schema.
    pub open spec fn protocol(self, ns: Seq<char>, name: Seq<char>) -> Option<(SchemaView, ProtocolView)> {
        match self.schema(ns) {
            Some(schema) => match schema.protocol(name) {
                Some(proto) => Some((schema, proto)),
                None => None,
            },
            None => None,
        }
    }
}

impl SchemaView {
    pub open spec fn protocol(self, name: Seq<char>) -> Option<ProtocolView> {
        first_where(self.protocols, |p: ProtocolView| p.name == name)
    }
}

impl ProtocolView {
    pub open spec fn function(self, name: Seq<char>) -> Option<FnView> {
        first_where(self.functions, |f: FnView| f.name == name)
    }
}

impl TypeDef {
    pub fn name(&self) -> (r: &str)
        ensures
            r@ == self@.name(),
    {
        match self {
            TypeDef::Struct { name, .. } => name.as_str(),
            TypeDef::Enum { name, .. } => name.as_str(),
        }
    }
}

/// The protocol named `name` in schema `ns`, with its schema.
pub fn find_protocol<'a>(shape: &'a ProjectShape, ns: &str, name: &str) -> (r: Option<
    (&'a SchemaShape, &'a ProtocolShape),
>)
    ensures
        match r {
            Some((schema, proto)) => shape@.protocol(ns@, name@) == Some((schema@, proto@)),
            None => shape@.protocol(ns@, name@) is None,
        },
{
    let found = find_first(
        &shape.schemas,
        |s: &SchemaShape| -> (b: bool) ensures b == (s@.namespace == ns@) { same_text(s.namespace.as_str(), ns) },
        Ghost(|s: SchemaView| s.namespace == ns@),
    );
    match found {
        Some(i) => match shape.schemas[i].find(name) {
            Some(proto) => Some((&shape.schemas[i], proto)),
            None => None,
        },
        None => None,
    }
}

impl SchemaShape {
    /// The protocol named `name`.
    pub fn find(&self, name: &str) -> (r: Option<&ProtocolShape>)
        ensures
            match r {
                Some(proto) => self@.protocol(name@) == Some(proto@),
                None => self@.protocol(name@) is None,
            },
    {
        let found = find_first(
            &self.protocols,
            |p: &ProtocolShape| -> (b: bool) ensures b == (p@.name == name@) { same_text(p.name.as_str(), name) },
            Ghost(|p: ProtocolView| p.name == name@),
        );
        match found {
            Some(i) => Some(&self.protocols[i]),
            None => None,
        }
    }
}

impl ProtocolShape {
    /// The place of the function named `name`.
    pub fn position(&self, name: &str) -> (r: Option<usize>)
        ensures
            match r {
                Some(i) => i < self@.functions.len() && self@.function(name@) == Some(self@.functions[i as int]),
                None => self@.function(name@) is None,
            },
    {
        find_first(
            &self.functions,
            |f: &FnShape| -> (b: bool) ensures b == (f@.name == name@) { same_text(f.name.as_str(), name) },
            Ghost(|f: FnView| f.name == name@),
        )
    }

    /// The function named `name`.
    pub fn function(&self, name: &str) -> (r: Option<&FnShape>)
        ensures
            match r {
                Some(f) => self@.function(name@) == Some(f@),
                None => self@.function(name@) is None,
            },
    {
        match self.position(name) {
            Some(i) => Some(&self.functions[i]),
            None => None,
        }
    }
}

// ── what the searches find ──────────────────────────────────────────────

/// A project finds the first schema of a namespace, and none where there is none.
pub proof fn law_schemas_are_found_by_namespace(p: ProjectView, ns: Seq<char>, k: int)
    ensures
        0 <= k < p.schemas.len() && p.schemas[k].namespace == ns && (forall|j: int|
            0 <= j < k ==> (#[trigger] p.schemas[j]).namespace != ns) ==> p.schema(ns) == Some(p.schemas[k]),
        (forall|j: int| 0 <= j < p.schemas.len() ==> (#[trigger] p.schemas[j]).namespace != ns) ==> p.schema(
            ns,
        ) is None,
{
    let pred = |s: SchemaView| s.namespace == ns;
    if 0 <= k < p.schemas.len() && p.schemas[k].namespace == ns && (forall|j: int|
        0 <= j < k ==> (#[trigger] p.schemas[j]).namespace != ns) {
        assert forall|j: int| 0 <= j < k implies !pred(#[trigger] p.schemas[j]) by {}
        lemma_first(p.schemas, pred, k);
    }
    if forall|j: int| 0 <= j < p.schemas.len() ==> (#[trigger] p.schemas[j]).namespace != ns {
        assert forall|j: int| 0 <= j < p.schemas.len() implies !pred(#[trigger] p.schemas[j]) by {}
        lemma_none(p.schemas, pred);
    }
}

/// A schema finds the first protocol of a name, and none where there is none.
pub proof fn law_protocols_are_found_by_name(s: SchemaView, name: Seq<char>, k: int)
    ensures
        0 <= k < s.protocols.len() && s.protocols[k].name == name && (forall|j: int|
            0 <= j < k ==> (#[trigger] s.protocols[j]).name != name) ==> s.protocol(name) == Some(s.protocols[k]),
        (forall|j: int| 0 <= j < s.protocols.len() ==> (#[trigger] s.protocols[j]).name != name) ==> s.protocol(
            name,
        ) is None,
{
    let pred = |p: ProtocolView| p.name == name;
    if 0 <= k < s.protocols.len() && s.protocols[k].name == name && (forall|j: int|
        0 <= j < k ==> (#[trigger] s.protocols[j]).name != name) {
        assert forall|j: int| 0 <= j < k implies !pred(#[trigger] s.protocols[j]) by {}
        lemma_first(s.protocols, pred, k);
    }
    if forall|j: int| 0 <= j < s.protocols.len() ==> (#[trigger] s.protocols[j]).name != name {
        assert forall|j: int| 0 <= j < s.protocols.len() implies !pred(#[trigger] s.protocols[j]) by {}
        lemma_none(s.protocols, pred);
    }
}

/// A protocol finds the first function of a name, and none where there is none.
pub proof fn law_functions_are_found_by_name(p: ProtocolView, name: Seq<char>, k: int)
    ensures
        0 <= k < p.functions.len() && p.functions[k].name == name && (forall|j: int|
            0 <= j < k ==> (#[trigger] p.functions[j]).name != name) ==> p.function(name) == Some(p.functions[k]),
        (forall|j: int| 0 <= j < p.functions.len() ==> (#[trigger] p.functions[j]).name != name) ==> p.function(
            name,
        ) is None,
{
    let pred = |f: FnView| f.name == name;
    if 0 <= k < p.functions.len() && p.functions[k].name == name && (forall|j: int|
        0 <= j < k ==> (#[trigger] p.functions[j]).name != name) {
        assert forall|j: int| 0 <= j < k implies !pred(#[trigger] p.functions[j]) by {}
        lemma_first(p.functions, pred, k);
    }
    if forall|j: int| 0 <= j < p.functions.len() ==> (#[trigger] p.functions[j]).name != name {
        assert forall|j: int| 0 <= j < p.functions.len() implies !pred(#[trigger] p.functions[j]) by {}
        lemma_none(p.functions, pred);
    }
}

/// The definition of a type is the first of its name, and there is none where no type
/// has the name.
pub proof fn law_definitions_are_found_by_name(types: Seq<TypeDefView>, name: Seq<char>, k: int)
    ensures
        0 <= k < types.len() && types[k].name() == name && (forall|j: int|
            0 <= j < k ==> (#[trigger] types[j]).name() != name) ==> definition(types, name) == Some(types[k]),
        (forall|j: int| 0 <= j < types.len() ==> (#[trigger] types[j]).name() != name) ==> definition(
            types,
            name,
        ) is None,
{
    let pred = |t: TypeDefView| t.name() == name;
    if 0 <= k < types.len() && types[k].name() == name && (forall|j: int|
        0 <= j < k ==> (#[trigger] types[j]).name() != name) {
        assert forall|j: int| 0 <= j < k implies !pred(#[trigger] types[j]) by {}
        lemma_first(types, pred, k);
    }
    if forall|j: int| 0 <= j < types.len() ==> (#[trigger] types[j]).name() != name {
        assert forall|j: int| 0 <= j < types.len() implies !pred(#[trigger] types[j]) by {}
        lemma_none(types, pred);
    }
}

// ── labels ──────────────────────────────────────────────────────────────

/// The label of a type: `u64`, `Message[]`, `A | B`, `()`.
pub open spec fn label_of(ty: Ty) -> Seq<char>
    decreases ty,
{
    match ty {
        Ty::Unit => "()"@,
        Ty::Prim(name) => name,
        Ty::Ref(name) => name,
        Ty::Array(of) => label_of(*of) + "[]"@,
        Ty::Union(of) => union_label(of),
    }
}

/// The labels of `of`, with bars between them.
pub open spec fn union_label(of: Seq<Ty>) -> Seq<char>
    decreases of,
{
    if of.len() == 0 {
        Seq::empty()
    } else if of.len() == 1 {
        label_of(of[0])
    } else {
        union_label(of.drop_last()) + " | "@ + label_of(of[of.len() - 1])
    }
}

/// A short label for a `TypeRef` (`u64`, `Message[]`, `A | B`, `()`).
pub fn type_label(ty: &TypeRef) -> (r: String)
    ensures
        r@ == label_of(ty@),
    decreases ty,
{
    match ty {
        TypeRef::Unit => "()".to_owned(),
        TypeRef::Prim { name } => name.clone(),
        TypeRef::Ref { name } => name.clone(),
        TypeRef::Array { of } => {
            let mut label = type_label(of);
            label.append("[]");
            label
        },
        TypeRef::Union { of } => {
            let ghost all = ty@->Union_0;
            let mut label: String = String::new();
            let mut i: usize = 0;
            assert(all.take(0) =~= Seq::<Ty>::empty());
            while i < of.len()
                invariant
                    i <= of@.len(),
                    *ty matches TypeRef::Union { of: parts } && parts == *of,
                    all == ty@->Union_0,
                    all.len() == of@.len(),
                    label@ == union_label(all.take(i as int)),
                decreases of@.len() - i,
            {
                proof {
                    let t = all.take(i + 1);
                    assert(t.drop_last() =~= all.take(i as int));
                    assert(t[i as int] == of@[i as int]@);
                    if i == 0 {
                        assert(label@ =~= Seq::<char>::empty());
                    }
                }
                if i > 0 {
                    label.append(" | ");
                }
                let part = type_label(&of[i]);
                label.append(part.as_str());
                i = i + 1;
                assert(label@ =~= union_label(all.take(i as int)));
            }
            assert(all.take(i as int) =~= all);
            label
        },
    }
}

// ── zero values ─────────────────────────────────────────────────────────

/// A Comline integer / float primitive: `u8`..`u128`, `s8`..`s128`, and the
/// floats.
pub open spec fn numeric_name(name: Seq<char>) -> bool {
    ||| name == "u8"@
    ||| name == "u16"@
    ||| name == "u32"@
    ||| name == "u64"@
    ||| name == "u128"@
    ||| name == "s8"@
    ||| name == "s16"@
    ||| name == "s32"@
    ||| name == "s64"@
    ||| name == "s128"@
    ||| name == "f32"@
    ||| name == "f64"@
    ||| name == "float"@
}

/// Whether `name` is a Comline integer / float primitive.
pub fn is_numeric_prim(name: &str) -> (r: bool)
    ensures
        r == numeric_name(name@),
{
    same_text(name, "u8") || same_text(name, "u16") || same_text(name, "u32") || same_text(name, "u64")
        || same_text(name, "u128") || same_text(name, "s8") || same_text(name, "s16") || same_text(name, "s32")
        || same_text(name, "s64") || same_text(name, "s128") || same_text(name, "f32") || same_text(name, "f64")
        || same_text(name, "float")
}

/// The zero of a primitive.
pub open spec fn prim_zero(name: Seq<char>) -> Json {
    if name == "bool"@ {
        Json::Bool(false)
    } else if name == "string"@ || name == "str"@ {
        Json::Text(Seq::empty())
    } else if numeric_name(name) {
        Json::whole(0)
    } else {
        Json::Null
    }
}

fn zero_prim(name: &str) -> (r: Value)
    ensures
        content(r) == prim_zero(name@),
{
    if same_text(name, "bool") {
        json::boolean(false)
    } else if same_text(name, "string") || same_text(name, "str") {
        json::text(String::new())
    } else if is_numeric_prim(name) {
        json::whole(0)
    } else {
        json::null()
    }
}

/// The definition of the type `name`.
pub open spec fn definition(types: Seq<TypeDefView>, name: Seq<char>) -> Option<TypeDefView> {
    first_where(types, |t: TypeDefView| t.name() == name)
}

/// How many of `types` are not among `seen`.
pub open spec fn unseen(types: Seq<TypeDefView>, seen: Seq<Seq<char>>) -> nat
    decreases types.len(),
{
    if types.len() == 0 {
        0
    } else {
        unseen(types.drop_last(), seen) + (if seen.contains(types.last().name()) {
            0nat
        } else {
            1nat
        })
    }
}

proof fn lemma_unseen_shrinks(types: Seq<TypeDefView>, seen: Seq<Seq<char>>, name: Seq<char>)
    ensures
        unseen(types, seen.push(name)) <= unseen(types, seen),
        !seen.contains(name) && (exists|i: int| 0 <= i < types.len() && (#[trigger] types[i]).name() == name)
            ==> unseen(types, seen.push(name)) < unseen(types, seen),
    decreases types.len(),
{
    if types.len() > 0 {
        let short = types.drop_last();
        let last = types.last().name();
        lemma_unseen_shrinks(short, seen, name);
        let more = seen.push(name);
        if seen.contains(last) {
            let k = seen.index_of(last);
            assert(more[k] == last);
        }
        if last == name {
            assert(more[seen.len() as int] == name);
        }
        if more.contains(last) && last != name {
            let k = more.index_of(last);
            assert(seen[k] == last);
        }
        if exists|i: int| 0 <= i < types.len() && (#[trigger] types[i]).name() == name {
            let i = choose|i: int| 0 <= i < types.len() && (#[trigger] types[i]).name() == name;
            if i < short.len() {
                assert(short[i].name() == name);
            }
        }
    }
}

/// A definition that is found, and not seen yet, leaves fewer to see.
pub proof fn lemma_definition_unseen(types: Seq<TypeDefView>, seen: Seq<Seq<char>>, name: Seq<char>)
    requires
        !seen.contains(name),
        definition(types, name) is Some,
    ensures
        unseen(types, seen.push(name)) < unseen(types, seen),
{
    let pred = |t: TypeDefView| t.name() == name;
    lemma_found(types, pred);
    let def = definition(types, name)->0;
    let i = types.index_of(def);
    assert(types[i].name() == name);
    lemma_unseen_shrinks(types, seen, name);
}

/// The zero value of a type. A struct has the zero of each of its fields, an
/// enum its first variant, a union the zero of its first member; a type that is
/// unknown, or inside itself, is `null`.
pub open spec fn zero_of(ty: Ty, types: Seq<TypeDefView>, seen: Seq<Seq<char>>) -> Json
    decreases unseen(types, seen), 0nat, ty,
{
    match ty {
        Ty::Unit => Json::Null,
        Ty::Array(_) => Json::Array(Seq::empty()),
        Ty::Union(of) => if of.len() == 0 {
            Json::Null
        } else {
            zero_of(of[0], types, seen)
        },
        Ty::Prim(name) => prim_zero(name),
        Ty::Ref(name) => if seen.contains(name) {
            Json::Null
        } else {
            match definition(types, name) {
                None => Json::Null,
                Some(TypeDefView::Enum { variants, .. }) => if variants.len() == 0 {
                    Json::Null
                } else {
                    Json::Text(variants[0])
                },
                Some(TypeDefView::Struct { fields, .. }) => {
                    proof {
                        lemma_definition_unseen(types, seen, name);
                    }
                    Json::Object(zero_fields(fields, types, seen.push(name)))
                },
            }
        },
    }
}

/// The zero of each of `fields`, under its name.
pub open spec fn zero_fields(
    fields: Seq<FieldView>,
    types: Seq<TypeDefView>,
    seen: Seq<Seq<char>>,
) -> Map<Seq<char>, Json>
    decreases unseen(types, seen), 1 + fields.len(), Ty::Unit,
{
    if fields.len() == 0 {
        Map::empty()
    } else {
        zero_fields(fields.drop_last(), types, seen).insert(
            fields[fields.len() - 1].name,
            zero_of(fields[fields.len() - 1].ty, types, seen),
        )
    }
}

/// A zero value for `ty`, for seeding "reply with value" and the call form.
/// `ref` types recurse through `types`; unknown / recursive → `null`.
pub fn zero_value(ty: &TypeRef, types: &Vec<TypeDef>) -> (r: Value)
    ensures
        content(r) == zero_of(ty@, views(types@), Seq::empty()),
{
    let mut seen: Vec<String> = Vec::new();
    assert(views(seen@) =~= Seq::empty());
    zero_value_seen(ty, types, &mut seen)
}

fn find_definition<'a>(types: &'a Vec<TypeDef>, name: &str) -> (r: Option<&'a TypeDef>)
    ensures
        match r {
            Some(def) => definition(views(types@), name@) == Some(def@),
            None => definition(views(types@), name@) is None,
        },
{
    let found = find_first(
        types,
        |t: &TypeDef| -> (b: bool) ensures b == (t@.name() == name@) { same_text(t.name(), name) },
        Ghost(|t: TypeDefView| t.name() == name@),
    );
    match found {
        Some(i) => Some(&types[i]),
        None => None,
    }
}

fn zero_value_seen(ty: &TypeRef, types: &Vec<TypeDef>, seen: &mut Vec<String>) -> (r: Value)
    ensures
        content(r) == zero_of(ty@, views(types@), views(old(seen)@)),
        views(final(seen)@) == views(old(seen)@),
    decreases unseen(views(types@), views(old(seen)@)), ty@,
{
    let ghost seen0 = views(seen@);
    match ty {
        TypeRef::Unit => json::null(),
        TypeRef::Array { .. } => {
            let items: Vec<Value> = Vec::new();
            assert(json::contents(items@) =~= Seq::empty());
            json::array(items)
        },
        TypeRef::Union { of } => {
            if of.len() == 0 {
                json::null()
            } else {
                assert(ty@->Union_0[0] == of@[0]@);
                zero_value_seen(&of[0], types, seen)
            }
        },
        TypeRef::Prim { name } => zero_prim(name.as_str()),
        TypeRef::Ref { name } => {
            if contains_text(seen, name.as_str()) {
                return json::null();
            }
            match find_definition(types, name.as_str()) {
                None => json::null(),
                Some(TypeDef::Enum { variants, .. }) => {
                    if variants.len() == 0 {
                        json::null()
                    } else {
                        json::text(variants[0].clone())
                    }
                },
                Some(TypeDef::Struct { fields, .. }) => {
                    proof {
                        lemma_definition_unseen(views(types@), seen0, name@);
                    }
                    seen.push(name.clone());
                    assert(views(seen@) =~= seen0.push(name@));
                    let ghost inside = views(seen@);
                    let ghost all = views(fields@);
                    let mut members: Vec<(String, Value)> = Vec::new();
                    let mut i: usize = 0;
                    assert(all.take(0) =~= Seq::<FieldView>::empty());
                    while i < fields.len()
                        invariant
                            i <= fields@.len(),
                            all == views(fields@),
                            views(seen@) == inside,
                            unseen(views(types@), inside) < unseen(views(types@), seen0),
                            seen0 == views(old(seen)@),
                            members_of(members@) == zero_fields(all.take(i as int), views(types@), inside),
                        decreases fields@.len() - i,
                    {
                        let value = zero_value_seen(&fields[i].ty, types, seen);
                        proof {
                            let t = all.take(i + 1);
                            assert(t.drop_last() =~= all.take(i as int));
                            assert(t[i as int] == fields@[i as int]@);
                        }
                        let ghost was = members@;
                        members.push((fields[i].name.clone(), value));
                        assert(members@.drop_last() =~= was);
                        i = i + 1;
                    }
                    assert(all.take(i as int) =~= all);
                    let ghost full = seen@;
                    let _ = seen.pop();
                    proof {
                        assert(inside =~= seen0.push(name@));
                        assert forall|k: int| 0 <= k < seen0.len() implies views(seen@)[k] == seen0[k] by {
                            assert(views(full)[k] == inside[k]);
                        }
                        assert(views(seen@) =~= seen0);
                    }
                    json::object(members)
                },
            }
        },
    }
}

} // verus!
