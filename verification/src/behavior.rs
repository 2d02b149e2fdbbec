//! What a simulated server instance does for one function when a call arrives:
//! the catalogue of behaviours, what configures each of them, and what each of
//! them makes of a call.

use serde_json::Value;
use vstd::prelude::*;
use crate::dict::views;
use crate::double::Double;
use crate::framing::low16;
use crate::json;
use crate::json::{content, law_a_number_has_one_double, members_of, number_double, Json, JsonNumber};
use crate::shape::{
    is_numeric_prim, numeric_name, zero_of, zero_value, FnShape, FnView, ProtocolShape, ProtocolView, SchemaShape,
    SchemaView, Ty, TypeDef, TypeDefView, TypeRef,
};
use crate::text::same_text;

verus! {

// ── outcomes ────────────────────────────────────────────────────────────

/// What a behaviour produced for one call. The engine turns this into the
/// response frame: a result, an error, or nothing for a one-way call.
#[derive(Debug, PartialEq)]
pub enum SimOutcome {
    /// A success value (`null` for a unit return).
    Success(Value),
    /// A raised schema error: its schema-global `ordinal` and `data` body.
    Failure { ordinal: u16, data: Value },
    /// One-way: nothing to send back.
    Nothing,
}

/// What a [`SimOutcome`] holds.
#[verifier::ext_equal]
pub ghost enum OutcomeView {
    Success(Json),
    Failure { ordinal: u16, data: Json },
    Nothing,
}

impl View for SimOutcome {
    type V = OutcomeView;

    open spec fn view(&self) -> OutcomeView {
        match self {
            SimOutcome::Success(value) => OutcomeView::Success(content(*value)),
            SimOutcome::Failure { ordinal, data } => OutcomeView::Failure {
                ordinal: *ordinal,
                data: content(*data),
            },
            SimOutcome::Nothing => OutcomeView::Nothing,
        }
    }
}

/// What a behaviour wants done about a call.
#[derive(Debug, PartialEq)]
pub enum BehaviorStep {
    /// Answer at once.
    Now(SimOutcome),
    /// Answer after a while.
    After { delay_ms: Double, outcome: SimOutcome },
    /// Never answer.
    Hang,
    /// Relay the call to `target_fn` on the connection `via`, and answer with
    /// what comes back.
    Forward { via: String, target_fn: String, params: Value },
    /// Have the host run a script on the params, and answer with what it comes to
    /// (see [`script_answer`]).
    Script { source: String, params: Value, oneway: bool },
}

/// What a [`BehaviorStep`] holds.
#[verifier::ext_equal]
pub ghost enum StepView {
    Now(OutcomeView),
    After { delay_ms: Double, outcome: OutcomeView },
    Hang,
    Forward { via: Seq<char>, target_fn: Seq<char>, params: Json },
    Script { source: Seq<char>, params: Json, oneway: bool },
}

impl View for BehaviorStep {
    type V = StepView;

    open spec fn view(&self) -> StepView {
        match self {
            BehaviorStep::Now(outcome) => StepView::Now(outcome@),
            BehaviorStep::After { delay_ms, outcome } => StepView::After { delay_ms: *delay_ms, outcome: outcome@ },
            BehaviorStep::Hang => StepView::Hang,
            BehaviorStep::Forward { via, target_fn, params } => StepView::Forward {
                via: via@,
                target_fn: target_fn@,
                params: content(*params),
            },
            BehaviorStep::Script { source, params, oneway } => StepView::Script {
                source: source@,
                params: content(*params),
                oneway: *oneway,
            },
        }
    }
}

/// The context a behaviour runs against.
pub struct BehaviorCtx<'a> {
    /// The decoded request params (`null` when the call takes none).
    pub params: Value,
    pub function: &'a FnShape,
    pub protocol: &'a ProtocolShape,
}

/// What a [`BehaviorCtx`] holds: a call that a behaviour is asked to answer.
pub ghost struct AskedView {
    pub params: Json,
    pub function: FnView,
    pub protocol: ProtocolView,
}

impl<'a> View for BehaviorCtx<'a> {
    type V = AskedView;

    open spec fn view(&self) -> AskedView {
        AskedView { params: content(self.params), function: self.function@, protocol: self.protocol@ }
    }
}

/// What a handler answers to a call, by the calls that it took before that one.
pub type Plan = spec_fn(Seq<AskedView>, AskedView) -> OutcomeView;

/// What a handler answers to a call that it is asked next.
pub open spec fn next_answer(plan: Plan, asked: AskedView) -> OutcomeView {
    plan(Seq::empty(), asked)
}

/// What is left of a plan once a call was taken.
pub open spec fn plan_after(plan: Plan, taken: AskedView) -> Plan {
    |before: Seq<AskedView>, asked: AskedView| plan(seq![taken] + before, asked)
}

/// A value as the answer of a function: nothing, where it is one-way.
pub open spec fn answer(oneway: bool, value: Json) -> OutcomeView {
    if oneway {
        OutcomeView::Nothing
    } else {
        OutcomeView::Success(value)
    }
}

/// `Success(value)` for a normal function, `Nothing` for a one-way one.
fn ok_or_none(function: &FnShape, value: Value) -> (r: SimOutcome)
    ensures
        r@ == answer(function.oneway, content(value)),
{
    if function.oneway {
        SimOutcome::Nothing
    } else {
        SimOutcome::Success(value)
    }
}

/// A server instance's handler for one function that answers at once. What it
/// answers rests on the calls that it was asked and on nothing else, so that a run
/// can be made again.
pub trait Behavior {
    /// What the handler answers to the calls to come: by what it holds, in a way that
    /// an implementor may state.
    open spec fn plan(&self) -> Plan {
        arbitrary::<spec_fn(&Self) -> Plan>()(self)
    }

    fn run(&mut self, ctx: BehaviorCtx<'_>) -> (r: SimOutcome)
        ensures
            r@ == next_answer(old(self).plan(), ctx@),
            final(self).plan() == plan_after(old(self).plan(), ctx@),
    ;
}

/// "Reply with value": always answers with a fixed value.
#[derive(Debug, PartialEq)]
pub struct ReplyWith {
    pub value: Value,
}

impl Behavior for ReplyWith {
    open spec fn plan(&self) -> Plan {
        |before: Seq<AskedView>, asked: AskedView| answer(asked.function.oneway, content(self.value))
    }

    fn run(&mut self, ctx: BehaviorCtx<'_>) -> (r: SimOutcome)
        ensures
            *final(self) == *old(self),
    {
        assert(plan_after(self.plan(), ctx@) =~= self.plan());
        ok_or_none(ctx.function, self.value.clone())
    }
}

/// "Echo params": answers with the request params verbatim.
#[derive(Debug, PartialEq)]
pub struct Echo;

impl Behavior for Echo {
    open spec fn plan(&self) -> Plan {
        |before: Seq<AskedView>, asked: AskedView| answer(asked.function.oneway, asked.params)
    }

    fn run(&mut self, ctx: BehaviorCtx<'_>) -> (r: SimOutcome) {
        assert(plan_after(self.plan(), ctx@) =~= self.plan());
        ok_or_none(ctx.function, ctx.params)
    }
}

// ── the catalogue ───────────────────────────────────────────────────────

/// The behaviours a server function can be set to.
#[derive(Clone, Copy, Debug, PartialEq, Eq, Structural)]
pub enum BehaviorKind {
    Reply,
    Echo,
    Increment,
    Delay,
    Raise,
    Drop,
    Forward,
    Script,
}

impl BehaviorKind {
    /// The tag that session links and the host write.
    pub open spec fn tag(self) -> Seq<char> {
        match self {
            BehaviorKind::Reply => "reply"@,
            BehaviorKind::Echo => "echo"@,
            BehaviorKind::Increment => "increment"@,
            BehaviorKind::Delay => "delay"@,
            BehaviorKind::Raise => "raise"@,
            BehaviorKind::Drop => "drop"@,
            BehaviorKind::Forward => "forward"@,
            BehaviorKind::Script => "script"@,
        }
    }

    /// Every behaviour, in the order of the picker.
    pub open spec fn catalogue() -> Seq<BehaviorKind> {
        seq![
            BehaviorKind::Reply,
            BehaviorKind::Echo,
            BehaviorKind::Increment,
            BehaviorKind::Delay,
            BehaviorKind::Raise,
            BehaviorKind::Drop,
            BehaviorKind::Forward,
            BehaviorKind::Script,
        ]
    }

    /// Every behaviour, in the order of the picker.
    pub fn all() -> (r: Vec<BehaviorKind>)
        ensures
            r@ == BehaviorKind::catalogue(),
    {
        let r = vec![
            BehaviorKind::Reply,
            BehaviorKind::Echo,
            BehaviorKind::Increment,
            BehaviorKind::Delay,
            BehaviorKind::Raise,
            BehaviorKind::Drop,
            BehaviorKind::Forward,
            BehaviorKind::Script,
        ];
        assert(r@ =~= BehaviorKind::catalogue());
        r
    }

    /// The tag that session links and the host write.
    pub fn as_str(self) -> (r: &'static str)
        ensures
            r@ == self.tag(),
    {
        match self {
            BehaviorKind::Reply => "reply",
            BehaviorKind::Echo => "echo",
            BehaviorKind::Increment => "increment",
            BehaviorKind::Delay => "delay",
            BehaviorKind::Raise => "raise",
            BehaviorKind::Drop => "drop",
            BehaviorKind::Forward => "forward",
            BehaviorKind::Script => "script",
        }
    }

    /// The behaviour of that tag.
    pub fn parse(s: &str) -> (r: Option<Self>)
        ensures
            match r {
                Some(kind) => s@ == kind.tag(),
                None => forall|kind: BehaviorKind| s@ != #[trigger] kind.tag(),
            },
    {
        if same_text(s, "reply") {
            Some(BehaviorKind::Reply)
        } else if same_text(s, "echo") {
            Some(BehaviorKind::Echo)
        } else if same_text(s, "increment") {
            Some(BehaviorKind::Increment)
        } else if same_text(s, "delay") {
            Some(BehaviorKind::Delay)
        } else if same_text(s, "raise") {
            Some(BehaviorKind::Raise)
        } else if same_text(s, "drop") {
            Some(BehaviorKind::Drop)
        } else if same_text(s, "forward") {
            Some(BehaviorKind::Forward)
        } else if same_text(s, "script") {
            Some(BehaviorKind::Script)
        } else {
            None
        }
    }

    /// What the picker calls it.
    pub open spec fn title(self) -> Seq<char> {
        match self {
            BehaviorKind::Reply => "Reply with value"@,
            BehaviorKind::Echo => "Echo params"@,
            BehaviorKind::Increment => "Increment a number"@,
            BehaviorKind::Delay => "Reply after a delay"@,
            BehaviorKind::Raise => "Raise an error"@,
            BehaviorKind::Drop => "Drop the call"@,
            BehaviorKind::Forward => "Forward the call"@,
            BehaviorKind::Script => "Run a script"@,
        }
    }

    /// What the picker calls it.
    pub fn label(self) -> (r: &'static str)
        ensures
            r@ == self.title(),
    {
        match self {
            BehaviorKind::Reply => "Reply with value",
            BehaviorKind::Echo => "Echo params",
            BehaviorKind::Increment => "Increment a number",
            BehaviorKind::Delay => "Reply after a delay",
            BehaviorKind::Raise => "Raise an error",
            BehaviorKind::Drop => "Drop the call",
            BehaviorKind::Forward => "Forward the call",
            BehaviorKind::Script => "Run a script",
        }
    }

    /// Whether the behaviour makes sense for a function: an answer needs a
    /// function that returns, a count one that returns a number or a struct, an
    /// error one that throws.
    pub open spec fn suits(self, function: FnView) -> bool {
        match self {
            BehaviorKind::Reply => !function.oneway,
            BehaviorKind::Echo => !function.oneway,
            BehaviorKind::Delay => !function.oneway,
            BehaviorKind::Increment => !function.oneway && match function.returns {
                Some(Ty::Prim(name)) => numeric_name(name),
                Some(Ty::Ref(_)) => true,
                _ => false,
            },
            BehaviorKind::Raise => function.throws.len() > 0,
            BehaviorKind::Drop => true,
            BehaviorKind::Forward => true,
            BehaviorKind::Script => true,
        }
    }

    /// Whether the behaviour makes sense for `function`.
    pub fn applies_to(self, function: &FnShape) -> (r: bool)
        ensures
            r == self.suits(function@),
    {
        match self {
            BehaviorKind::Reply => !function.oneway,
            BehaviorKind::Echo => !function.oneway,
            BehaviorKind::Delay => !function.oneway,
            BehaviorKind::Increment => !function.oneway && match &function.returns {
                Some(TypeRef::Prim { name }) => is_numeric_prim(name.as_str()),
                Some(TypeRef::Ref { .. }) => true,
                _ => false,
            },
            BehaviorKind::Raise => function.throws.len() > 0,
            BehaviorKind::Drop => true,
            BehaviorKind::Forward => true,
            BehaviorKind::Script => true,
        }
    }
}

/// The behaviour a freshly placed server function starts on.
pub open spec fn default_kind(function: FnView) -> BehaviorKind {
    if function.oneway {
        BehaviorKind::Drop
    } else {
        BehaviorKind::Reply
    }
}

/// The behaviour a freshly placed server function starts on: `reply`, or `drop`
/// for a one-way one.
pub fn default_kind_for(function: &FnShape) -> (r: BehaviorKind)
    ensures
        r == default_kind(function@),
        r.suits(function@),
{
    if function.oneway {
        BehaviorKind::Drop
    } else {
        BehaviorKind::Reply
    }
}

// ── configuration ───────────────────────────────────────────────────────

/// The zero value of what a function returns.
pub open spec fn zero_return(function: FnView, types: Seq<TypeDefView>) -> Json {
    match function.returns {
        Some(ty) => zero_of(ty, types, Seq::empty()),
        None => Json::Null,
    }
}

/// The zero value of what `function` returns.
pub fn zero_reply(function: &FnShape, types: &Vec<TypeDef>) -> (r: Value)
    ensures
        content(r) == zero_return(function@, views(types@)),
{
    match &function.returns {
        Some(ty) => zero_value(ty, types),
        None => json::null(),
    }
}

/// The ordinal that a function throws first, or zero.
pub open spec fn first_ordinal(function: FnView) -> u16 {
    if function.throws.len() > 0 {
        function.throws[0].ordinal
    } else {
        0
    }
}

fn exec_first_ordinal(function: &FnShape) -> (r: u16)
    ensures
        r == first_ordinal(function@),
{
    if function.throws.len() > 0 {
        assert(function@.throws[0] == function.throws@[0]@);
        function.throws[0].ordinal
    } else {
        0
    }
}

/// What a reply after a delay waits when nothing else is said, in milliseconds.
pub const DEFAULT_DELAY_MS: u64 = 500;

impl BehaviorKind {
    /// What the behaviour is configured with when nothing else is said.
    pub open spec fn initial_config(self, function: FnView, schema: SchemaView) -> Map<Seq<char>, Json> {
        let zero = zero_return(function, schema.types);
        match self {
            BehaviorKind::Reply => Map::empty().insert("value"@, zero),
            BehaviorKind::Echo => Map::empty(),
            BehaviorKind::Increment => Map::empty().insert("base"@, zero).insert("path"@, Json::Text(Seq::empty())),
            BehaviorKind::Delay => Map::empty().insert("ms"@, Json::whole(DEFAULT_DELAY_MS)).insert("value"@, zero),
            BehaviorKind::Raise => Map::empty().insert(
                "ordinal"@,
                Json::whole(first_ordinal(function) as u64),
            ).insert("data"@, Json::Null),
            BehaviorKind::Drop => Map::empty(),
            BehaviorKind::Forward => Map::empty().insert("viaConnectionId"@, Json::Text(Seq::empty())).insert(
                "targetFn"@,
                Json::Text(function.name),
            ),
            BehaviorKind::Script => Map::empty().insert("source"@, Json::Text(Seq::empty())),
        }
    }

    /// What the behaviour is configured with when nothing else is said.
    pub fn default_config(self, function: &FnShape, schema: &SchemaShape) -> (r: Value)
        ensures
            content(r) == Json::Object(self.initial_config(function@, schema@)),
    {
        let mut members: Vec<(String, Value)> = Vec::new();
        match self {
            BehaviorKind::Reply => {
                members.push(("value".to_owned(), zero_reply(function, &schema.types)));
            },
            BehaviorKind::Echo => {},
            BehaviorKind::Increment => {
                members.push(("base".to_owned(), zero_reply(function, &schema.types)));
                members.push(("path".to_owned(), json::text(String::new())));
            },
            BehaviorKind::Delay => {
                members.push(("ms".to_owned(), json::whole(DEFAULT_DELAY_MS)));
                members.push(("value".to_owned(), zero_reply(function, &schema.types)));
            },
            BehaviorKind::Raise => {
                members.push(("ordinal".to_owned(), json::whole(exec_first_ordinal(function) as u64)));
                members.push(("data".to_owned(), json::null()));
            },
            BehaviorKind::Drop => {},
            BehaviorKind::Forward => {
                members.push(("viaConnectionId".to_owned(), json::text(String::new())));
                members.push(("targetFn".to_owned(), json::text(function.name.clone())));
            },
            BehaviorKind::Script => {
                members.push(("source".to_owned(), json::text(String::new())));
            },
        }
        proof {
            reveal_with_fuel(members_of, 3);
            if members@.len() == 1 {
                assert(members@.drop_last() =~= Seq::empty());
            } else if members@.len() == 2 {
                assert(members@.drop_last().drop_last() =~= Seq::empty());
                assert(members@.drop_last().last() == members@[0]);
            }
            assert(members_of(members@) =~= self.initial_config(function@, schema@));
        }
        json::object(members)
    }
}

/// The member `key` of a configuration, or `other` where it has none.
pub open spec fn setting(config: Json, key: Seq<char>, other: Json) -> Json {
    match config.member(key) {
        Some(value) => value,
        None => other,
    }
}

/// The text `key` of a configuration, or `other` where it has none.
pub open spec fn text_setting(config: Json, key: Seq<char>, other: Seq<char>) -> Seq<char> {
    match config.member(key) {
        Some(Json::Text(s)) => s,
        _ => other,
    }
}

/// The milliseconds `key` of a configuration, or none where it has no such
/// number.
pub open spec fn ms_setting(config: Json, key: Seq<char>) -> Double {
    match config.member(key) {
        Some(Json::Number(n)) => number_double(n),
        _ => Double { bits: 0 },
    }
}

/// The ordinal `key` of a configuration, or `other` where it has no such whole
/// number. The low 16 bits count.
pub open spec fn ordinal_setting(config: Json, key: Seq<char>, other: u16) -> u16 {
    match config.member(key) {
        Some(Json::Number(JsonNumber::Pos(n))) => low16(n as int),
        _ => other,
    }
}

fn read_text(config: &Value, key: &str, other: &str) -> (r: String)
    ensures
        r@ == text_setting(content(*config), key@, other@),
{
    match json::member(config, key) {
        Some(value) => match json::as_text(value) {
            Some(s) => s.to_owned(),
            None => other.to_owned(),
        },
        None => other.to_owned(),
    }
}

fn read_ms(config: &Value, key: &str) -> (r: Double)
    ensures
        r == ms_setting(content(*config), key@),
{
    match json::member(config, key) {
        Some(value) => match json::as_double(value) {
            Some(ms) => {
                proof {
                    law_a_number_has_one_double(ms, content(*value)->Number_0);
                }
                ms
            },
            None => Double { bits: 0 },
        },
        None => Double { bits: 0 },
    }
}

fn read_ordinal(config: &Value, key: &str, other: u16) -> (r: u16)
    ensures
        r == ordinal_setting(content(*config), key@, other),
{
    match json::member(config, key) {
        Some(value) => match json::as_whole(value) {
            Some(n) => (n % 0x1_0000) as u16,
            None => other,
        },
        None => other,
    }
}

// ── handlers ────────────────────────────────────────────────────────────

/// A behaviour of the catalogue as it was configured, or one of a caller's own, with
/// the state that it keeps between calls.
pub enum Handler {
    Reply(ReplyWith),
    Echo(Echo),
    Increment { base: Value, path: String },
    Delay { ms: Double, value: Value },
    Raise { ordinal: u16, data: Value },
    Drop,
    Forward { via: String, target_fn: String },
    Script { source: String },
    Custom(Box<dyn Behavior>),
}

/// What a [`Handler`] holds.
#[verifier::ext_equal]
#[allow(inconsistent_fields)]
pub ghost enum HandlerView {
    Reply(Json),
    Echo,
    Increment { base: Json, path: Seq<char> },
    Delay { ms: Double, value: Json },
    Raise { ordinal: u16, data: Json },
    Drop,
    Forward { via: Seq<char>, target_fn: Seq<char> },
    Script { source: Seq<char> },
    Custom(Plan),
}

impl View for Handler {
    type V = HandlerView;

    open spec fn view(&self) -> HandlerView {
        match self {
            Handler::Reply(reply) => HandlerView::Reply(content(reply.value)),
            Handler::Echo(_) => HandlerView::Echo,
            Handler::Increment { base, path } => HandlerView::Increment { base: content(*base), path: path@ },
            Handler::Delay { ms, value } => HandlerView::Delay { ms: *ms, value: content(*value) },
            Handler::Raise { ordinal, data } => HandlerView::Raise { ordinal: *ordinal, data: content(*data) },
            Handler::Drop => HandlerView::Drop,
            Handler::Forward { via, target_fn } => HandlerView::Forward { via: via@, target_fn: target_fn@ },
            Handler::Script { source } => HandlerView::Script { source: source@ },
            Handler::Custom(behavior) => HandlerView::Custom((**behavior).plan()),
        }
    }
}

/// A number, one up. What is no whole number counts as zero.
pub open spec fn bumped(value: Json) -> Json {
    match value {
        Json::Number(JsonNumber::Pos(n)) => if n < u64::MAX {
            Json::whole((n + 1) as u64)
        } else {
            value
        },
        Json::Number(JsonNumber::Neg(n)) => if n >= -1 {
            Json::whole(0)
        } else {
            Json::Number(JsonNumber::Neg((n + 1) as i64))
        },
        _ => Json::whole(1),
    }
}

/// `base` with the number at `path` one up: itself where the path is empty, else
/// its member of that name.
pub open spec fn incremented(base: Json, path: Seq<char>) -> Json {
    if path.len() == 0 {
        bumped(base)
    } else {
        base.with_member(path, bumped(setting(base, path, Json::Null)))
    }
}

fn bump(value: &Value) -> (r: Value)
    ensures
        content(r) == bumped(content(*value)),
{
    match json::as_whole(value) {
        Some(n) => if n < u64::MAX {
            json::whole(n + 1)
        } else {
            value.clone()
        },
        None => match json::as_signed(value) {
            Some(n) => if n >= -1 {
                json::whole(0)
            } else {
                json::signed(n + 1)
            },
            None => json::whole(1),
        },
    }
}

fn increment(base: &Value, path: &str) -> (r: Value)
    ensures
        content(r) == incremented(content(*base), path@),
{
    if path.is_empty() {
        return bump(base);
    }
    let next = match json::member(base, path) {
        Some(value) => bump(value),
        None => {
            let zero = json::null();
            bump(&zero)
        },
    };
    json::with_member(base.clone(), path.to_owned(), next)
}

/// What a scripted behaviour answers once its script has run: the value that it
/// came to, or why it came to none.
pub open spec fn scripted(oneway: bool, ran: Result<Json, Seq<char>>) -> OutcomeView {
    match ran {
        Ok(value) => answer(oneway, value),
        Err(why) => OutcomeView::Failure { ordinal: 0, data: Json::single("error"@, Json::Text(why)) },
    }
}

/// What a run of a script holds.
pub open spec fn script_run(ran: Result<Value, String>) -> Result<Json, Seq<char>> {
    match ran {
        Ok(value) => Ok(content(value)),
        Err(why) => Err(why@),
    }
}

/// What a scripted behaviour answers once its script has run.
pub fn script_answer(oneway: bool, ran: Result<Value, String>) -> (r: SimOutcome)
    ensures
        r@ == scripted(oneway, script_run(ran)),
{
    match ran {
        Ok(value) => if oneway {
            SimOutcome::Nothing
        } else {
            SimOutcome::Success(value)
        },
        Err(why) => SimOutcome::Failure { ordinal: 0, data: json::single("error", json::text(why)) },
    }
}

impl HandlerView {
    /// What the behaviour makes of a call.
    pub open spec fn step(self, asked: AskedView) -> StepView {
        let AskedView { params, function, .. } = asked;
        match self {
            HandlerView::Reply(value) => StepView::Now(answer(function.oneway, value)),
            HandlerView::Echo => StepView::Now(answer(function.oneway, params)),
            HandlerView::Increment { base, path } => StepView::Now(
                answer(function.oneway, incremented(base, path)),
            ),
            HandlerView::Delay { ms, value } => StepView::After {
                delay_ms: ms,
                outcome: answer(function.oneway, value),
            },
            HandlerView::Raise { ordinal, data } => StepView::Now(OutcomeView::Failure { ordinal, data }),
            HandlerView::Drop => StepView::Hang,
            HandlerView::Forward { via, target_fn } => StepView::Forward { via, target_fn, params },
            HandlerView::Script { source } => StepView::Script { source, params, oneway: function.oneway },
            HandlerView::Custom(plan) => StepView::Now(next_answer(plan, asked)),
        }
    }

    /// The behaviour after a call: a count goes on from where it was, and so does a
    /// behaviour of a caller's own.
    pub open spec fn stepped(self, asked: AskedView) -> HandlerView {
        match self {
            HandlerView::Increment { base, path } => HandlerView::Increment { base: incremented(base, path), path },
            HandlerView::Custom(plan) => HandlerView::Custom(plan_after(plan, asked)),
            other => other,
        }
    }
}

/// The behaviour once it was handed `calls` in turn.
pub open spec fn handed(handler: HandlerView, calls: Seq<AskedView>) -> HandlerView
    decreases calls.len(),
{
    if calls.len() == 0 {
        handler
    } else {
        handed(handler.stepped(calls[0]), calls.drop_first())
    }
}

impl BehaviorKind {
    /// The behaviour that a configuration makes. What it does not say is as in
    /// the initial configuration.
    pub open spec fn made(self, config: Json, function: FnView, schema: SchemaView) -> HandlerView {
        let zero = zero_return(function, schema.types);
        match self {
            BehaviorKind::Reply => HandlerView::Reply(setting(config, "value"@, zero)),
            BehaviorKind::Echo => HandlerView::Echo,
            BehaviorKind::Increment => HandlerView::Increment {
                base: setting(config, "base"@, zero),
                path: text_setting(config, "path"@, Seq::empty()),
            },
            BehaviorKind::Delay => HandlerView::Delay {
                ms: ms_setting(config, "ms"@),
                value: setting(config, "value"@, zero),
            },
            BehaviorKind::Raise => HandlerView::Raise {
                ordinal: ordinal_setting(config, "ordinal"@, first_ordinal(function)),
                data: setting(config, "data"@, Json::Null),
            },
            BehaviorKind::Drop => HandlerView::Drop,
            BehaviorKind::Forward => HandlerView::Forward {
                via: text_setting(config, "viaConnectionId"@, Seq::empty()),
                target_fn: text_setting(config, "targetFn"@, function.name),
            },
            BehaviorKind::Script => HandlerView::Script { source: text_setting(config, "source"@, Seq::empty()) },
        }
    }

    /// The behaviour that `config` makes for `function`.
    pub fn make(self, config: &Value, function: &FnShape, schema: &SchemaShape) -> (r: Handler)
        ensures
            r@ == self.made(content(*config), function@, schema@),
    {
        proof {
            reveal_strlit("");
            assert(""@ =~= Seq::<char>::empty());
        }
        match self {
            BehaviorKind::Reply => Handler::Reply(
                ReplyWith { value: value_or_zero(config, "value", function, schema) },
            ),
            BehaviorKind::Echo => Handler::Echo(Echo),
            BehaviorKind::Increment => Handler::Increment {
                base: value_or_zero(config, "base", function, schema),
                path: read_text(config, "path", ""),
            },
            BehaviorKind::Delay => Handler::Delay {
                ms: read_ms(config, "ms"),
                value: value_or_zero(config, "value", function, schema),
            },
            BehaviorKind::Raise => Handler::Raise {
                ordinal: read_ordinal(config, "ordinal", exec_first_ordinal(function)),
                data: match json::member(config, "data") {
                    Some(data) => data.clone(),
                    None => json::null(),
                },
            },
            BehaviorKind::Drop => Handler::Drop,
            BehaviorKind::Forward => Handler::Forward {
                via: read_text(config, "viaConnectionId", ""),
                target_fn: read_text(config, "targetFn", function.name.as_str()),
            },
            BehaviorKind::Script => Handler::Script { source: read_text(config, "source", "") },
        }
    }
}

fn value_or_zero(config: &Value, key: &str, function: &FnShape, schema: &SchemaShape) -> (r: Value)
    ensures
        content(r) == setting(content(*config), key@, zero_return(function@, schema@.types)),
{
    match json::member(config, key) {
        Some(value) => value.clone(),
        None => zero_reply(function, &schema.types),
    }
}

impl Handler {
    /// What the behaviour makes of a call.
    pub fn run(&mut self, ctx: BehaviorCtx<'_>) -> (r: BehaviorStep)
        ensures
            r@ == old(self)@.step(ctx@),
            final(self)@ == old(self)@.stepped(ctx@),
    {
        match self {
            Handler::Reply(reply) => BehaviorStep::Now(reply.run(ctx)),
            Handler::Echo(echo) => BehaviorStep::Now(echo.run(ctx)),
            Handler::Increment { base, path } => {
                let next = increment(base, path.as_str());
                let outcome = ok_or_none(ctx.function, next.clone());
                *base = next;
                BehaviorStep::Now(outcome)
            },
            Handler::Delay { ms, value } => BehaviorStep::After {
                delay_ms: *ms,
                outcome: ok_or_none(ctx.function, value.clone()),
            },
            Handler::Raise { ordinal, data } => BehaviorStep::Now(
                SimOutcome::Failure { ordinal: *ordinal, data: data.clone() },
            ),
            Handler::Drop => BehaviorStep::Hang,
            Handler::Forward { via, target_fn } => BehaviorStep::Forward {
                via: via.clone(),
                target_fn: target_fn.clone(),
                params: ctx.params,
            },
            Handler::Script { source } => BehaviorStep::Script {
                source: source.clone(),
                params: ctx.params,
                oneway: ctx.function.oneway,
            },
            Handler::Custom(behavior) => BehaviorStep::Now(behavior.run(ctx)),
        }
    }
}

// ── laws ────────────────────────────────────────────────────────────────

/// No behaviour of the catalogue answers a one-way function with a value, neither at
/// once nor later, nor with what a script comes to.
pub proof fn law_one_way_sends_nothing(handler: HandlerView, asked: AskedView, ran: Result<Json, Seq<char>>)
    requires
        handler !is Custom,
        asked.function.oneway,
    ensures
        match handler.step(asked) {
            StepView::Now(outcome) => outcome !is Success,
            StepView::After { outcome, .. } => outcome !is Success,
            StepView::Script { oneway, .. } => scripted(oneway, ran) !is Success,
            _ => true,
        },
{
}

/// Of the behaviours of the catalogue, only a count changes from call to call.
pub proof fn law_only_a_count_changes(handler: HandlerView, asked: AskedView)
    requires
        handler !is Increment,
        handler !is Custom,
    ensures
        handler.stepped(asked) == handler,
{
}

/// A count answers each call with one more than the last.
pub proof fn law_a_count_goes_up(n: u64, first: AskedView, second: AskedView)
    requires
        n < u64::MAX - 1,
        !first.function.oneway,
        !second.function.oneway,
    ensures
        ({
            let counter = HandlerView::Increment { base: Json::whole(n), path: Seq::empty() };
            &&& counter.step(first) == StepView::Now(OutcomeView::Success(Json::whole((n + 1) as u64)))
            &&& counter.stepped(first).step(second) == StepView::Now(
                OutcomeView::Success(Json::whole((n + 2) as u64)),
            )
        }),
{
}

/// A behaviour of a caller's own answers as it says it would: each call by the calls
/// that it took before it.
pub proof fn law_a_custom_behaviour_keeps_to_its_plan(plan: Plan, before: Seq<AskedView>, asked: AskedView)
    ensures
        handed(HandlerView::Custom(plan), before).step(asked) == StepView::Now(plan(before, asked)),
    decreases before.len(),
{
    if before.len() == 0 {
        assert(before =~= Seq::empty());
    } else {
        let later = before.drop_first();
        law_a_custom_behaviour_keeps_to_its_plan(plan_after(plan, before[0]), later, asked);
        assert(seq![before[0]] + later =~= before);
    }
}

/// The behaviour that a function starts on suits it.
pub proof fn law_default_kind_suits(function: FnView)
    ensures
        default_kind(function).suits(function),
{
}

/// No two behaviours have one tag.
pub proof fn law_tags_tell_behaviours_apart(a: BehaviorKind, b: BehaviorKind)
    requires
        a.tag() == b.tag(),
    ensures
        a == b,
{
    reveal_strlit("reply");
    reveal_strlit("echo");
    reveal_strlit("increment");
    reveal_strlit("delay");
    reveal_strlit("raise");
    reveal_strlit("drop");
    reveal_strlit("forward");
    reveal_strlit("script");
    assert("reply"@.len() == 5 && "delay"@.len() == 5 && "raise"@.len() == 5);
    assert("echo"@.len() == 4 && "drop"@.len() == 4);
    assert("increment"@.len() == 9 && "forward"@.len() == 7 && "script"@.len() == 6);
    assert("reply"@[1] == 'e' && "raise"@[1] == 'a' && "delay"@[0] == 'd' && "reply"@[0] == 'r' && "raise"@[0] == 'r');
    assert("echo"@[0] == 'e' && "drop"@[0] == 'd');
}

} // verus!
