//! What the behaviours of a server answer, by how they are set.

use vstd::prelude::*;
use crate::behavior::{
    bumped, handed, incremented, scripted, AskedView, BehaviorKind, HandlerView, OutcomeView, StepView,
};
use crate::contract::{CallView, RuntimeError};
use crate::format::Codec;
use crate::generic::{behaviors_after, dispatched, resolved};
use crate::json::{number_double, Json, JsonNumber};
use crate::shape::{law_functions_are_found_by_name, zero_of, FnView, ProtocolView, SchemaView, Ty};

verus! {

// ── which behaviour suits which function ────────────────────────────────

/// What answers with a value needs a function that returns; a count needs one that
/// returns a number or a reference; an error needs one that throws. The rest suits every
/// function.
pub proof fn law_what_suits_a_function(f: FnView)
    ensures
        BehaviorKind::Reply.suits(f) <==> !f.oneway,
        BehaviorKind::Echo.suits(f) <==> !f.oneway,
        BehaviorKind::Delay.suits(f) <==> !f.oneway,
        BehaviorKind::Raise.suits(f) <==> f.throws.len() > 0,
        BehaviorKind::Drop.suits(f),
        BehaviorKind::Forward.suits(f),
        BehaviorKind::Script.suits(f),
        f.oneway ==> !BehaviorKind::Increment.suits(f),
        !f.oneway && (f.returns matches Some(Ty::Ref(_))) ==> BehaviorKind::Increment.suits(f),
        !f.oneway && (f.returns matches Some(Ty::Prim(name)) && (name == "u8"@ || name == "u16"@ || name == "u32"@ || name
            == "u64"@ || name == "u128"@ || name == "s8"@ || name == "s16"@ || name == "s32"@ || name == "s64"@ || name
            == "s128"@ || name == "f32"@ || name == "f64"@ || name == "float"@)) ==> BehaviorKind::Increment.suits(f),
        f.returns is None || (f.returns matches Some(Ty::Unit)) || (f.returns matches Some(Ty::Array(_))) || (
        f.returns matches Some(Ty::Union(_))) ==> !BehaviorKind::Increment.suits(f),
        (f.returns matches Some(Ty::Prim(name)) && (name == "string"@ || name == "str"@ || name == "bool"@))
            ==> !BehaviorKind::Increment.suits(f),
{
    lemma_no_numbers();
}

proof fn lemma_no_numbers()
    ensures
        !crate::shape::numeric_name("string"@),
        !crate::shape::numeric_name("str"@),
        !crate::shape::numeric_name("bool"@),
{
    reveal_strlit("string");
    reveal_strlit("str");
    reveal_strlit("bool");
    reveal_strlit("u8");
    reveal_strlit("u16");
    reveal_strlit("u32");
    reveal_strlit("u64");
    reveal_strlit("u128");
    reveal_strlit("s8");
    reveal_strlit("s16");
    reveal_strlit("s32");
    reveal_strlit("s64");
    reveal_strlit("s128");
    reveal_strlit("f32");
    reveal_strlit("f64");
    reveal_strlit("float");
    assert("string"@.len() == 6);
    assert("str"@.len() == 3 && "str"@[1] == 't');
    assert("bool"@.len() == 4 && "bool"@[0] == 'b');
    assert("u128"@.len() == 4 && "u128"@[0] == 'u');
    assert("s128"@.len() == 4 && "s128"@[0] == 's');
    assert("float"@.len() == 5);
    assert("u16"@[1] == '1' && "u32"@[1] == '3' && "u64"@[1] == '6');
    assert("s16"@[1] == '1' && "s32"@[1] == '3' && "s64"@[1] == '6');
    assert("f32"@[1] == '3' && "f64"@[1] == '6');
    assert("u8"@.len() == 2 && "s8"@.len() == 2);
}

// ── what a configuration makes ──────────────────────────────────────────

/// What a function returns when nothing else is said: the zero of its type.
pub open spec fn zero_for(f: FnView, schema: SchemaView) -> Json {
    match f.returns {
        Some(ty) => zero_of(ty, schema.types, Seq::empty()),
        None => Json::Null,
    }
}

/// What a server set to a kind with these members does for a call of a function that is
/// not one-way: a reply gives back the `value`, an echo the parameters of the call, a
/// delay the `value` after `ms` milliseconds, a raise the `ordinal` and the `data`, a
/// drop nothing; a forward hands the parameters to `targetFn` on `viaConnectionId`, and
/// a script runs its `source` on them.
pub proof fn law_what_a_configuration_says(
    members: Map<Seq<char>, Json>,
    f: FnView,
    schema: SchemaView,
    asked: AskedView,
    value: Json,
    text: Seq<char>,
    n: u64,
)
    requires
        asked.function == f,
        !f.oneway,
    ensures
        ({
            let config = Json::Object(members);
            &&& members.contains_key("value"@) && members["value"@] == value ==> BehaviorKind::Reply.made(
                config,
                f,
                schema,
            ).step(asked) == StepView::Now(OutcomeView::Success(value))
            &&& BehaviorKind::Echo.made(config, f, schema).step(asked) == StepView::Now(
                OutcomeView::Success(asked.params),
            )
            &&& members.contains_key("value"@) && members["value"@] == value && members.contains_key("ms"@)
                && members["ms"@] == Json::Number(JsonNumber::Pos(n)) ==> BehaviorKind::Delay.made(
                config,
                f,
                schema,
            ).step(asked) == (StepView::After {
                delay_ms: number_double(JsonNumber::Pos(n)),
                outcome: OutcomeView::Success(value),
            })
            &&& members.contains_key("data"@) && members["data"@] == value && members.contains_key("ordinal"@)
                && members["ordinal"@] == Json::Number(JsonNumber::Pos(n)) && n < 0x1_0000 ==> BehaviorKind::Raise.made(
                config,
                f,
                schema,
            ).step(asked) == StepView::Now(OutcomeView::Failure { ordinal: n as u16, data: value })
            &&& BehaviorKind::Drop.made(config, f, schema).step(asked) == StepView::Hang
            &&& members.contains_key("source"@) && members["source"@] == Json::Text(text) ==> BehaviorKind::Script.made(
                config,
                f,
                schema,
            ).step(asked) == (StepView::Script { source: text, params: asked.params, oneway: false })
        }),
{
}

/// A forward goes to the function and over the connection that it is set to.
pub proof fn law_a_forward_goes_where_it_is_set_to(
    members: Map<Seq<char>, Json>,
    f: FnView,
    schema: SchemaView,
    asked: AskedView,
    via: Seq<char>,
    target: Seq<char>,
)
    requires
        members.contains_key("viaConnectionId"@),
        members["viaConnectionId"@] == Json::Text(via),
        members.contains_key("targetFn"@),
        members["targetFn"@] == Json::Text(target),
    ensures
        BehaviorKind::Forward.made(Json::Object(members), f, schema).step(asked) == (StepView::Forward {
            via,
            target_fn: target,
            params: asked.params,
        }),
{
}

/// A server that is set to a kind and nothing more replies with the zero of what the
/// function returns, raises the error that the function throws first, and forwards to
/// the function of the same name.
pub proof fn law_what_nothing_said_means(f: FnView, schema: SchemaView, asked: AskedView)
    requires
        asked.function == f,
        !f.oneway,
    ensures
        ({
            let nothing = Json::Object(Map::empty());
            &&& BehaviorKind::Reply.made(nothing, f, schema).step(asked) == StepView::Now(
                OutcomeView::Success(zero_for(f, schema)),
            )
            &&& (BehaviorKind::Delay.made(nothing, f, schema).step(asked) matches StepView::After { delay_ms, outcome }
                && delay_ms.bits == 0 && outcome == OutcomeView::Success(zero_for(f, schema)))
            &&& f.throws.len() > 0 ==> BehaviorKind::Raise.made(nothing, f, schema).step(asked) == StepView::Now(
                OutcomeView::Failure { ordinal: f.throws[0].ordinal, data: Json::Null },
            )
            &&& f.throws.len() == 0 ==> BehaviorKind::Raise.made(nothing, f, schema).step(asked) == StepView::Now(
                OutcomeView::Failure { ordinal: 0, data: Json::Null },
            )
            &&& BehaviorKind::Forward.made(nothing, f, schema).step(asked) == (StepView::Forward {
                via: Seq::empty(),
                target_fn: f.name,
                params: asked.params,
            })
            &&& BehaviorKind::Script.made(nothing, f, schema).step(asked) == (StepView::Script {
                source: Seq::empty(),
                params: asked.params,
                oneway: false,
            })
        }),
{
}

/// A member of the wrong type counts as nothing said: a text that is no text, a delay
/// that is no number, an ordinal that is no whole number. Of an ordinal the low 16 bits
/// count.
pub proof fn law_what_a_wrong_member_means(
    members: Map<Seq<char>, Json>,
    f: FnView,
    schema: SchemaView,
    n: u64,
)
    requires
        !f.oneway,
    ensures
        ({
            let config = Json::Object(members);
            &&& members.contains_key("source"@) && members["source"@] !is Text ==> BehaviorKind::Script.made(
                config,
                f,
                schema,
            ) == (HandlerView::Script { source: Seq::empty() })
            &&& members.contains_key("targetFn"@) && members["targetFn"@] !is Text && members.contains_key(
                "viaConnectionId"@,
            ) && members["viaConnectionId"@] !is Text ==> BehaviorKind::Forward.made(config, f, schema) == (
            HandlerView::Forward { via: Seq::empty(), target_fn: f.name })
            &&& members.contains_key("ms"@) && members["ms"@] !is Number ==> (BehaviorKind::Delay.made(
                config,
                f,
                schema,
            ) matches HandlerView::Delay { ms, .. } && ms.bits == 0)
            &&& members.contains_key("ordinal"@) && members["ordinal"@] !is Number && f.throws.len() > 0 ==> (
            BehaviorKind::Raise.made(config, f, schema) matches HandlerView::Raise { ordinal, .. } && ordinal
                == f.throws[0].ordinal)
            &&& members.contains_key("ordinal"@) && members["ordinal"@] == Json::Number(JsonNumber::Pos(n)) ==> (
            BehaviorKind::Raise.made(config, f, schema) matches HandlerView::Raise { ordinal, .. } && ordinal == n
                % 0x1_0000)
        }),
{
}

/// What a kind starts with is what it does where nothing is said, but for a delay, which
/// starts with half a second.
pub proof fn law_what_a_kind_starts_with(f: FnView, schema: SchemaView)
    ensures
        ({
            let nothing = Json::Object(Map::empty());
            &&& BehaviorKind::Reply.made(Json::Object(BehaviorKind::Reply.initial_config(f, schema)), f, schema)
                == BehaviorKind::Reply.made(nothing, f, schema)
            &&& BehaviorKind::Increment.made(Json::Object(BehaviorKind::Increment.initial_config(f, schema)), f, schema)
                == BehaviorKind::Increment.made(nothing, f, schema)
            &&& BehaviorKind::Raise.made(Json::Object(BehaviorKind::Raise.initial_config(f, schema)), f, schema)
                == BehaviorKind::Raise.made(nothing, f, schema)
            &&& BehaviorKind::Forward.made(Json::Object(BehaviorKind::Forward.initial_config(f, schema)), f, schema)
                == BehaviorKind::Forward.made(nothing, f, schema)
            &&& BehaviorKind::Script.made(Json::Object(BehaviorKind::Script.initial_config(f, schema)), f, schema)
                == BehaviorKind::Script.made(nothing, f, schema)
            &&& BehaviorKind::Delay.made(Json::Object(BehaviorKind::Delay.initial_config(f, schema)), f, schema) == (
            HandlerView::Delay { ms: number_double(JsonNumber::Pos(500)), value: zero_for(f, schema) })
        }),
{
    reveal_strlit("ms");
    reveal_strlit("value");
    reveal_strlit("base");
    reveal_strlit("path");
    reveal_strlit("ordinal");
    reveal_strlit("data");
    reveal_strlit("viaConnectionId");
    reveal_strlit("targetFn");
    assert("ms"@.len() == 2 && "value"@.len() == 5);
    assert("base"@.len() == 4 && "path"@.len() == 4 && "base"@[0] == 'b' && "path"@[0] == 'p');
    assert("ordinal"@.len() == 7 && "data"@.len() == 4);
    assert("viaConnectionId"@.len() == 15 && "targetFn"@.len() == 8);
}

/// A one-way function is answered with nothing, at once or later, whatever the value.
pub proof fn law_one_way_functions_get_nothing(value: Json, f: FnView, asked: AskedView)
    requires
        asked.function == f,
        f.oneway,
    ensures
        HandlerView::Reply(value).step(asked) == StepView::Now(OutcomeView::Nothing),
        HandlerView::Echo.step(asked) == StepView::Now(OutcomeView::Nothing),
        scripted(true, Ok(value)) == OutcomeView::Nothing,
        scripted(false, Ok(value)) == OutcomeView::Success(value),
{
}

/// Whether `data` is an object with the member `error` alone, which says `why`.
pub open spec fn says_error(data: Json, why: Seq<char>) -> bool {
    &&& data is Object
    &&& forall|k: Seq<char>| #[trigger] data->Object_0.contains_key(k) <==> k == "error"@
    &&& data->Object_0["error"@] == Json::Text(why)
}

/// A script that came to nothing is answered with an error of ordinal 0 that says why.
pub proof fn law_a_failed_script_says_why(oneway: bool, why: Seq<char>)
    ensures
        scripted(oneway, Err(why)) is Failure,
        scripted(oneway, Err(why))->ordinal == 0,
        says_error(scripted(oneway, Err(why))->data, why),
{
}

// ── counts ──────────────────────────────────────────────────────────────

/// A whole number goes up by one, as far as there is a next; what is no whole number
/// counts as zero and comes to one.
pub proof fn law_a_number_goes_up(n: u64, m: i64, other: Json)
    ensures
        n < u64::MAX ==> bumped(Json::Number(JsonNumber::Pos(n))) == Json::Number(JsonNumber::Pos((n + 1) as u64)),
        bumped(Json::Number(JsonNumber::Pos(u64::MAX))) == Json::Number(JsonNumber::Pos(u64::MAX)),
        m < -1 ==> bumped(Json::Number(JsonNumber::Neg(m))) == Json::Number(JsonNumber::Neg((m + 1) as i64)),
        m == -1 ==> bumped(Json::Number(JsonNumber::Neg(m))) == Json::Number(JsonNumber::Pos(0)),
        other !is Number ==> bumped(other) == Json::Number(JsonNumber::Pos(1)),
{
}

/// A count inside a struct moves the member that it is set to, and no other.
pub proof fn law_a_count_moves_its_member(members: Map<Seq<char>, Json>, path: Seq<char>, n: u64, other: Seq<char>)
    requires
        path.len() > 0,
        members.contains_key(path),
        members[path] == Json::Number(JsonNumber::Pos(n)),
        n < u64::MAX,
        other != path,
    ensures
        ({
            let after = incremented(Json::Object(members), path);
            &&& after is Object
            &&& after->Object_0.contains_key(path)
            &&& after->Object_0[path] == Json::Number(JsonNumber::Pos((n + 1) as u64))
            &&& after->Object_0.contains_key(other) == members.contains_key(other)
            &&& members.contains_key(other) ==> after->Object_0[other] == members[other]
        }),
{
}

/// A count inside a struct that lacks the member starts it at one; one inside what is no
/// struct changes nothing.
pub proof fn law_a_count_of_what_is_not_there(members: Map<Seq<char>, Json>, path: Seq<char>, other: Json)
    requires
        path.len() > 0,
        !members.contains_key(path),
        other !is Object,
    ensures
        incremented(Json::Object(members), path) == Json::Object(
            members.insert(path, Json::Number(JsonNumber::Pos(1))),
        ),
        incremented(other, path) == other,
{
}

/// After any number of calls a count stands as much higher as there were calls, and the
/// next call is answered with one more.
pub proof fn law_a_count_counts_calls(n: u64, calls: Seq<AskedView>, asked: AskedView)
    requires
        n + calls.len() < u64::MAX,
        !asked.function.oneway,
    ensures
        handed(HandlerView::Increment { base: Json::whole(n), path: Seq::empty() }, calls).step(asked) == StepView::Now(
            OutcomeView::Success(Json::Number(JsonNumber::Pos((n + calls.len() + 1) as u64))),
        ),
    decreases calls.len(),
{
    if calls.len() > 0 {
        law_a_count_counts_calls((n + 1) as u64, calls.drop_first(), asked);
    }
}

// ── calls ───────────────────────────────────────────────────────────────

/// A call by number addresses the function at that place, a call by name the first of
/// that name; a number behind the last and a name that no function has address nothing.
pub proof fn law_what_a_call_addresses(proto: ProtocolView, id: u16, name: Seq<char>, k: int)
    ensures
        id < proto.functions.len() ==> resolved(proto, CallView::Id(id)) == Some(proto.functions[id as int]),
        id >= proto.functions.len() ==> resolved(proto, CallView::Id(id)) is None,
        0 <= k < proto.functions.len() && proto.functions[k].name == name && (forall|j: int|
            0 <= j < k ==> (#[trigger] proto.functions[j]).name != name) ==> resolved(proto, CallView::Name(name)) == Some(
            proto.functions[k],
        ),
        (forall|j: int| 0 <= j < proto.functions.len() ==> (#[trigger] proto.functions[j]).name != name) ==> resolved(
            proto,
            CallView::Name(name),
        ) is None,
{
    law_functions_are_found_by_name(proto, name, k);
}

/// A call of the function at place `i` is answered by the behaviour that is set for that
/// function, asked with what the parameters decode to; and that behaviour alone moves
/// on.
pub proof fn law_a_call_meets_its_behaviour(
    proto: ProtocolView,
    i: u16,
    params: Seq<u8>,
    value: Json,
    codec: Codec,
    behaviors: Map<Seq<char>, HandlerView>,
    other: Seq<char>,
)
    requires
        i < proto.functions.len(),
        behaviors.contains_key(proto.functions[i as int].name),
        params.len() == 0 && value is Null || params.len() > 0 && codec.decoded(params) == Some(value),
    ensures
        ({
            let f = proto.functions[i as int];
            let asked = AskedView { params: value, function: f, protocol: proto };
            let after = behaviors_after(proto, CallView::Id(i), params, codec, behaviors);
            &&& dispatched(proto, CallView::Id(i), params, codec, behaviors) == Ok::<StepView, RuntimeError>(
                behaviors[f.name].step(asked),
            )
            &&& after.contains_key(f.name)
            &&& after[f.name] == behaviors[f.name].stepped(asked)
            &&& other != f.name ==> after.contains_key(other) == behaviors.contains_key(other) && (
            behaviors.contains_key(other) ==> after[other] == behaviors[other])
        }),
{
}

/// A call that addresses nothing, or a function without a behaviour, is unknown; one
/// whose parameters do not decode is refused as that. Neither moves a behaviour.
pub proof fn law_a_call_that_is_refused(
    proto: ProtocolView,
    call: CallView,
    params: Seq<u8>,
    codec: Codec,
    behaviors: Map<Seq<char>, HandlerView>,
)
    ensures
        resolved(proto, call) is None ==> dispatched(proto, call, params, codec, behaviors) == Err::<
            StepView,
            RuntimeError,
        >(RuntimeError::UnknownCall),
        (resolved(proto, call) matches Some(f) && !behaviors.contains_key(f.name)) ==> dispatched(
            proto,
            call,
            params,
            codec,
            behaviors,
        ) == Err::<StepView, RuntimeError>(RuntimeError::UnknownCall),
        (resolved(proto, call) matches Some(f) && behaviors.contains_key(f.name) && params.len() > 0 && codec.decoded(
            params,
        ) is None) ==> dispatched(proto, call, params, codec, behaviors) == Err::<StepView, RuntimeError>(
            RuntimeError::Serialization,
        ),
        dispatched(proto, call, params, codec, behaviors) is Err ==> behaviors_after(
            proto,
            call,
            params,
            codec,
            behaviors,
        ) == behaviors,
{
}

} // verus!
