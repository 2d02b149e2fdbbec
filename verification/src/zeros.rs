//! What the zero of a type is: a value of that type, at every depth.

use vstd::prelude::*;
use crate::json::{Json, JsonNumber};
use crate::shape::{
    definition, label_of, law_definitions_are_found_by_name, lemma_definition_unseen, unseen, union_label,
    zero_fields, zero_of, FieldView, Ty, TypeDefView,
};

verus! {

/// Whether `k` is the place of the first type called `name`.
pub open spec fn first_of(types: Seq<TypeDefView>, name: Seq<char>, k: int) -> bool {
    &&& 0 <= k < types.len()
    &&& types[k].name() == name
    &&& forall|j: int| 0 <= j < k ==> (#[trigger] types[j]).name() != name
}

/// Whether no type is called `name`.
pub open spec fn unknown(types: Seq<TypeDefView>, name: Seq<char>) -> bool {
    forall|j: int| 0 <= j < types.len() ==> (#[trigger] types[j]).name() != name
}

/// Whether `i` is the place of the last field of its name.
pub open spec fn last_of(fields: Seq<FieldView>, i: int) -> bool {
    &&& 0 <= i < fields.len()
    &&& forall|j: int| i < j < fields.len() ==> (#[trigger] fields[j]).name != fields[i].name
}

/// Whether some field is called `name`.
pub open spec fn has_field(fields: Seq<FieldView>, name: Seq<char>) -> bool {
    exists|i: int| 0 <= i < fields.len() && (#[trigger] fields[i]).name == name
}

/// Whether `v` is a zero for `ty`, as far down as `depth`, inside the structs `inside`:
/// an empty string for a string, 0 for a number, false for a bool, an empty array for an
/// array, one of the variants for an enum that has any, and an object with all the
/// fields of a struct, each with a zero of its own. `null` stands for the unit type, an
/// unknown name, an empty enum or union, and a struct inside itself, and for nothing
/// else.
pub open spec fn fits(v: Json, ty: Ty, types: Seq<TypeDefView>, inside: Set<Seq<char>>, depth: nat) -> bool
    decreases depth,
{
    if depth == 0 {
        true
    } else {
        let below = (depth - 1) as nat;
        match ty {
            Ty::Unit => v is Null,
            Ty::Array(_) => v matches Json::Array(items) && items.len() == 0,
            Ty::Union(of) => if of.len() == 0 {
                v is Null
            } else {
                fits(v, of[0], types, inside, below)
            },
            Ty::Prim(name) => {
                if name == "bool"@ {
                    v == Json::Bool(false)
                } else if name == "string"@ || name == "str"@ {
                    v matches Json::Text(s) && s.len() == 0
                } else if name == "u8"@ || name == "u16"@ || name == "u32"@ || name == "u64"@ || name == "u128"@
                    || name == "s8"@ || name == "s16"@ || name == "s32"@ || name == "s64"@ || name == "s128"@
                    || name == "f32"@ || name == "f64"@ || name == "float"@ {
                    v == Json::Number(JsonNumber::Pos(0))
                } else {
                    v is Null
                }
            },
            Ty::Ref(name) => {
                &&& inside.contains(name) || unknown(types, name) ==> v is Null
                &&& forall|k: int| !inside.contains(name) && #[trigger] first_of(types, name, k) ==> match types[k] {
                    TypeDefView::Enum { variants, .. } => if variants.len() == 0 {
                        v is Null
                    } else {
                        v == Json::Text(variants[0])
                    },
                    TypeDefView::Struct { fields, .. } => {
                        &&& v is Object
                        &&& forall|key: Seq<char>| #[trigger] v->Object_0.contains_key(key) <==> has_field(fields, key)
                        &&& forall|i: int| #[trigger] last_of(fields, i) ==> fits(
                            v->Object_0[fields[i].name],
                            fields[i].ty,
                            types,
                            inside.insert(name),
                            below,
                        )
                    },
                }
            },
        }
    }
}

proof fn lemma_zero_fields(fields: Seq<FieldView>, types: Seq<TypeDefView>, seen: Seq<Seq<char>>)
    ensures
        forall|key: Seq<char>| #[trigger]
            zero_fields(fields, types, seen).contains_key(key) <==> has_field(fields, key),
        forall|i: int| #[trigger]
            last_of(fields, i) ==> zero_fields(fields, types, seen)[fields[i].name] == zero_of(
                fields[i].ty,
                types,
                seen,
            ),
    decreases fields.len(),
{
    let all = zero_fields(fields, types, seen);
    if fields.len() > 0 {
        let short = fields.drop_last();
        let last = fields[fields.len() - 1];
        lemma_zero_fields(short, types, seen);
        let before = zero_fields(short, types, seen);
        assert(all == before.insert(last.name, zero_of(last.ty, types, seen)));
        assert forall|key: Seq<char>| #[trigger] all.contains_key(key) <==> has_field(fields, key) by {
            assert(before.contains_key(key) <==> has_field(short, key));
            if has_field(short, key) {
                let i = choose|i: int| 0 <= i < short.len() && (#[trigger] short[i]).name == key;
                assert(fields[i].name == key);
            }
            if has_field(fields, key) && key != last.name {
                let i = choose|i: int| 0 <= i < fields.len() && (#[trigger] fields[i]).name == key;
                assert(short[i].name == key);
            }
            assert(fields[fields.len() - 1].name == last.name);
        }
        assert forall|i: int| #[trigger] last_of(fields, i) implies all[fields[i].name] == zero_of(
            fields[i].ty,
            types,
            seen,
        ) by {
            if i < fields.len() - 1 {
                assert(fields[fields.len() - 1].name != fields[i].name);
                assert forall|j: int| i < j < short.len() implies (#[trigger] short[j]).name != short[i].name by {
                    assert(fields[j].name != fields[i].name);
                }
                assert(last_of(short, i));
                assert(short[i] == fields[i]);
            }
        }
    } else {
        assert forall|key: Seq<char>| #[trigger] all.contains_key(key) <==> has_field(fields, key) by {
        }
    }
}

proof fn lemma_zero_fits(ty: Ty, types: Seq<TypeDefView>, seen: Seq<Seq<char>>, inside: Set<Seq<char>>, depth: nat)
    requires
        forall|name: Seq<char>| seen.contains(name) <==> #[trigger] inside.contains(name),
    ensures
        fits(zero_of(ty, types, seen), ty, types, inside, depth),
    decreases depth,
{
    let v = zero_of(ty, types, seen);
    if depth > 0 {
        let below = (depth - 1) as nat;
        match ty {
            Ty::Union(of) => {
                if of.len() > 0 {
                    lemma_zero_fits(of[0], types, seen, inside, below);
                }
            },
            Ty::Ref(name) => {
                assert(seen.contains(name) <==> inside.contains(name));
                law_definitions_are_found_by_name(types, name, 0);
                assert forall|k: int| !inside.contains(name) && #[trigger] first_of(types, name, k) implies match types[k] {
                    TypeDefView::Enum { variants, .. } => if variants.len() == 0 {
                        v is Null
                    } else {
                        v == Json::Text(variants[0])
                    },
                    TypeDefView::Struct { fields, .. } => {
                        &&& v is Object
                        &&& forall|key: Seq<char>| #[trigger] v->Object_0.contains_key(key) <==> has_field(fields, key)
                        &&& forall|i: int| #[trigger] last_of(fields, i) ==> fits(
                            v->Object_0[fields[i].name],
                            fields[i].ty,
                            types,
                            inside.insert(name),
                            below,
                        )
                    },
                } by {
                    law_definitions_are_found_by_name(types, name, k);
                    if let TypeDefView::Struct { fields, .. } = types[k] {
                        let more = seen.push(name);
                        let within = inside.insert(name);
                        lemma_zero_fields(fields, types, more);
                        assert(v == Json::Object(zero_fields(fields, types, more)));
                        assert forall|n: Seq<char>| more.contains(n) <==> #[trigger] within.contains(n) by {
                            if seen.contains(n) {
                                assert(more[seen.index_of(n)] == n);
                            }
                            assert(more[seen.len() as int] == name);
                            if more.contains(n) && n != name {
                                assert(seen[more.index_of(n)] == n);
                            }
                            assert(seen.contains(n) <==> inside.contains(n));
                        }
                        assert forall|i: int| #[trigger] last_of(fields, i) implies fits(
                            v->Object_0[fields[i].name],
                            fields[i].ty,
                            types,
                            within,
                            below,
                        ) by {
                            lemma_zero_fits(fields[i].ty, types, more, within, below);
                        }
                    }
                }
            },
            _ => {},
        }
    }
}

/// The zero of a type is a value of that type, as far down as one looks.
pub proof fn law_a_zero_fits_its_type(ty: Ty, types: Seq<TypeDefView>, depth: nat)
    ensures
        fits(zero_of(ty, types, Seq::empty()), ty, types, Set::empty(), depth),
{
    let seen = Seq::<Seq<char>>::empty();
    assert forall|name: Seq<char>| seen.contains(name) <==> #[trigger] Set::<Seq<char>>::empty().contains(name) by {}
    lemma_zero_fits(ty, types, seen, Set::empty(), depth);
}

// ── a zero is made of zeros ─────────────────────────────────────────────

/// Whether a value of `ty` has a `name` inside it, or is one, within `n` steps. An array
/// starts out empty and holds none.
pub open spec fn holds(ty: Ty, types: Seq<TypeDefView>, name: Seq<char>, n: nat) -> bool
    decreases n,
{
    if n == 0 {
        false
    } else {
        match ty {
            Ty::Ref(r) => r == name || match definition(types, r) {
                Some(TypeDefView::Struct { fields, .. }) => exists|i: int|
                    0 <= i < fields.len() && holds((#[trigger] fields[i]).ty, types, name, (n - 1) as nat),
                _ => false,
            },
            Ty::Union(of) => of.len() > 0 && holds(of[0], types, name, (n - 1) as nat),
            _ => false,
        }
    }
}

/// Whether `a` and `b` have the same names that a value of `ty` may hold.
pub open spec fn alike_for(ty: Ty, types: Seq<TypeDefView>, a: Seq<Seq<char>>, b: Seq<Seq<char>>) -> bool {
    forall|name: Seq<char>, n: nat| #[trigger] holds(ty, types, name, n) ==> a.contains(name) == b.contains(name)
}

proof fn lemma_alike(ty: Ty, types: Seq<TypeDefView>, a: Seq<Seq<char>>, b: Seq<Seq<char>>)
    requires
        alike_for(ty, types, a, b),
    ensures
        zero_of(ty, types, a) == zero_of(ty, types, b),
    decreases unseen(types, a), 0nat, ty,
{
    match ty {
        Ty::Union(of) => {
            if of.len() > 0 {
                assert forall|name: Seq<char>, n: nat| #[trigger] holds(of[0], types, name, n) implies a.contains(name)
                    == b.contains(name) by {
                    assert(holds(ty, types, name, n + 1));
                }
                lemma_alike(of[0], types, a, b);
            }
        },
        Ty::Ref(name) => {
            assert(holds(ty, types, name, 1));
            if !a.contains(name) {
                if let Some(TypeDefView::Struct { fields, .. }) = definition(types, name) {
                    lemma_definition_unseen(types, a, name);
                    let am = a.push(name);
                    let bm = b.push(name);
                    assert forall|i: int| 0 <= i < fields.len() implies alike_for(
                        (#[trigger] fields[i]).ty,
                        types,
                        am,
                        bm,
                    ) by {
                        assert forall|other: Seq<char>, n: nat| #[trigger]
                            holds(fields[i].ty, types, other, n) implies am.contains(other) == bm.contains(other) by {
                            lemma_holds(name, types, other, i, n + 1);
                            lemma_pushed(a, name, other);
                            lemma_pushed(b, name, other);
                        }
                    }
                    lemma_alike_fields(fields, types, am, bm);
                }
            }
        },
        _ => {},
    }
}

proof fn lemma_holds(name: Seq<char>, types: Seq<TypeDefView>, other: Seq<char>, i: int, n: nat)
    requires
        n > 0,
        definition(types, name) matches Some(TypeDefView::Struct { fields, .. }) && 0 <= i < fields.len() && holds(
            fields[i].ty,
            types,
            other,
            (n - 1) as nat,
        ),
    ensures
        holds(Ty::Ref(name), types, other, n),
{
    let fields = definition(types, name)->0->fields;
    assert(holds(fields[i].ty, types, other, (n - 1) as nat));
}

proof fn lemma_pushed(a: Seq<Seq<char>>, name: Seq<char>, other: Seq<char>)
    ensures
        a.push(name).contains(other) == (other == name || a.contains(other)),
{
    let am = a.push(name);
    assert(am[a.len() as int] == name);
    if a.contains(other) {
        assert(am[a.index_of(other)] == other);
    }
    if am.contains(other) && other != name {
        assert(a[am.index_of(other)] == other);
    }
}

proof fn lemma_alike_fields(fields: Seq<FieldView>, types: Seq<TypeDefView>, a: Seq<Seq<char>>, b: Seq<Seq<char>>)
    requires
        forall|i: int| 0 <= i < fields.len() ==> alike_for((#[trigger] fields[i]).ty, types, a, b),
    ensures
        zero_fields(fields, types, a) == zero_fields(fields, types, b),
    decreases unseen(types, a), 1 + fields.len(), Ty::Unit,
{
    if fields.len() > 0 {
        let short = fields.drop_last();
        assert forall|i: int| 0 <= i < short.len() implies alike_for((#[trigger] short[i]).ty, types, a, b) by {
            assert(short[i] == fields[i]);
        }
        lemma_alike_fields(short, types, a, b);
        lemma_alike(fields[fields.len() - 1].ty, types, a, b);
    }
}

/// The zero of a struct that has none of itself inside it is an object that holds, under
/// the name of each field and under no other, the very zero of that field's type.
pub proof fn law_the_zero_of_a_struct_is_made_of_zeros(name: Seq<char>, types: Seq<TypeDefView>, k: int)
    requires
        first_of(types, name, k),
        types[k] is Struct,
        forall|i: int, n: nat|
            0 <= i < types[k]->fields.len() ==> !#[trigger] holds(types[k]->fields[i].ty, types, name, n),
    ensures
        zero_of(Ty::Ref(name), types, Seq::empty()) is Object,
        forall|key: Seq<char>| #[trigger]
            zero_of(Ty::Ref(name), types, Seq::empty())->Object_0.contains_key(key) <==> has_field(
                types[k]->fields,
                key,
            ),
        forall|i: int| #[trigger]
            last_of(types[k]->fields, i) ==> zero_of(
                Ty::Ref(name),
                types,
                Seq::empty(),
            )->Object_0[types[k]->fields[i].name] == zero_of(types[k]->fields[i].ty, types, Seq::empty()),
{
    let fields = types[k]->fields;
    let none = Seq::<Seq<char>>::empty();
    law_definitions_are_found_by_name(types, name, k);
    let one = none.push(name);
    lemma_zero_fields(fields, types, one);
    assert(zero_of(Ty::Ref(name), types, none) == Json::Object(zero_fields(fields, types, one)));
    assert forall|i: int| #[trigger] last_of(fields, i) implies zero_of(fields[i].ty, types, one) == zero_of(
        fields[i].ty,
        types,
        none,
    ) by {
        assert forall|other: Seq<char>, n: nat| #[trigger] holds(fields[i].ty, types, other, n) implies one.contains(other)
            == none.contains(other) by {
            lemma_pushed(none, name, other);
        }
        lemma_alike(fields[i].ty, types, one, none);
    }
}

/// A union starts out as its first member.
pub proof fn law_the_zero_of_a_union_is_of_its_first_member(of: Seq<Ty>, types: Seq<TypeDefView>)
    requires
        of.len() > 0,
    ensures
        zero_of(Ty::Union(of), types, Seq::empty()) == zero_of(of[0], types, Seq::empty()),
{
}

// ── labels ──────────────────────────────────────────────────────────────

/// The label of a type: a name for itself, `[]` behind the items of an array, `()` for
/// the unit type; a union of two has a bar between its members.
pub proof fn law_labels(name: Seq<char>, a: Ty, b: Ty)
    ensures
        label_of(Ty::Prim(name)) == name,
        label_of(Ty::Ref(name)) == name,
        label_of(Ty::Unit) == seq!['(', ')'],
        label_of(Ty::Array(Box::new(a))) == label_of(a) + seq!['[', ']'],
        label_of(Ty::Union(seq![a])) == label_of(a),
        label_of(Ty::Union(seq![a, b])) == label_of(a) + seq![' ', '|', ' '] + label_of(b),
{
    reveal_strlit("()");
    reveal_strlit("[]");
    reveal_strlit(" | ");
    assert("()"@ =~= seq!['(', ')']);
    assert("[]"@ =~= seq!['[', ']']);
    assert(" | "@ =~= seq![' ', '|', ' ']);
    reveal_with_fuel(label_of, 4);
    reveal_with_fuel(union_label, 4);
    assert(seq![a, b].drop_last() =~= seq![a]);
}

/// A union with one member more has its label behind a bar.
pub proof fn law_union_labels_grow(of: Seq<Ty>, more: Ty)
    requires
        of.len() > 0,
    ensures
        label_of(Ty::Union(of.push(more))) == label_of(Ty::Union(of)) + seq![' ', '|', ' '] + label_of(more),
{
    reveal_strlit(" | ");
    assert(" | "@ =~= seq![' ', '|', ' ']);
    reveal_with_fuel(label_of, 2);
    reveal_with_fuel(union_label, 2);
    let all = of.push(more);
    assert(all.drop_last() =~= of);
    assert(all[all.len() - 1] == more);
    assert(union_label(all) == union_label(of) + " | "@ + label_of(more));
}

} // verus!
