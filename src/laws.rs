use vstd::prelude::*;
use crate::rule::{Evaluator, eval_spec};
use crate::surface::WidgetModel;
use crate::tree::{
    Component,
    ComponentKind,
    Context,
    Property,
    PropertyTypeError,
    RenderError,
    button_look,
    forest_preorder,
    fresh,
    ids_in_preorder,
    lemma_new_ids,
    new_ids,
    id_after_render,
    number_property,
    own_widgets,
    preorder,
    property_name,
};
use crate::value::{Value, ValueKind, kind_of};

verus! {

/// Rendering a component twice in succession: after the first render it holds
/// an identifier, and the second render leaves that identifier as it is,
/// whatever the allocator holds at each call.
pub proof fn identifier_is_stable(c0: Component, c1: Component, c2: Component, n1: u64, n2: u64)
    requires
        c1.ident() == id_after_render(c0.ident(), n1),
        c2.ident() == id_after_render(c1.ident(), n2),
    ensures
        c1.ident() is Some,
        c2.ident() == c1.ident(),
{
}

proof fn lemma_forest_preorder_concat(s: Seq<Component>, t: Seq<Component>, state: Seq<Value>)
    ensures
        forest_preorder(s + t, state) == forest_preorder(s, state) + forest_preorder(t, state),
    decreases t.len(),
{
    if t.len() == 0 {
        assert(s + t =~= s);
        assert(forest_preorder(s, state) + forest_preorder(t, state) =~= forest_preorder(s, state));
    } else {
        let t1 = t.subrange(0, t.len() - 1);
        lemma_forest_preorder_concat(s, t1, state);
        assert((s + t).subrange(0, (s + t).len() - 1) =~= s + t1);
        assert((s + t)[(s + t).len() - 1] == t[t.len() - 1]);
        assert(forest_preorder(s + t1, state) + preorder(t[t.len() - 1], state) =~= forest_preorder(
            s,
            state,
        ) + (forest_preorder(t1, state) + preorder(t[t.len() - 1], state)));
    }
}

/// Update order: a component's own widgets come first (a button's, none for a
/// window), then the whole subtree of each child in declaration order; the
/// widgets of siblings never interleave.
pub proof fn update_order(c: Component, i: int, state: Seq<Value>)
    requires
        0 <= i < c.ctx().children().len(),
    ensures
        ({
            let s = c.ctx().children();
            preorder(c, state) == own_widgets(c, state) + forest_preorder(s.subrange(0, i), state)
                + preorder(s[i], state) + forest_preorder(s.subrange(i + 1, s.len() as int), state)
        }),
{
    let s = c.ctx().children();
    let a = s.subrange(0, i);
    let b = s.subrange(i, i + 1);
    let rest = s.subrange(i + 1, s.len() as int);
    assert(s =~= a + b + rest);
    lemma_forest_preorder_concat(a + b, rest, state);
    lemma_forest_preorder_concat(a, b, state);
    assert(b.subrange(0, 0).len() == 0);
    assert(forest_preorder(b.subrange(0, 0), state) =~= Seq::<WidgetModel>::empty());
    assert(b[0] == s[i]);
    assert(forest_preorder(b, state) =~= preorder(s[i], state));
    assert(preorder(c, state) =~= own_widgets(c, state) + forest_preorder(a, state) + preorder(
        s[i],
        state,
    ) + forest_preorder(rest, state));
}

/// A numeric override that reads a slot of the live state takes the value the
/// slot holds in that frame's state: it is evaluated on every render, never
/// kept from an earlier one.
pub proof fn override_follows_state(
    rules: Map<Seq<char>, Evaluator>,
    p: Property,
    default: i64,
    slot: usize,
    state: Seq<Value>,
    n: i64,
)
    requires
        rules.contains_key(property_name(p)),
        rules[property_name(p)] == Evaluator::State(slot),
        slot < state.len(),
        state[slot as int] == Value::Number(n),
    ensures
        number_property(ComponentKind::Button, rules, p, default, state) == Ok::<i64, RenderError>(
            n,
        ),
{
}

/// Where a button renders at all, its `x` is the number its `x` rule yields in
/// that frame, or 0 where it has none.
pub proof fn button_x_is_override(rules: Map<Seq<char>, Evaluator>, state: Seq<Value>)
    requires
        button_look(rules, state) is Ok,
    ensures
        rules.contains_key("x"@) ==> eval_spec(rules["x"@], state) == Some(
            Value::Number(button_look(rules, state)->Ok_0.x),
        ),
        !rules.contains_key("x"@) ==> button_look(rules, state)->Ok_0.x == 0,
{
}

/// An `x` rule that yields anything but a number fails the button's render
/// with a type error naming the button, `x`, the number expected and the kind
/// found; nothing is coerced.
pub proof fn wrong_kind_is_reported(rules: Map<Seq<char>, Evaluator>, state: Seq<Value>, v: Value)
    requires
        rules.contains_key("x"@),
        eval_spec(rules["x"@], state) == Some(v),
        kind_of(v) != ValueKind::Number,
    ensures
        button_look(rules, state) == Err::<crate::surface::ButtonLook, RenderError>(
            RenderError::PropertyType(
                PropertyTypeError {
                    component_kind: ComponentKind::Button,
                    property: Property::X,
                    expected: ValueKind::Number,
                    actual: kind_of(v),
                },
            ),
        ),
{
}

/// Setting a rule twice under one name leaves one rule under that name, the
/// second; the other rules are as they were before both.
pub proof fn rule_replacement(
    c0: Context,
    c1: Context,
    c2: Context,
    name: Seq<char>,
    f1: Evaluator,
    f2: Evaluator,
)
    requires
        c1.rules() == c0.rules().insert(name, f1),
        c2.rules() == c1.rules().insert(name, f2),
    ensures
        c2.rules() == c0.rules().insert(name, f2),
        c2.rules().contains_key(name),
        c2.rules()[name] == f2,
{
    assert(c2.rules() =~= c0.rules().insert(name, f2));
}

/// Identifiers handed out by one update: the buttons that had none receive,
/// in preorder, the allocator's values `next`, `next + 1`, ...; so no two of
/// them are equal, and none equals an identifier already given out below
/// `next`.
pub proof fn new_ids_are_distinct(a: Component, b: Component, next: u64)
    requires
        ids_in_preorder(a, b, next as int),
        next + fresh(a) <= u64::MAX,
    ensures
        new_ids(a, b) == Seq::new(fresh(a), |i: int| (next + i) as u64),
        forall|i: int, j: int|
            0 <= i < j < new_ids(a, b).len() ==> #[trigger] new_ids(a, b)[i] != #[trigger] new_ids(
                a,
                b,
            )[j],
        forall|i: int| 0 <= i < new_ids(a, b).len() ==> next <= #[trigger] new_ids(a, b)[i],
{
    lemma_new_ids(a, b, next as int);
}

} // verus!
