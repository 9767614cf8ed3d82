use vstd::prelude::*;
use vstd::string::StringExecFns;
use crate::rule::{Evaluator, eval_spec};
use crate::surface::{ButtonLook, ButtonProps, Surface, Widget, WidgetModel};
use crate::value::{Value, ValueKind, kind_of};

verus! {

/// The widget kinds a component can be.
#[derive(Clone, Copy, Debug, PartialEq, Eq, Structural)]
pub enum ComponentKind {
    Window,
    Button,
}

/// The properties a button recognises.
#[derive(Clone, Copy, Debug, PartialEq, Eq, Structural)]
pub enum Property {
    X,
    Y,
    W,
    H,
    Label,
}

/// The rule name under which a property is overridden.
pub open spec fn property_name(p: Property) -> Seq<char> {
    match p {
        Property::X => "x"@,
        Property::Y => "y"@,
        Property::W => "w"@,
        Property::H => "h"@,
        Property::Label => "label"@,
    }
}

impl Property {
    pub fn name(&self) -> (r: &'static str)
        ensures
            r@ == property_name(*self),
    {
        match self {
            Property::X => "x",
            Property::Y => "y",
            Property::W => "w",
            Property::H => "h",
            Property::Label => "label",
        }
    }
}

/// A rule whose value has a kind other than its property expects.
#[derive(Clone, Copy, Debug, PartialEq, Eq, Structural)]
pub struct PropertyTypeError {
    pub component_kind: ComponentKind,
    pub property: Property,
    pub expected: ValueKind,
    pub actual: ValueKind,
}

/// Why a render, and with it the frame, was abandoned.
#[derive(Clone, Copy, Debug, PartialEq, Eq, Structural)]
pub enum RenderError {
    /// A rule produced a value of the wrong kind.
    PropertyType(PropertyTypeError),
    /// A rule read a slot that the live state does not have.
    UnboundState { component_kind: ComponentKind, property: Property },
}

/// A numeric property: its rule's value if there is a rule, else the default.
pub open spec fn number_property(
    kind: ComponentKind,
    rules: Map<Seq<char>, Evaluator>,
    p: Property,
    default: i64,
    state: Seq<Value>,
) -> Result<i64, RenderError> {
    let key = property_name(p);
    if !rules.contains_key(key) {
        Ok(default)
    } else {
        match eval_spec(rules[key], state) {
            None => Err(RenderError::UnboundState { component_kind: kind, property: p }),
            Some(Value::Number(n)) => Ok(n),
            Some(v) => Err(
                RenderError::PropertyType(
                    PropertyTypeError {
                        component_kind: kind,
                        property: p,
                        expected: ValueKind::Number,
                        actual: kind_of(v),
                    },
                ),
            ),
        }
    }
}

/// A text property: its rule's value if there is a rule, else the default.
pub open spec fn text_property(
    kind: ComponentKind,
    rules: Map<Seq<char>, Evaluator>,
    p: Property,
    default: Seq<char>,
    state: Seq<Value>,
) -> Result<Seq<char>, RenderError> {
    let key = property_name(p);
    if !rules.contains_key(key) {
        Ok(default)
    } else {
        match eval_spec(rules[key], state) {
            None => Err(RenderError::UnboundState { component_kind: kind, property: p }),
            Some(Value::Text(t)) => Ok(t@),
            Some(v) => Err(
                RenderError::PropertyType(
                    PropertyTypeError {
                        component_kind: kind,
                        property: p,
                        expected: ValueKind::Text,
                        actual: kind_of(v),
                    },
                ),
            ),
        }
    }
}

/// How a button with these rules looks against this state: each property in
/// the order x, y, w, h, label, the first failing one deciding the error.
/// Defaults: position (0, 0), size 80 by 80, label "TODO".
pub open spec fn button_look(rules: Map<Seq<char>, Evaluator>, state: Seq<Value>) -> Result<
    ButtonLook,
    RenderError,
> {
    let k = ComponentKind::Button;
    match number_property(k, rules, Property::X, 0, state) {
        Err(e) => Err(e),
        Ok(x) => match number_property(k, rules, Property::Y, 0, state) {
            Err(e) => Err(e),
            Ok(y) => match number_property(k, rules, Property::W, 80, state) {
                Err(e) => Err(e),
                Ok(w) => match number_property(k, rules, Property::H, 80, state) {
                    Err(e) => Err(e),
                    Ok(h) => match text_property(k, rules, Property::Label, "TODO"@, state) {
                        Err(e) => Err(e),
                        Ok(label) => Ok(ButtonLook { x, y, w, h, label }),
                    },
                },
            },
        },
    }
}

spec fn table_wf(rules: Seq<(String, Evaluator)>, table: Map<Seq<char>, Evaluator>) -> bool {
    &&& forall|i: int, j: int|
        0 <= i < rules.len() && 0 <= j < rules.len() && i != j ==> #[trigger] rules[i].0@
            != #[trigger] rules[j].0@
    &&& forall|k: Seq<char>|
        #[trigger] table.contains_key(k) <==> exists|i: int|
            0 <= i < rules.len() && #[trigger] rules[i].0@ == k
    &&& forall|i: int| 0 <= i < rules.len() ==> table[#[trigger] rules[i].0@] == rules[i].1
}

/// A component's property rules and its children, in declaration order.
pub struct Context {
    rules: Vec<(String, Evaluator)>,
    table: Ghost<Map<Seq<char>, Evaluator>>,
    children: Vec<Component>,
}

impl Context {
    /// The rules, by name.
    pub closed spec fn rules(&self) -> Map<Seq<char>, Evaluator> {
        self.table@
    }

    /// The children, in the order in which they are rendered.
    pub closed spec fn children(&self) -> Seq<Component> {
        self.children@
    }

    /// Rule names are unique and the table holds exactly the stored rules.
    pub closed spec fn wf(&self) -> bool {
        table_wf(self.rules@, self.table@)
    }

    pub fn new() -> (r: Context)
        ensures
            r.wf(),
            r.rules() == Map::<Seq<char>, Evaluator>::empty(),
            r.children() == Seq::<Component>::empty(),
    {
        Context { rules: Vec::new(), table: Ghost(Map::empty()), children: Vec::new() }
    }

    fn position(&self, key: &String) -> (r: Option<usize>)
        requires
            self.wf(),
        ensures
            match r {
                Some(i) => i < self.rules@.len() && self.rules@[i as int].0@ == key@,
                None => !self.rules().contains_key(key@),
            },
    {
        let mut i: usize = 0;
        while i < self.rules.len()
            invariant
                i <= self.rules@.len(),
                forall|j: int| 0 <= j < i ==> self.rules@[j].0@ != key@,
            decreases self.rules@.len() - i,
        {
            if self.rules[i].0 == *key {
                return Some(i);
            }
            i = i + 1;
        }
        None
    }

    /// Inserts the rule under `name`, replacing any rule of that name.
    pub fn set_rule(&mut self, name: &str, evaluator: Evaluator)
        requires
            old(self).wf(),
        ensures
            final(self).wf(),
            final(self).rules() == old(self).rules().insert(name@, evaluator),
            final(self).children() == old(self).children(),
    {
        let key = <String as StringExecFns>::from_str(name);
        let ghost e = evaluator;
        let ghost t = self.table@.insert(name@, evaluator);
        let ghost mut at: int = 0;
        match self.position(&key) {
            Some(i) => {
                self.rules.remove(i);
                self.rules.insert(i, (key, evaluator));
                proof { at = i as int; }
            },
            None => {
                self.rules.push((key, evaluator));
                proof { at = self.rules@.len() - 1; }
            },
        }
        assert(self.rules@[at].0@ == name@ && self.rules@[at].1 == e);
        self.table = Ghost(t);
        assert forall|k: Seq<char>| #[trigger] self.table@.contains_key(k) <==> exists|i: int|
            0 <= i < self.rules@.len() && #[trigger] self.rules@[i].0@ == k by {
            if self.table@.contains_key(k) && k != name@ {
                let j = choose|j: int| 0 <= j < old(self).rules@.len() && old(self).rules@[j].0@ == k;
                assert(self.rules@[j].0@ == k);
            }
            if k == name@ {
                assert(self.rules@[at].0@ == k);
            }
        }
    }

    /// The rule stored under `name`, if any.
    pub fn get_rule(&self, name: &str) -> (r: Option<&Evaluator>)
        requires
            self.wf(),
        ensures
            match r {
                Some(e) => self.rules().contains_key(name@) && *e == self.rules()[name@],
                None => !self.rules().contains_key(name@),
            },
    {
        let key = <String as StringExecFns>::from_str(name);
        match self.position(&key) {
            Some(i) => Some(&self.rules[i].1),
            None => None,
        }
    }

    fn resolve_number(&self, kind: ComponentKind, p: Property, default: i64, state: &Vec<Value>) -> (r:
        Result<i64, RenderError>)
        requires
            self.wf(),
        ensures
            r == number_property(kind, self.rules(), p, default, state@),
    {
        match self.get_rule(p.name()) {
            None => Ok(default),
            Some(e) => match e.evaluate(state) {
                None => Err(RenderError::UnboundState { component_kind: kind, property: p }),
                Some(v) => match v.as_number() {
                    Ok(n) => Ok(n),
                    Err(m) => Err(
                        RenderError::PropertyType(
                            PropertyTypeError {
                                component_kind: kind,
                                property: p,
                                expected: m.expected,
                                actual: m.actual,
                            },
                        ),
                    ),
                },
            },
        }
    }

    fn resolve_text(&self, kind: ComponentKind, p: Property, default: &str, state: &Vec<Value>) -> (r:
        Result<String, RenderError>)
        requires
            self.wf(),
        ensures
            match r {
                Ok(t) => text_property(kind, self.rules(), p, default@, state@) == Ok::<
                    Seq<char>,
                    RenderError,
                >(t@),
                Err(e) => text_property(kind, self.rules(), p, default@, state@) == Err::<
                    Seq<char>,
                    RenderError,
                >(e),
            },
    {
        match self.get_rule(p.name()) {
            None => Ok(<String as StringExecFns>::from_str(default)),
            Some(e) => match e.evaluate(state) {
                None => Err(RenderError::UnboundState { component_kind: kind, property: p }),
                Some(v) => match v.as_text() {
                    Ok(t) => Ok(t),
                    Err(m) => Err(
                        RenderError::PropertyType(
                            PropertyTypeError {
                                component_kind: kind,
                                property: p,
                                expected: m.expected,
                                actual: m.actual,
                            },
                        ),
                    ),
                },
            },
        }
    }

    /// Resolves the button properties from these rules against the live state.
    pub fn button_props(&self, state: &Vec<Value>) -> (r: Result<ButtonProps, RenderError>)
        requires
            self.wf(),
        ensures
            match r {
                Ok(props) => button_look(self.rules(), state@) == Ok::<ButtonLook, RenderError>(
                    props@,
                ),
                Err(e) => button_look(self.rules(), state@) == Err::<ButtonLook, RenderError>(e),
            },
    {
        let k = ComponentKind::Button;
        let x = self.resolve_number(k, Property::X, 0, state)?;
        let y = self.resolve_number(k, Property::Y, 0, state)?;
        let w = self.resolve_number(k, Property::W, 80, state)?;
        let h = self.resolve_number(k, Property::H, 80, state)?;
        let label = self.resolve_text(k, Property::Label, "TODO", state)?;
        Ok(ButtonProps { x, y, w, h, label })
    }

    /// The number of children.
    pub fn children_len(&self) -> (r: usize)
        ensures
            r == self.children().len(),
    {
        self.children.len()
    }

    /// Appends a child; it is rendered after the children already present.
    pub fn add_child(&mut self, child: Component)
        requires
            old(self).wf(),
        ensures
            final(self).wf(),
            final(self).rules() == old(self).rules(),
            final(self).children() == old(self).children().push(child),
    {
        self.children.push(child);
        assert(self.rules@ == old(self).rules@);
        assert forall|k: Seq<char>| #[trigger] self.table@.contains_key(k) <==> exists|i: int|
            0 <= i < self.rules@.len() && #[trigger] self.rules@[i].0@ == k by {
            if self.table@.contains_key(k) {
                let j = choose|j: int| 0 <= j < old(self).rules@.len() && old(self).rules@[j].0@ == k;
                assert(self.rules@[j].0@ == k);
            }
        }
    }
}

/// A clickable button.
pub struct Button {
    id: Option<u64>,
    context: Context,
}

/// A root container; it draws nothing of its own and needs no identifier.
pub struct Window {
    context: Context,
}

/// A node of the component tree.
pub enum Component {
    Window(Window),
    Button(Button),
}

/// The identifier a component holds after a render that found the allocator
/// at `next`: the one it had, or else `next`.
pub open spec fn id_after_render(before: Option<u64>, next: u64) -> Option<u64> {
    match before {
        Some(i) => Some(i),
        None => Some(next),
    }
}

/// What rendering this node alone yields: nothing for a window, the
/// resolution of its properties for a button.
pub open spec fn node_check(c: Component, state: Seq<Value>) -> Result<(), RenderError> {
    match c {
        Component::Window(_) => Ok(()),
        Component::Button(_) => match button_look(c.ctx().rules(), state) {
            Ok(_) => Ok(()),
            Err(e) => Err(e),
        },
    }
}

/// The widgets a node applies of its own when it renders successfully: none
/// for a window, which only holds its children; the button for a button.
pub open spec fn own_widgets(c: Component, state: Seq<Value>) -> Seq<WidgetModel> {
    let id = match c.ident() {
        Some(i) => i,
        None => 0,
    };
    match c {
        Component::Window(_) => Seq::empty(),
        Component::Button(_) => seq![
            WidgetModel::Button(id, button_look(c.ctx().rules(), state)->Ok_0),
        ],
    }
}

/// A node that its next render gives an identifier: a button that has none.
pub open spec fn takes_id(c: Component) -> bool {
    c.component_kind() == ComponentKind::Button && c.ident() is None
}

/// Every node of the tree has a well-formed rule table.
pub open spec fn tree_wf(c: Component) -> bool
    decreases c,
{
    c.ctx().wf() && forest_wf(c.ctx().children())
}

pub open spec fn forest_wf(s: Seq<Component>) -> bool
    decreases s,
{
    s.len() == 0 || (forest_wf(s.subrange(0, s.len() - 1)) && tree_wf(s[s.len() - 1]))
}

/// Every button of the tree holds an identifier.
pub open spec fn assigned(c: Component) -> bool
    decreases c,
{
    (c.component_kind() == ComponentKind::Button ==> c.ident() is Some) && forest_assigned(
        c.ctx().children(),
    )
}

pub open spec fn forest_assigned(s: Seq<Component>) -> bool
    decreases s,
{
    s.len() == 0 || (forest_assigned(s.subrange(0, s.len() - 1)) && assigned(s[s.len() - 1]))
}

/// `b` is `a` after a pass that may have given identifiers to nodes: same
/// kinds, rules and shape; a node's identifier once held is kept, and one newly
/// given is not below `lo`.
pub open spec fn settled(a: Component, b: Component, lo: u64) -> bool
    decreases a,
{
    &&& b.component_kind() == a.component_kind()
    &&& b.ctx().rules() == a.ctx().rules()
    &&& (a.ident() is Some ==> b.ident() == a.ident())
    &&& ((a.ident() is None && b.ident() is Some) ==> lo <= b.ident()->0)
    &&& forest_settled(a.ctx().children(), b.ctx().children(), lo)
}

/// `settled`, child by child, over two sequences of equal length.
pub open spec fn forest_settled(s: Seq<Component>, t: Seq<Component>, lo: u64) -> bool
    decreases s,
{
    &&& s.len() == t.len()
    &&& (s.len() == 0 || (forest_settled(
        s.subrange(0, s.len() - 1),
        t.subrange(0, t.len() - 1),
        lo,
    ) && settled(s[s.len() - 1], t[t.len() - 1], lo)))
}

proof fn lemma_forest_wf(s: Seq<Component>)
    ensures
        forest_wf(s) <==> forall|j: int| 0 <= j < s.len() ==> #[trigger] tree_wf(s[j]),
    decreases s.len(),
{
    if s.len() > 0 {
        let t = s.subrange(0, s.len() - 1);
        lemma_forest_wf(t);
        if forest_wf(s) {
            assert forall|j: int| 0 <= j < s.len() implies #[trigger] tree_wf(s[j]) by {
                if j < t.len() {
                    assert(t[j] == s[j]);
                }
            }
        }
        if forall|j: int| 0 <= j < s.len() ==> #[trigger] tree_wf(s[j]) {
            assert forall|j: int| 0 <= j < t.len() implies #[trigger] tree_wf(t[j]) by {
                assert(t[j] == s[j]);
            }
            assert(tree_wf(s[s.len() - 1]));
        }
    }
}

proof fn lemma_forest_assigned(s: Seq<Component>)
    ensures
        forest_assigned(s) <==> forall|j: int| 0 <= j < s.len() ==> #[trigger] assigned(s[j]),
    decreases s.len(),
{
    if s.len() > 0 {
        let t = s.subrange(0, s.len() - 1);
        lemma_forest_assigned(t);
        if forest_assigned(s) {
            assert forall|j: int| 0 <= j < s.len() implies #[trigger] assigned(s[j]) by {
                if j < t.len() {
                    assert(t[j] == s[j]);
                }
            }
        }
        if forall|j: int| 0 <= j < s.len() ==> #[trigger] assigned(s[j]) {
            assert forall|j: int| 0 <= j < t.len() implies #[trigger] assigned(t[j]) by {
                assert(t[j] == s[j]);
            }
            assert(assigned(s[s.len() - 1]));
        }
    }
}

proof fn lemma_forest_settled(s: Seq<Component>, t: Seq<Component>, lo: u64)
    requires
        s.len() == t.len(),
    ensures
        forest_settled(s, t, lo) <==> forall|j: int|
            0 <= j < s.len() ==> #[trigger] settled(s[j], t[j], lo),
    decreases s.len(),
{
    if s.len() > 0 {
        let s1 = s.subrange(0, s.len() - 1);
        let t1 = t.subrange(0, t.len() - 1);
        lemma_forest_settled(s1, t1, lo);
        if forest_settled(s, t, lo) {
            assert forall|j: int| 0 <= j < s.len() implies #[trigger] settled(s[j], t[j], lo) by {
                if j < s1.len() {
                    assert(s1[j] == s[j] && t1[j] == t[j]);
                }
            }
        }
        if forall|j: int| 0 <= j < s.len() ==> #[trigger] settled(s[j], t[j], lo) {
            assert forall|j: int| 0 <= j < s1.len() implies #[trigger] settled(s1[j], t1[j], lo) by {
                assert(s1[j] == s[j] && t1[j] == t[j]);
            }
            assert(settled(s[s.len() - 1], t[t.len() - 1], lo));
        }
    }
}

/// How many identifiers an update of the tree hands out: one for each button
/// that has none yet.
pub open spec fn fresh(c: Component) -> nat
    decreases c,
{
    (if takes_id(c) {
        1nat
    } else {
        0nat
    }) + forest_fresh(c.ctx().children())
}

pub open spec fn forest_fresh(s: Seq<Component>) -> nat
    decreases s,
{
    if s.len() == 0 {
        0
    } else {
        forest_fresh(s.subrange(0, s.len() - 1)) + fresh(s[s.len() - 1])
    }
}

/// `b` is `a` after a successful update that found the allocator at `next`:
/// the buttons that had no identifier got the allocator's values one by one,
/// in preorder; all else is as it was.
pub open spec fn ids_in_preorder(a: Component, b: Component, next: int) -> bool
    decreases a,
{
    &&& b.component_kind() == a.component_kind()
    &&& b.ctx().rules() == a.ctx().rules()
    &&& b.ident() == (if takes_id(a) {
        Some(next as u64)
    } else {
        a.ident()
    })
    &&& forest_ids_in_preorder(
        a.ctx().children(),
        b.ctx().children(),
        next + if takes_id(a) {
            1int
        } else {
            0int
        },
    )
}

pub open spec fn forest_ids_in_preorder(s: Seq<Component>, t: Seq<Component>, next: int) -> bool
    decreases s,
{
    &&& s.len() == t.len()
    &&& (s.len() == 0 || (forest_ids_in_preorder(
        s.subrange(0, s.len() - 1),
        t.subrange(0, t.len() - 1),
        next,
    ) && ids_in_preorder(
        s[s.len() - 1],
        t[t.len() - 1],
        next + forest_fresh(s.subrange(0, s.len() - 1)),
    )))
}

proof fn lemma_forest_ids(s: Seq<Component>, t: Seq<Component>, next: int)
    requires
        s.len() == t.len(),
        forall|j: int|
            0 <= j < s.len() ==> #[trigger] ids_in_preorder(
                s[j],
                t[j],
                next + forest_fresh(s.subrange(0, j)),
            ),
    ensures
        forest_ids_in_preorder(s, t, next),
    decreases s.len(),
{
    if s.len() > 0 {
        let p = s.subrange(0, s.len() - 1);
        let q = t.subrange(0, t.len() - 1);
        assert forall|j: int| 0 <= j < p.len() implies #[trigger] ids_in_preorder(
            p[j],
            q[j],
            next + forest_fresh(p.subrange(0, j)),
        ) by {
            assert(p.subrange(0, j) =~= s.subrange(0, j));
            assert(p[j] == s[j] && q[j] == t[j]);
            assert(ids_in_preorder(s[j], t[j], next + forest_fresh(s.subrange(0, j))));
        }
        lemma_forest_ids(p, q, next);
        assert(ids_in_preorder(
            s[s.len() - 1],
            t[t.len() - 1],
            next + forest_fresh(s.subrange(0, s.len() - 1)),
        ));
    }
}

/// The identifiers that `b` holds where `a` held none (buttons only), in
/// preorder.
pub open spec fn new_ids(a: Component, b: Component) -> Seq<u64>
    decreases a,
{
    (if takes_id(a) {
        seq![b.ident()->Some_0]
    } else {
        Seq::empty()
    }) + forest_new_ids(a.ctx().children(), b.ctx().children())
}

pub open spec fn forest_new_ids(s: Seq<Component>, t: Seq<Component>) -> Seq<u64>
    decreases s,
{
    if s.len() == 0 || t.len() != s.len() {
        Seq::empty()
    } else {
        forest_new_ids(s.subrange(0, s.len() - 1), t.subrange(0, t.len() - 1)) + new_ids(
            s[s.len() - 1],
            t[t.len() - 1],
        )
    }
}

pub(crate) proof fn lemma_new_ids(a: Component, b: Component, next: int)
    requires
        ids_in_preorder(a, b, next),
    ensures
        new_ids(a, b) == Seq::new(fresh(a), |i: int| (next + i) as u64),
    decreases a,
{
    let step: int = if takes_id(a) {
        1
    } else {
        0
    };
    lemma_forest_new_ids(a.ctx().children(), b.ctx().children(), next + step);
    assert(new_ids(a, b) =~= Seq::new(fresh(a), |i: int| (next + i) as u64));
}

proof fn lemma_forest_new_ids(s: Seq<Component>, t: Seq<Component>, next: int)
    requires
        forest_ids_in_preorder(s, t, next),
    ensures
        forest_new_ids(s, t) == Seq::new(forest_fresh(s), |i: int| (next + i) as u64),
    decreases s,
{
    if s.len() == 0 {
        assert(forest_new_ids(s, t) =~= Seq::new(forest_fresh(s), |i: int| (next + i) as u64));
    } else {
        let p = s.subrange(0, s.len() - 1);
        let q = t.subrange(0, t.len() - 1);
        lemma_forest_new_ids(p, q, next);
        lemma_new_ids(s[s.len() - 1], t[t.len() - 1], next + forest_fresh(p));
        assert(forest_new_ids(s, t) =~= Seq::new(forest_fresh(s), |i: int| (next + i) as u64));
    }
}

/// The number of nodes in the tree.
pub open spec fn count(c: Component) -> nat
    decreases c,
{
    1 + forest_count(c.ctx().children())
}

pub open spec fn forest_count(s: Seq<Component>) -> nat
    decreases s,
{
    if s.len() == 0 {
        0
    } else {
        forest_count(s.subrange(0, s.len() - 1)) + count(s[s.len() - 1])
    }
}

/// The widgets a successful update applies: the node's own, then each child's
/// subtree in declaration order (preorder).
pub open spec fn preorder(c: Component, state: Seq<Value>) -> Seq<WidgetModel>
    decreases c,
{
    own_widgets(c, state) + forest_preorder(c.ctx().children(), state)
}

pub open spec fn forest_preorder(s: Seq<Component>, state: Seq<Value>) -> Seq<WidgetModel>
    decreases s,
{
    if s.len() == 0 {
        Seq::empty()
    } else {
        forest_preorder(s.subrange(0, s.len() - 1), state) + preorder(s[s.len() - 1], state)
    }
}

/// The outcome of an update: the first failing node in preorder decides it.
pub open spec fn check_tree(c: Component, state: Seq<Value>) -> Result<(), RenderError>
    decreases c,
{
    match node_check(c, state) {
        Err(e) => Err(e),
        Ok(_) => forest_check(c.ctx().children(), state),
    }
}

pub open spec fn forest_check(s: Seq<Component>, state: Seq<Value>) -> Result<(), RenderError>
    decreases s,
{
    if s.len() == 0 {
        Ok(())
    } else {
        match forest_check(s.subrange(0, s.len() - 1), state) {
            Err(e) => Err(e),
            Ok(_) => check_tree(s[s.len() - 1], state),
        }
    }
}

/// The widgets an update applies before the first failing node in preorder,
/// read off the tree as that update leaves it.
pub open spec fn applied_before_failure(c: Component, state: Seq<Value>) -> Seq<WidgetModel>
    decreases c,
{
    match node_check(c, state) {
        Err(_) => Seq::empty(),
        Ok(_) => own_widgets(c, state) + forest_applied_before_failure(c.ctx().children(), state),
    }
}

pub open spec fn forest_applied_before_failure(s: Seq<Component>, state: Seq<Value>) -> Seq<
    WidgetModel,
>
    decreases s,
{
    if s.len() == 0 {
        Seq::empty()
    } else {
        match forest_check(s.subrange(0, s.len() - 1), state) {
            Err(_) => forest_applied_before_failure(s.subrange(0, s.len() - 1), state),
            Ok(_) => forest_preorder(s.subrange(0, s.len() - 1), state) + applied_before_failure(
                s[s.len() - 1],
                state,
            ),
        }
    }
}

proof fn lemma_forest_applied_prefix_err(s: Seq<Component>, i: int, state: Seq<Value>)
    requires
        0 <= i <= s.len(),
        forest_check(s.subrange(0, i), state) is Err,
    ensures
        forest_applied_before_failure(s, state) == forest_applied_before_failure(
            s.subrange(0, i),
            state,
        ),
    decreases s.len(),
{
    if i < s.len() {
        let t = s.subrange(0, s.len() - 1);
        assert(t.subrange(0, i) =~= s.subrange(0, i));
        lemma_forest_check_prefix_err(t, i, state);
        lemma_forest_applied_prefix_err(t, i, state);
    } else {
        assert(s.subrange(0, i) =~= s);
    }
}

proof fn lemma_forest_count_prefix(s: Seq<Component>, i: int)
    requires
        0 <= i <= s.len(),
    ensures
        forest_count(s.subrange(0, i)) <= forest_count(s),
    decreases s.len(),
{
    if i < s.len() {
        let t = s.subrange(0, s.len() - 1);
        lemma_forest_count_prefix(t, i);
        assert(t.subrange(0, i) =~= s.subrange(0, i));
    } else {
        assert(s.subrange(0, i) =~= s);
    }
}

proof fn lemma_forest_check_prefix_err(s: Seq<Component>, i: int, state: Seq<Value>)
    requires
        0 <= i <= s.len(),
        forest_check(s.subrange(0, i), state) is Err,
    ensures
        forest_check(s, state) == forest_check(s.subrange(0, i), state),
    decreases s.len(),
{
    if i < s.len() {
        let t = s.subrange(0, s.len() - 1);
        assert(t.subrange(0, i) =~= s.subrange(0, i));
        lemma_forest_check_prefix_err(t, i, state);
    } else {
        assert(s.subrange(0, i) =~= s);
    }
}

proof fn lemma_settled_refl(c: Component, lo: u64)
    ensures
        settled(c, c, lo),
    decreases c,
{
    let s = c.ctx().children();
    assert forall|i: int| 0 <= i < s.len() implies #[trigger] settled(s[i], s[i], lo) by {
        lemma_settled_refl(s[i], lo);
    }
    lemma_forest_settled(s, s, lo);
}

proof fn lemma_settled_lower(a: Component, b: Component, lo: u64, lower: u64)
    requires
        settled(a, b, lo),
        lower <= lo,
    ensures
        settled(a, b, lower),
    decreases a,
{
    let s = a.ctx().children();
    let t = b.ctx().children();
    lemma_forest_settled(s, t, lo);
    lemma_forest_settled(s, t, lower);
    assert forall|i: int| 0 <= i < s.len() implies #[trigger] settled(s[i], t[i], lower) by {
        lemma_settled_lower(s[i], t[i], lo, lower);
    }
}

/// The components a tree can be rooted at.
pub open spec fn is_container(kind: ComponentKind) -> bool {
    kind == ComponentKind::Window
}

/// Why a component cannot root a tree.
#[derive(Clone, Copy, Debug, PartialEq, Eq, Structural)]
pub enum BuildError {
    UnsupportedRootKind(ComponentKind),
}

/// A component tree rooted at a container, driven one pass per frame.
pub struct Tree {
    root: Component,
}

impl Tree {
    pub closed spec fn root_spec(&self) -> Component {
        self.root
    }

    /// Accepts `root` as the root of a tree if it is a container.
    pub fn build(root: Component) -> (r: Result<Tree, BuildError>)
        ensures
            r is Ok <==> is_container(root.component_kind()),
            r is Ok ==> r->Ok_0.root_spec() == root,
            r is Err ==> r == Err::<Tree, BuildError>(
                BuildError::UnsupportedRootKind(root.component_kind()),
            ),
    {
        match root.kind() {
            ComponentKind::Window => Ok(Tree { root }),
            k => Err(BuildError::UnsupportedRootKind(k)),
        }
    }

    pub fn root(&self) -> (r: &Component)
        ensures
            *r == self.root_spec(),
    {
        &self.root
    }

    /// One frame: updates the whole tree against this frame's live state.
    pub fn tick(&mut self, surface: &mut Surface, state: &Vec<Value>) -> (r: Result<
        (),
        RenderError,
    >)
        requires
            tree_wf(old(self).root_spec()),
            old(surface).next_id + count(old(self).root_spec()) <= u64::MAX,
        ensures
            tree_wf(final(self).root_spec()),
            settled(old(self).root_spec(), final(self).root_spec(), old(surface).next_id),
            old(surface).next_id <= final(surface).next_id,
            final(surface).next_id <= old(surface).next_id + count(old(self).root_spec()),
            r == check_tree(old(self).root_spec(), state@),
            r is Ok ==> assigned(final(self).root_spec()),
            r is Ok ==> final(surface).log() == old(surface).log() + preorder(
                final(self).root_spec(),
                state@,
            ),
            r is Ok ==> ids_in_preorder(
                old(self).root_spec(),
                final(self).root_spec(),
                old(surface).next_id as int,
            ),
            r is Ok ==> final(surface).next_id == old(surface).next_id + fresh(old(self).root_spec()),
            r is Err ==> final(surface).log() == old(surface).log() + applied_before_failure(
                final(self).root_spec(),
                state@,
            ),
            old(surface).log().len() <= final(surface).log().len(),
            final(surface).log().subrange(0, old(surface).log().len() as int) == old(surface).log(),
    {
        self.root.update(surface, state)
    }
}

/// Construction with no arguments.
pub trait New: Sized {
    fn new() -> Self;
}

impl New for Button {
    fn new() -> Self {
        Button::new()
    }
}

impl New for Window {
    fn new() -> Self {
        Window::new()
    }
}

impl Button {
    pub fn new() -> (r: Button)
        ensures
            Component::Button(r).ident() is None,
            Component::Button(r).ctx().wf(),
            Component::Button(r).ctx().rules() == Map::<Seq<char>, Evaluator>::empty(),
            Component::Button(r).ctx().children() == Seq::<Component>::empty(),
    {
        Button { id: None, context: Context::new() }
    }
}

impl Window {
    pub fn new() -> (r: Window)
        ensures
            Component::Window(r).ident() is None,
            Component::Window(r).ctx().wf(),
            Component::Window(r).ctx().rules() == Map::<Seq<char>, Evaluator>::empty(),
            Component::Window(r).ctx().children() == Seq::<Component>::empty(),
    {
        Window { context: Context::new() }
    }
}

impl Component {
    pub open spec fn component_kind(self) -> ComponentKind {
        match self {
            Component::Window(_) => ComponentKind::Window,
            Component::Button(_) => ComponentKind::Button,
        }
    }

    /// The cached identifier, `None` until the first render.
    pub closed spec fn ident(self) -> Option<u64> {
        match self {
            Component::Window(_) => None,
            Component::Button(b) => b.id,
        }
    }

    pub closed spec fn ctx(self) -> Context {
        match self {
            Component::Window(w) => w.context,
            Component::Button(b) => b.context,
        }
    }

    pub fn kind(&self) -> (r: ComponentKind)
        ensures
            r == self.component_kind(),
    {
        match self {
            Component::Window(_) => ComponentKind::Window,
            Component::Button(_) => ComponentKind::Button,
        }
    }

    pub fn identifier(&self) -> (r: Option<u64>)
        ensures
            r == self.ident(),
    {
        match self {
            Component::Window(_) => None,
            Component::Button(b) => b.id,
        }
    }

    pub fn context(&self) -> (r: &Context)
        ensures
            *r == self.ctx(),
    {
        match self {
            Component::Window(w) => &w.context,
            Component::Button(b) => &b.context,
        }
    }

    /// Sets the rule under `key`, replacing any rule of that name.
    pub fn add_rule(&mut self, key: &str, value: Evaluator)
        requires
            old(self).ctx().wf(),
        ensures
            final(self).ctx().wf(),
            final(self).ctx().rules() == old(self).ctx().rules().insert(key@, value),
            final(self).ctx().children() == old(self).ctx().children(),
            final(self).ident() == old(self).ident(),
            final(self).component_kind() == old(self).component_kind(),
            tree_wf(*old(self)) ==> tree_wf(*final(self)),
    {
        match self {
            Component::Window(w) => w.context.set_rule(key, value),
            Component::Button(b) => b.context.set_rule(key, value),
        }
    }

    /// Appends a child, to be updated after the children already present.
    pub fn add_child(&mut self, child: Component)
        requires
            old(self).ctx().wf(),
        ensures
            final(self).ctx().wf(),
            final(self).ctx().rules() == old(self).ctx().rules(),
            final(self).ctx().children() == old(self).ctx().children().push(child),
            final(self).ident() == old(self).ident(),
            final(self).component_kind() == old(self).component_kind(),
            tree_wf(*old(self)) && tree_wf(child) ==> tree_wf(*final(self)),
            count(*final(self)) == count(*old(self)) + count(child),
    {
        match self {
            Component::Window(w) => w.context.add_child(child),
            Component::Button(b) => b.context.add_child(child),
        }
        proof {
            let s = self.ctx().children();
            assert(s.subrange(0, s.len() - 1) =~= old(self).ctx().children());
        }
    }

    /// The number of nodes in this subtree, or `u64::MAX` where it is not below
    /// that.
    pub fn node_count(&self) -> (r: u64)
        ensures
            r == (if count(*self) < u64::MAX {
                count(*self)
            } else {
                u64::MAX as nat
            }),
        decreases count(*self),
    {
        let children = &self.context().children;
        let ghost s = children@;
        let mut total: u64 = 1;
        let mut i: usize = 0;
        assert(s.subrange(0, 0).len() == 0);
        while i < children.len()
            invariant
                i <= s.len(),
                s == self.ctx().children(),
                *children == self.ctx().children,
                total == (if 1 + forest_count(s.subrange(0, i as int)) < u64::MAX {
                    1 + forest_count(s.subrange(0, i as int))
                } else {
                    u64::MAX as nat
                }),
                count(*self) == 1 + forest_count(s),
            decreases s.len() - i,
        {
            proof {
                let front = s.subrange(0, i + 1);
                assert(front.subrange(0, i as int) =~= s.subrange(0, i as int));
                assert(front[i as int] == s[i as int]);
                lemma_forest_count_prefix(s, i + 1);
            }
            let n = children[i].node_count();
            total = total.saturating_add(n);
            i = i + 1;
        }
        assert(s.subrange(0, i as int) =~= s);
        total
    }

    fn swap_children(&mut self, v: &mut Vec<Component>)
        ensures
            final(v)@ == old(self).ctx().children(),
            final(self).ctx().children() == old(v)@,
            final(self).ctx().rules() == old(self).ctx().rules(),
            final(self).ctx().wf() == old(self).ctx().wf(),
            final(self).ident() == old(self).ident(),
            final(self).component_kind() == old(self).component_kind(),
    {
        match self {
            Component::Window(w) => std::mem::swap(&mut w.context.children, v),
            Component::Button(b) => std::mem::swap(&mut b.context.children, v),
        }
    }

    /// Applies this component's own widget to the surface. A button takes an
    /// identifier on its first render and reuses it on every later one; a
    /// window applies nothing and takes no identifier.
    pub fn render(&mut self, surface: &mut Surface, state: &Vec<Value>) -> (r: Result<
        (),
        RenderError,
    >)
        requires
            old(self).ctx().wf(),
            takes_id(*old(self)) ==> old(surface).next_id < u64::MAX,
        ensures
            final(self).ident() == (if old(self).component_kind() == ComponentKind::Button {
                id_after_render(old(self).ident(), old(surface).next_id)
            } else {
                old(self).ident()
            }),
            final(surface).next_id == (if takes_id(*old(self)) {
                (old(surface).next_id + 1) as u64
            } else {
                old(surface).next_id
            }),
            final(self).component_kind() == old(self).component_kind(),
            final(self).ctx() == old(self).ctx(),
            old(self).component_kind() == ComponentKind::Window ==> *final(self) == *old(self),
            r == node_check(*old(self), state@),
            r is Ok ==> final(surface).log() == old(surface).log() + own_widgets(
                *final(self),
                state@,
            ),
            r is Err ==> final(surface).log() == old(surface).log(),
    {
        match self {
            Component::Window(_) => {
                assert(surface.log() + own_widgets(*self, state@) =~= surface.log());
                Ok(())
            },
            Component::Button(b) => {
                let id = match b.id {
                    Some(i) => i,
                    None => {
                        let i = surface.next_identifier();
                        b.id = Some(i);
                        i
                    },
                };
                assert(surface.log() == old(surface).log());
                match b.context.button_props(state) {
                    Ok(props) => {
                        surface.apply(Widget::Button { id, props });
                        Ok(())
                    },
                    Err(e) => Err(e),
                }
            },
        }
    }

    /// A mutable view of this component's rules and children; the identifier
    /// and the kind stay as they are.
    pub fn context_mut(&mut self) -> (r: &mut Context)
        ensures
            *r == old(self).ctx(),
            final(self).ctx() == *final(r),
            final(self).ident() == old(self).ident(),
            final(self).component_kind() == old(self).component_kind(),
    {
        match self {
            Component::Window(w) => &mut w.context,
            Component::Button(b) => &mut b.context,
        }
    }

    /// Renders this component, then updates its children in declaration
    /// order, depth first; the first failure abandons the pass.
    pub fn update(&mut self, surface: &mut Surface, state: &Vec<Value>) -> (r: Result<
        (),
        RenderError,
    >)
        requires
            tree_wf(*old(self)),
            old(surface).next_id + count(*old(self)) <= u64::MAX,
        ensures
            tree_wf(*final(self)),
            settled(*old(self), *final(self), old(surface).next_id),
            old(surface).next_id <= final(surface).next_id,
            final(surface).next_id <= old(surface).next_id + count(*old(self)),
            r == check_tree(*old(self), state@),
            r is Ok ==> assigned(*final(self)),
            r is Ok ==> final(surface).log() == old(surface).log() + preorder(
                *final(self),
                state@,
            ),
            r is Ok ==> ids_in_preorder(*old(self), *final(self), old(surface).next_id as int),
            r is Err ==> final(surface).log() == old(surface).log() + applied_before_failure(
                *final(self),
                state@,
            ),
            check_tree(*final(self), state@) == r,
            r is Ok ==> final(surface).next_id == old(surface).next_id + fresh(*old(self)),
            old(surface).log().len() <= final(surface).log().len(),
            final(surface).log().subrange(0, old(surface).log().len() as int) == old(surface).log(),
        decreases count(*old(self)),
    {
        let ghost lo = surface.next_id;
        let ghost orig = self.ctx().children();
        proof {
            lemma_forest_wf(orig);
        }
        let rendered = self.render(surface, state);
        let ghost n0 = surface.next_id;
        let ghost base_log = surface.log();
        if rendered.is_err() {
            proof {
                assert(surface.log().subrange(0, surface.log().len() as int) =~= surface.log());
                assert(surface.log() + applied_before_failure(*self, state@) =~= surface.log());
                lemma_settled_refl(*self, lo);
            }
            return rendered;
        }
        let mut rest: Vec<Component> = Vec::new();
        self.swap_children(&mut rest);
        let mut done: Vec<Component> = Vec::new();
        let mut result: Result<(), RenderError> = Ok(());
        assert(orig.subrange(0, 0) =~= Seq::<Component>::empty());
        assert(rest@ =~= orig.subrange(0, orig.len() as int));
        assert(base_log + forest_preorder(done@, state@) =~= base_log);
        assert(base_log.subrange(0, base_log.len() as int) =~= base_log);
        assert(base_log.subrange(0, old(surface).log().len() as int) =~= old(surface).log());
        while rest.len() > 0 && result.is_ok()
            invariant
                done@.len() + rest@.len() == orig.len(),
                rest@ == orig.subrange(done@.len() as int, orig.len() as int),
                forall|j: int| 0 <= j < orig.len() ==> #[trigger] tree_wf(orig[j]),
                forall|j: int|
                    0 <= j < done@.len() ==> #[trigger] settled(orig[j], done@[j], lo)
                        && tree_wf(done@[j]),
                result == forest_check(orig.subrange(0, done@.len() as int), state@),
                result == forest_check(done@, state@),
                result is Err ==> surface.log() == base_log + forest_applied_before_failure(
                    done@,
                    state@,
                ),
                result is Ok ==> forall|j: int| 0 <= j < done@.len() ==> #[trigger] assigned(
                    done@[j],
                ),
                result is Ok ==> surface.log() == base_log + forest_preorder(done@, state@),
                result is Ok ==> surface.next_id == n0 + forest_fresh(
                    orig.subrange(0, done@.len() as int),
                ),
                result is Ok ==> forall|j: int|
                    0 <= j < done@.len() ==> #[trigger] ids_in_preorder(
                        orig[j],
                        done@[j],
                        n0 + forest_fresh(orig.subrange(0, j)),
                    ),
                base_log.len() <= surface.log().len(),
                surface.log().subrange(0, base_log.len() as int) == base_log,
                old(surface).log().len() <= base_log.len(),
                base_log.subrange(0, old(surface).log().len() as int) == old(surface).log(),
                n0 <= surface.next_id,
                surface.next_id <= n0 + forest_count(orig.subrange(0, done@.len() as int)),
                n0 + forest_count(orig) <= u64::MAX,
                lo <= n0,
                n0 <= lo + 1,
                count(*old(self)) == 1 + forest_count(orig),
            decreases rest@.len(),
        {
            let ghost k = done@.len() as int;
            let ghost before = surface.next_id;
            let ghost before_log = surface.log();
            let mut child = rest.remove(0);
            proof {
                assert(child == orig[k]);
                let front = orig.subrange(0, k + 1);
                assert(front.subrange(0, k) =~= orig.subrange(0, k));
                assert(front[k] == orig[k]);
                lemma_forest_count_prefix(orig, k + 1);
            }
            let rc = child.update(surface, state);
            proof {
                assert(surface.log().subrange(0, before_log.len() as int).subrange(
                    0,
                    base_log.len() as int,
                ) =~= surface.log().subrange(0, base_log.len() as int));
            }
            let ghost d0 = done@;
            done.push(child);
            proof {
                assert(done@.subrange(0, k) =~= d0);
                assert(done@[k] == child);
                assert forall|j: int| 0 <= j < k implies done@[j] == d0[j] by {}
                if rc is Err {
                    assert(surface.log() =~= base_log + forest_applied_before_failure(
                        done@,
                        state@,
                    ));
                }
                lemma_settled_lower(orig[k], child, before, lo);
                assert(rest@ =~= orig.subrange(k + 1, orig.len() as int));
            }
            result = rc;
        }
        let ghost k = done@.len() as int;
        let ghost d = done@;
        done.append(&mut rest);
        self.swap_children(&mut done);
        proof {
            assert(surface.log().subrange(0, base_log.len() as int).subrange(
                0,
                old(surface).log().len() as int,
            ) =~= surface.log().subrange(0, old(surface).log().len() as int));
            let ch = self.ctx().children();
            assert(ch =~= d + orig.subrange(k, orig.len() as int));
            lemma_forest_wf(ch);
            lemma_forest_settled(orig, ch, lo);
            lemma_forest_assigned(ch);
            assert forall|j: int| 0 <= j < ch.len() implies #[trigger] tree_wf(ch[j]) by {
                if j < k {
                    assert(ch[j] == d[j]);
                    assert(settled(orig[j], d[j], lo));
                } else {
                    assert(ch[j] == orig[j]);
                }
            }
            assert(forest_wf(ch));
            assert forall|j: int| 0 <= j < orig.len() implies #[trigger] settled(orig[j], ch[j], lo)
                && tree_wf(ch[j]) by {
                if j >= k {
                    assert(ch[j] == orig[j]);
                    lemma_settled_refl(orig[j], lo);
                }
            }
            lemma_forest_count_prefix(orig, k);
            if result is Err {
                lemma_forest_check_prefix_err(orig, k, state@);
                assert(ch.subrange(0, k) =~= d);
                lemma_forest_check_prefix_err(ch, k, state@);
                lemma_forest_applied_prefix_err(ch, k, state@);
                assert(surface.log() =~= old(surface).log() + applied_before_failure(
                    *self,
                    state@,
                ));
            } else {
                assert(orig.subrange(0, k) =~= orig);
                assert(ch =~= d);
                assert forall|j: int| 0 <= j < ch.len() implies #[trigger] assigned(ch[j]) by {
                    assert(assigned(d[j]));
                }
                assert forall|j: int| 0 <= j < orig.len() implies #[trigger] ids_in_preorder(
                    orig[j],
                    ch[j],
                    n0 + forest_fresh(orig.subrange(0, j)),
                ) by {
                    assert(ch[j] == d[j]);
                }
                lemma_forest_ids(orig, ch, n0 as int);
                assert(surface.log() =~= old(surface).log() + preorder(*self, state@));
            }
        }
        result
    }
}

} // verus!
