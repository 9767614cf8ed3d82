use ochre::{
    BuildError, Button, ButtonProps, Component, ComponentKind, Context, Evaluator, New, Property,
    PropertyTypeError, RenderError, Surface, Tree, TypeMismatch, Value, ValueKind, Widget, Window,
};

fn button_with_label(label: &str) -> Component {
    let mut b = Component::Button(Button::new());
    b.add_rule("label", Evaluator::Const(Value::Text(label.to_string())));
    b
}

fn label_of(w: &Widget) -> String {
    match w {
        Widget::Button { props, .. } => props.label.clone(),
    }
}

fn props_of(w: &Widget) -> (u64, i64, i64, i64, i64, String) {
    match w {
        Widget::Button { id, props } => {
            (*id, props.x, props.y, props.w, props.h, props.label.clone())
        }
    }
}

#[test]
fn value_recovers_its_own_kind() {
    assert_eq!(Value::Number(3).as_number(), Ok(3));
    assert_eq!(Value::Text("a".to_string()).as_text(), Ok("a".to_string()));
    assert_eq!(Value::Flag(true).as_flag(), Ok(true));
    assert_eq!(Value::Flag(true).kind(), ValueKind::Flag);
}

#[test]
fn value_refuses_another_kind() {
    assert_eq!(
        Value::Text("a".to_string()).as_number(),
        Err(TypeMismatch { expected: ValueKind::Number, actual: ValueKind::Text })
    );
    assert_eq!(
        Value::Number(1).as_text(),
        Err(TypeMismatch { expected: ValueKind::Text, actual: ValueKind::Number })
    );
    assert_eq!(
        Value::Number(1).as_flag(),
        Err(TypeMismatch { expected: ValueKind::Flag, actual: ValueKind::Number })
    );
}

#[test]
fn evaluator_reads_live_state() {
    let state = vec![Value::Number(5), Value::Flag(false)];
    assert!(matches!(Evaluator::State(0).evaluate(&state), Some(Value::Number(5))));
    assert!(matches!(Evaluator::State(1).evaluate(&state), Some(Value::Flag(false))));
    assert!(Evaluator::State(2).evaluate(&state).is_none());
    assert!(matches!(Evaluator::Const(Value::Number(9)).evaluate(&state), Some(Value::Number(9))));
}

#[test]
fn rule_set_twice_keeps_the_second() {
    let mut ctx = Context::new();
    assert!(ctx.get_rule("x").is_none());
    ctx.set_rule("x", Evaluator::Const(Value::Number(1)));
    ctx.set_rule("y", Evaluator::Const(Value::Number(7)));
    ctx.set_rule("x", Evaluator::Const(Value::Number(2)));
    assert!(matches!(ctx.get_rule("x"), Some(Evaluator::Const(Value::Number(2)))));
    assert!(matches!(ctx.get_rule("y"), Some(Evaluator::Const(Value::Number(7)))));
    assert!(ctx.get_rule("w").is_none());
}

#[test]
fn button_without_rules_uses_defaults() {
    let mut b = Component::Button(Button::new());
    let mut surface = Surface::new(0);
    assert!(b.render(&mut surface, &vec![]).is_ok());
    assert_eq!(surface.applied.len(), 1);
    assert_eq!(props_of(&surface.applied[0]), (0, 0, 0, 80, 80, "TODO".to_string()));
}

#[test]
fn resolved_props_without_rules_are_the_defaults() {
    let ctx = Context::new();
    let props: ButtonProps = ctx.button_props(&vec![]).unwrap();
    assert_eq!((props.x, props.y, props.w, props.h), (0, 0, 80, 80));
    assert_eq!(props.label, "TODO");
}

#[test]
fn overrides_replace_defaults() {
    let mut b = Component::Button(Button::new());
    b.add_rule("x", Evaluator::Const(Value::Number(42)));
    b.add_rule("y", Evaluator::Const(Value::Number(-3)));
    b.add_rule("w", Evaluator::Const(Value::Number(120)));
    b.add_rule("h", Evaluator::Const(Value::Number(30)));
    b.add_rule("label", Evaluator::Const(Value::Text("Count".to_string())));
    let mut surface = Surface::new(10);
    assert!(b.render(&mut surface, &vec![]).is_ok());
    assert_eq!(props_of(&surface.applied[0]), (10, 42, -3, 120, 30, "Count".to_string()));
}

#[test]
fn override_is_evaluated_every_frame() {
    let mut b = Component::Button(Button::new());
    b.add_rule("x", Evaluator::State(0));
    let mut surface = Surface::new(0);
    assert!(b.render(&mut surface, &vec![Value::Number(42)]).is_ok());
    assert!(b.render(&mut surface, &vec![Value::Number(42)]).is_ok());
    assert!(b.render(&mut surface, &vec![Value::Number(7)]).is_ok());
    assert_eq!(props_of(&surface.applied[0]).1, 42);
    assert_eq!(props_of(&surface.applied[1]).1, 42);
    assert_eq!(props_of(&surface.applied[2]).1, 7);
}

#[test]
fn text_for_x_is_a_type_error() {
    let mut b = Component::Button(Button::new());
    b.add_rule("x", Evaluator::Const(Value::Text("left".to_string())));
    let mut surface = Surface::new(0);
    let r = b.render(&mut surface, &vec![]);
    assert_eq!(
        r,
        Err(RenderError::PropertyType(PropertyTypeError {
            component_kind: ComponentKind::Button,
            property: Property::X,
            expected: ValueKind::Number,
            actual: ValueKind::Text,
        }))
    );
    assert_eq!(surface.applied.len(), 0);
}

#[test]
fn number_for_label_is_a_type_error() {
    let mut b = Component::Button(Button::new());
    b.add_rule("label", Evaluator::Const(Value::Number(1)));
    let mut surface = Surface::new(0);
    assert_eq!(
        b.render(&mut surface, &vec![]),
        Err(RenderError::PropertyType(PropertyTypeError {
            component_kind: ComponentKind::Button,
            property: Property::Label,
            expected: ValueKind::Text,
            actual: ValueKind::Number,
        }))
    );
}

#[test]
fn missing_state_slot_is_reported() {
    let mut b = Component::Button(Button::new());
    b.add_rule("h", Evaluator::State(3));
    let mut surface = Surface::new(0);
    assert_eq!(
        b.render(&mut surface, &vec![Value::Number(1)]),
        Err(RenderError::UnboundState {
            component_kind: ComponentKind::Button,
            property: Property::H,
        })
    );
}

#[test]
fn identifier_is_kept_across_renders() {
    let mut b = Component::Button(Button::new());
    assert_eq!(b.identifier(), None);
    let mut surface = Surface::new(5);
    b.render(&mut surface, &vec![]).unwrap();
    assert_eq!(b.identifier(), Some(5));
    b.render(&mut surface, &vec![]).unwrap();
    assert_eq!(b.identifier(), Some(5));
    assert_eq!(surface.next_id, 6);
}

#[test]
fn update_visits_in_preorder() {
    let mut root = Component::Window(Window::new());
    let mut a = button_with_label("A");
    a.add_child(button_with_label("A1"));
    a.add_child(button_with_label("A2"));
    let mut b = button_with_label("B");
    b.add_child(button_with_label("B1"));
    let mut c = button_with_label("C");
    c.add_child(button_with_label("C1"));
    root.add_child(a);
    root.add_child(b);
    root.add_child(c);
    let mut surface = Surface::new(0);
    assert!(root.update(&mut surface, &vec![]).is_ok());
    let labels: Vec<String> = surface.applied.iter().map(label_of).collect();
    assert_eq!(labels, vec!["A", "A1", "A2", "B", "B1", "C", "C1"]);
    let ids: Vec<u64> = surface.applied.iter().map(|w| props_of(w).0).collect();
    assert_eq!(ids, vec![0, 1, 2, 3, 4, 5, 6]);
    assert_eq!(root.identifier(), None);
    assert_eq!(surface.next_id, 7);
}

#[test]
fn second_frame_reuses_identifiers() {
    let mut root = Component::Window(Window::new());
    root.add_child(button_with_label("A"));
    root.add_child(button_with_label("B"));
    let mut surface = Surface::new(0);
    root.update(&mut surface, &vec![]).unwrap();
    let first = surface.take_applied();
    root.update(&mut surface, &vec![]).unwrap();
    let second = surface.take_applied();
    assert_eq!(first.len(), 2);
    assert_eq!(second.len(), 2);
    for (x, y) in first.iter().zip(second.iter()) {
        assert_eq!(props_of(x).0, props_of(y).0);
    }
    assert_eq!(surface.next_id, 2);
}

#[test]
fn first_failure_stops_the_pass() {
    let mut root = Component::Window(Window::new());
    root.add_child(button_with_label("A"));
    let mut bad = Component::Button(Button::new());
    bad.add_rule("y", Evaluator::Const(Value::Flag(true)));
    root.add_child(bad);
    root.add_child(button_with_label("C"));
    let mut surface = Surface::new(0);
    let r = root.update(&mut surface, &vec![]);
    assert_eq!(
        r,
        Err(RenderError::PropertyType(PropertyTypeError {
            component_kind: ComponentKind::Button,
            property: Property::Y,
            expected: ValueKind::Number,
            actual: ValueKind::Flag,
        }))
    );
    let labels: Vec<String> = surface.applied.iter().map(label_of).collect();
    assert_eq!(labels, vec!["A"]);
}

#[test]
fn tree_needs_a_window_root() {
    let r = Tree::build(Component::Button(Button::new()));
    assert!(matches!(r, Err(BuildError::UnsupportedRootKind(ComponentKind::Button))));
    let mut root = Component::Window(<Window as New>::new());
    root.add_child(button_with_label("Go"));
    let mut tree = Tree::build(root).unwrap();
    let mut surface = Surface::new(0);
    tree.tick(&mut surface, &vec![]).unwrap();
    assert_eq!(surface.applied.len(), 1);
    assert_eq!(tree.root().kind(), ComponentKind::Window);
    assert_eq!(tree.root().context().children_len(), 1);
}

#[test]
fn allocator_counts_up() {
    let mut s = Surface::new(3);
    assert_eq!(s.next_identifier(), 3);
    assert_eq!(s.next_identifier(), 4);
    let props = Context::new().button_props(&vec![]).unwrap();
    s.apply(Widget::Button { id: 3, props });
    assert_eq!(s.take_applied().len(), 1);
    assert_eq!(s.applied.len(), 0);
    assert_eq!(s.next_id, 5);
}

#[test]
fn property_names() {
    assert_eq!(Property::X.name(), "x");
    assert_eq!(Property::Label.name(), "label");
    let _ = <Button as New>::new();
}

#[test]
fn node_count_counts_every_node() {
    let mut root = Component::Window(Window::new());
    assert_eq!(root.node_count(), 1);
    let mut a = button_with_label("A");
    a.add_child(button_with_label("A1"));
    root.add_child(a);
    root.add_child(button_with_label("B"));
    assert_eq!(root.node_count(), 4);
}

#[test]
fn window_renders_nothing_of_its_own() {
    let mut w = Component::Window(Window::new());
    w.add_rule("x", Evaluator::Const(Value::Text("ignored".to_string())));
    let mut surface = Surface::new(4);
    assert!(w.render(&mut surface, &vec![]).is_ok());
    assert!(w.update(&mut surface, &vec![]).is_ok());
    assert_eq!(surface.applied.len(), 0);
    assert_eq!(surface.next_id, 4);
    assert_eq!(w.identifier(), None);
}

#[test]
fn context_mut_edits_rules_in_place() {
    let mut b = Component::Button(Button::new());
    b.context_mut().set_rule("w", Evaluator::Const(Value::Number(33)));
    b.context_mut().add_child(button_with_label("inner"));
    assert_eq!(b.context().children_len(), 1);
    let mut surface = Surface::new(0);
    b.update(&mut surface, &vec![]).unwrap();
    assert_eq!(props_of(&surface.applied[0]).3, 33);
    assert_eq!(label_of(&surface.applied[1]), "inner");
}

#[test]
fn held_identifiers_are_skipped_by_the_allocator() {
    let mut root = Component::Window(Window::new());
    let mut a = button_with_label("A");
    let mut surface = Surface::new(10);
    a.render(&mut surface, &vec![]).unwrap();
    root.add_child(a);
    root.add_child(button_with_label("B"));
    root.add_child(button_with_label("C"));
    root.update(&mut surface, &vec![]).unwrap();
    let ids: Vec<u64> = surface.applied.iter().skip(1).map(|w| props_of(w).0).collect();
    assert_eq!(ids, vec![10, 11, 12]);
    assert_eq!(surface.next_id, 13);
}
