use vgtk::vdom::faults::{has_room_for, is_window, validate_range};
use vgtk::vdom::gtk_state::{
    agreement, build_from, is_container, patch_prefix, show_from, unmount_from, GtkState, State,
};
use vgtk::vdom::handlers::{is_wanted, Handlers};
use vgtk::vdom::placement::{add_child, apply_properties, validate_placement, Fault};
use vgtk::vdom::toolkit::{Lineage, ObjectType, Op, Role, Slot, Toolkit, Widget};
use vgtk::vdom::vnode::{VComponent, VHandler, VNode, VProperty, VWidget};

const LABEL: ObjectType = ObjectType { id: 1, role: Role::Widget };
const BUTTON: ObjectType = ObjectType { id: 2, role: Role::Bin };
const BOX: ObjectType = ObjectType { id: 3, role: Role::Box };
const WINDOW: ObjectType = ObjectType { id: 4, role: Role::Window };
const DIALOG: ObjectType = ObjectType { id: 5, role: Role::Dialog };
const MENU: ObjectType = ObjectType { id: 6, role: Role::Menu };
const MENU_BUTTON: ObjectType = ObjectType { id: 7, role: Role::MenuButton };
const MENU_ITEM: ObjectType = ObjectType { id: 8, role: Role::MenuItem };
const GRID: ObjectType = ObjectType { id: 9, role: Role::Container };
const ENTRY: ObjectType = ObjectType { id: 10, role: Role::Widget };

fn prop(name: &str, setter: u64) -> VProperty {
    VProperty { name: name.to_string(), setter }
}

fn on(name: &str, id: u64, setter: u64) -> VHandler {
    VHandler { name: name.to_string(), id, setter }
}

fn widget(object_type: ObjectType) -> VWidget {
    VWidget {
        object_type,
        constructor: None,
        properties: Vec::new(),
        child_props: Vec::new(),
        handlers: Vec::new(),
        children: Vec::new(),
    }
}

fn node(object_type: ObjectType) -> VNode {
    VNode::Widget(widget(object_type))
}

fn widget_with(object_type: ObjectType, children: Vec<VNode>) -> VWidget {
    let mut w = widget(object_type);
    w.children = children;
    w
}

fn parent_with(mut w: VWidget, children: Vec<VNode>) -> VWidget {
    w.children = children;
    w
}

fn parent_of(object_type: ObjectType, children: Vec<VNode>) -> VNode {
    VNode::Widget(widget_with(object_type, children))
}

fn with_props(object_type: ObjectType, setters: &[u64]) -> VNode {
    let mut w = widget(object_type);
    for s in setters {
        w.properties.push(prop("text", *s));
    }
    VNode::Widget(w)
}

fn component(component_type: u64, setters: &[u64]) -> VNode {
    let mut properties = Vec::new();
    for s in setters {
        properties.push(prop("value", *s));
    }
    VNode::Component(VComponent { component_type, object_type: GRID, properties })
}

fn gtk(state: &State) -> &GtkState {
    match state {
        State::Gtk(g) => g,
        State::Component(_) => panic!("a widget was expected"),
    }
}

fn handles(state: &State) -> Vec<u64> {
    gtk(state).children.iter().map(|c| c.object().handle).collect()
}

fn count(ops: &[Op], pick: fn(&Op) -> bool) -> usize {
    ops.iter().filter(|op| pick(op)).count()
}

fn is_connect(op: &Op) -> bool {
    matches!(op, Op::Connect { .. })
}

fn is_construct(op: &Op) -> bool {
    matches!(op, Op::Construct { .. })
}

fn is_reapplication(op: &Op) -> bool {
    matches!(op, Op::SetProperty { initial: false, .. })
}

fn too_many(role: Role, total: usize) -> Fault {
    Fault::TooManyChildren { role, total }
}

fn set(object: u64, parent: Option<u64>, setter: u64, initial: bool) -> Op {
    Op::SetProperty { object, parent, setter, initial }
}

fn construct(object: u64, object_type: ObjectType) -> Op {
    Op::Construct { object, object_type, constructor: None }
}

fn attach(container: u64, child: u64, slot: Slot) -> Op {
    Op::Attach { container, child, slot }
}

#[test]
fn build_runs_the_steps_in_order() {
    let mut root = widget(BOX);
    root.properties.push(prop("spacing", 10));
    root.handlers.push(on("clicked", 0, 20));
    let mut first = widget(LABEL);
    first.properties.push(prop("label", 11));
    let mut second = widget(LABEL);
    second.child_props.push(prop("center_widget", 12));
    root.children.push(VNode::Widget(first));
    root.children.push(VNode::Widget(second));
    let spec = VNode::Widget(root);

    let mut tk = Toolkit::new();
    assert_eq!(spec.validate_build(), Ok(()));
    assert_eq!(spec.handle_demand(), Some(4));
    let state = State::build(&spec, None, &mut tk);

    assert_eq!(
        tk.take_journal(),
        vec![
            construct(0, BOX),
            set(0, None, 10, true),
            Op::Connect { object: 0, setter: 20, connection: 1 },
            construct(2, LABEL),
            set(2, Some(0), 11, true),
            Op::Show { object: 2 },
            attach(0, 2, Slot::Child),
            construct(3, LABEL),
            Op::Show { object: 3 },
            attach(0, 3, Slot::Center),
            set(3, Some(0), 12, true),
            Op::Show { object: 0 },
        ]
    );
    assert_eq!(tk.next_handle(), 4);
    assert!(tk.journal().is_empty());
    assert_eq!(*state.object(), Widget { handle: 0, object_type: BOX });
    assert_eq!(handles(&state), vec![2, 3]);
    assert_eq!(gtk(&state).handlers.get(&"clicked".to_string(), 0), Some(1));
    assert_eq!(gtk(&state).handlers.len(), 1);
}

#[test]
fn build_uses_the_custom_constructor() {
    let mut w = widget(BUTTON);
    w.constructor = Some(77);
    let mut tk = Toolkit::with_handles_from(5);
    let state = State::build(&VNode::Widget(w), Some(3), &mut tk);
    assert_eq!(
        tk.take_journal(),
        vec![
            Op::Construct { object: 5, object_type: BUTTON, constructor: Some(77) },
            Op::Show { object: 5 },
        ]
    );
    assert_eq!(state.object().handle, 5);
}

#[test]
fn component_is_mounted_and_handed_its_properties() {
    let spec = parent_of(BOX, vec![component(42, &[7, 8])]);
    let mut tk = Toolkit::new();
    let state = State::build(&spec, None, &mut tk);
    assert_eq!(
        tk.take_journal(),
        vec![
            construct(0, BOX),
            Op::Mount { object: 1, component_type: 42, object_type: GRID, parent: Some(0) },
            set(1, Some(0), 7, true),
            set(1, Some(0), 8, true),
            attach(0, 1, Slot::Child),
            Op::Show { object: 0 },
        ]
    );
    match &gtk(&state).children[0] {
        State::Component(c) => {
            assert_eq!(c.component_type, 42);
            assert_eq!(c.object, Widget { handle: 1, object_type: GRID });
        }
        State::Gtk(_) => panic!("a component was expected"),
    }
}

#[test]
fn a_key_bound_twice_is_connected_once() {
    let mut w = widget(BUTTON);
    w.handlers.push(on("clicked", 0, 20));
    w.handlers.push(on("clicked", 0, 21));
    w.handlers.push(on("clicked", 1, 22));
    let mut tk = Toolkit::new();
    let state = State::build(&VNode::Widget(w), None, &mut tk);
    let ops = tk.take_journal();
    assert_eq!(
        ops,
        vec![
            construct(0, BUTTON),
            Op::Connect { object: 0, setter: 20, connection: 1 },
            Op::Connect { object: 0, setter: 22, connection: 2 },
            Op::Show { object: 0 },
        ]
    );
    assert_eq!(gtk(&state).handlers.connections(), vec![1, 2]);
}

#[test]
fn patching_twice_only_reapplies_properties() {
    let mut root = widget(BOX);
    root.properties.push(prop("spacing", 10));
    root.child_props.push(prop("expand", 13));
    root.handlers.push(on("clicked", 0, 20));
    root.children.push(with_props(LABEL, &[11]));
    root.children.push(component(42, &[12]));
    let spec = VNode::Widget(root);

    let mut tk = Toolkit::new();
    let mut state = State::build(&parent_of(BOX, vec![node(ENTRY)]), None, &mut tk);
    tk.take_journal();

    assert_eq!(state.validate_patch(&spec), Ok(()));
    assert!(state.patch(&spec, None, &mut tk));
    let first = tk.take_journal();
    assert!(count(&first, is_construct) == 1 && count(&first, is_connect) == 1);
    let after_first = handles(&state);
    let next = tk.next_handle();

    assert!(state.patch(&spec, None, &mut tk));
    let second = tk.take_journal();
    assert_eq!(
        second,
        vec![
            set(after_first[0], Some(0), 11, false),
            set(after_first[1], Some(0), 12, false),
            set(0, None, 10, false),
            set(0, None, 13, false),
        ]
    );
    assert_eq!(count(&second, is_reapplication), second.len());
    assert_eq!(handles(&state), after_first);
    assert_eq!(tk.next_handle(), next);
}

#[test]
fn type_change_rebuilds_from_the_changed_child() {
    let old = parent_of(
        BOX,
        vec![node(LABEL), parent_of(BUTTON, vec![node(LABEL)]), node(LABEL)],
    );
    let new = parent_of(BOX, vec![with_props(LABEL, &[30]), node(ENTRY), node(LABEL)]);
    let mut tk = Toolkit::new();
    let mut state = State::build(&old, None, &mut tk);
    tk.take_journal();
    assert_eq!(handles(&state), vec![1, 2, 4]);

    assert!(state.patch(&new, None, &mut tk));
    assert_eq!(
        tk.take_journal(),
        vec![
            set(1, Some(0), 30, false),
            Op::Detach { container: 2, child: 3 },
            Op::Detach { container: 0, child: 2 },
            Op::Detach { container: 0, child: 4 },
            construct(5, ENTRY),
            Op::Show { object: 5 },
            attach(0, 5, Slot::Child),
            Op::Show { object: 5 },
            construct(6, LABEL),
            Op::Show { object: 6 },
            attach(0, 6, Slot::Child),
            Op::Show { object: 6 },
        ]
    );
    assert_eq!(handles(&state), vec![1, 5, 6]);
    assert_eq!(gtk(&state).children[1].object().object_type, ENTRY);
}

#[test]
fn kind_change_rebuilds_from_the_changed_child() {
    let old = parent_of(BOX, vec![node(LABEL), component(42, &[])]);
    let new = parent_of(BOX, vec![component(42, &[]), node(LABEL)]);
    let mut tk = Toolkit::new();
    let mut state = State::build(&old, None, &mut tk);
    tk.take_journal();

    assert!(state.patch(&new, None, &mut tk));
    assert_eq!(
        tk.take_journal(),
        vec![
            Op::Detach { container: 0, child: 1 },
            Op::Detach { container: 0, child: 2 },
            Op::Unmount { object: 2 },
            Op::Mount { object: 3, component_type: 42, object_type: GRID, parent: Some(0) },
            attach(0, 3, Slot::Child),
            Op::Show { object: 3 },
            construct(4, LABEL),
            Op::Show { object: 4 },
            attach(0, 4, Slot::Child),
            Op::Show { object: 4 },
        ]
    );
    assert_eq!(handles(&state), vec![3, 4]);
}

#[test]
fn component_of_another_type_is_rebuilt() {
    let mut tk = Toolkit::new();
    let mut state = State::build(&parent_of(BOX, vec![component(42, &[7])]), None, &mut tk);
    tk.take_journal();

    assert!(state.patch(&parent_of(BOX, vec![component(42, &[9])]), None, &mut tk));
    assert_eq!(tk.take_journal(), vec![set(1, Some(0), 9, false)]);

    assert!(state.patch(&parent_of(BOX, vec![component(43, &[9])]), None, &mut tk));
    assert_eq!(
        tk.take_journal(),
        vec![
            Op::Detach { container: 0, child: 1 },
            Op::Unmount { object: 1 },
            Op::Mount { object: 2, component_type: 43, object_type: GRID, parent: Some(0) },
            set(2, Some(0), 9, true),
            attach(0, 2, Slot::Child),
            Op::Show { object: 2 },
        ]
    );
}

#[test]
fn patch_refuses_another_class_or_kind() {
    let mut tk = Toolkit::new();
    let mut state = State::build(&node(LABEL), None, &mut tk);
    tk.take_journal();
    assert!(!state.is_compatible(&node(ENTRY)));
    assert!(!state.patch(&node(ENTRY), None, &mut tk));
    assert!(!state.patch(&component(1, &[]), None, &mut tk));
    assert!(tk.journal().is_empty());
    assert_eq!(state.object().handle, 0);

    let mut comp = State::build(&component(1, &[]), None, &mut tk);
    tk.take_journal();
    assert!(!comp.patch(&node(GRID), None, &mut tk));
    assert!(!comp.patch(&component(2, &[]), None, &mut tk));
    assert!(comp.patch(&component(1, &[5]), Some(9), &mut tk));
    assert_eq!(tk.take_journal(), vec![set(1, Some(9), 5, false)]);
}

#[test]
fn handler_identity_is_preserved() {
    let mut w = widget(BUTTON);
    w.handlers.push(on("clicked", 0, 20));
    let spec = VNode::Widget(w);
    let key = "clicked".to_string();

    let mut tk = Toolkit::new();
    let mut state = State::build(&spec, None, &mut tk);
    let mut all = tk.take_journal();
    let connection = gtk(&state).handlers.get(&key, 0);
    assert_eq!(connection, Some(1));

    assert!(state.patch(&spec, None, &mut tk));
    assert_eq!(gtk(&state).handlers.get(&key, 0), connection);
    all.extend(tk.take_journal());
    assert!(state.patch(&spec, None, &mut tk));
    assert_eq!(gtk(&state).handlers.get(&key, 0), connection);
    all.extend(tk.take_journal());

    assert_eq!(count(&all, is_connect), 1);
    assert_eq!(count(&all, |op| matches!(op, Op::Disconnect { .. })), 0);
}

#[test]
fn handler_removal_disconnects_once() {
    let mut old = widget(BUTTON);
    old.handlers.push(on("clicked", 0, 20));
    old.handlers.push(on("clicked", 1, 21));
    old.handlers.push(on("pressed", 0, 22));
    let mut new = widget(BUTTON);
    new.handlers.push(on("pressed", 0, 22));
    new.handlers.push(on("released", 0, 23));

    let mut tk = Toolkit::new();
    let mut state = State::build(&VNode::Widget(old), None, &mut tk);
    tk.take_journal();
    assert_eq!(gtk(&state).handlers.get(&"clicked".to_string(), 1), Some(2));

    assert!(state.patch(&VNode::Widget(new), None, &mut tk));
    let ops = tk.take_journal();
    assert_eq!(
        ops,
        vec![
            Op::Connect { object: 0, setter: 23, connection: 4 },
            Op::Disconnect { object: 0, connection: 1 },
            Op::Disconnect { object: 0, connection: 2 },
        ]
    );
    let handlers = &gtk(&state).handlers;
    assert_eq!(handlers.get(&"clicked".to_string(), 0), None);
    assert_eq!(handlers.get(&"clicked".to_string(), 1), None);
    assert!(!handlers.has(&"clicked".to_string(), 1));
    assert_eq!(handlers.get(&"pressed".to_string(), 0), Some(3));
    assert_eq!(handlers.get(&"released".to_string(), 0), Some(4));
    assert_eq!(handlers.connections(), vec![3, 4]);
}

#[test]
fn arity_is_enforced() {
    let two = vec![node(LABEL), node(LABEL)];
    let spec = parent_of(BUTTON, two);
    assert_eq!(spec.validate_build(), Err(too_many(Role::Bin, 2)));
    let mut tk = Toolkit::new();
    assert_eq!(State::try_build(&spec, None, &mut tk).err(), Some(too_many(Role::Bin, 2)));
    assert!(tk.journal().is_empty());
    assert_eq!(tk.next_handle(), 0);

    assert_eq!(
        parent_of(MENU_BUTTON, vec![node(MENU), node(MENU)]).validate_build(),
        Err(too_many(Role::MenuButton, 2))
    );
    assert_eq!(
        parent_of(MENU_ITEM, vec![node(MENU), node(MENU)]).validate_build(),
        Err(too_many(Role::MenuItem, 2))
    );
    assert_eq!(
        parent_of(WINDOW, vec![node(LABEL), node(LABEL), node(LABEL)]).validate_build(),
        Err(too_many(Role::Window, 3))
    );
    assert_eq!(parent_of(WINDOW, vec![node(LABEL), node(LABEL)]).validate_build(), Ok(()));
    assert_eq!(
        parent_of(DIALOG, vec![node(LABEL), node(LABEL), node(LABEL)]).validate_build(),
        Ok(())
    );
    assert_eq!(parent_of(LABEL, vec![node(LABEL)]).validate_build(), Err(Fault::NotAContainer));
    assert_eq!(
        parent_of(MENU_ITEM, vec![node(LABEL)]).validate_build(),
        Err(Fault::NotAMenu { child: LABEL })
    );
    assert_eq!(
        parent_of(BOX, vec![node(LABEL), parent_of(BUTTON, vec![node(LABEL), node(LABEL)])])
            .validate_build(),
        Err(too_many(Role::Bin, 2))
    );
}

#[test]
fn arity_is_enforced_when_children_are_added() {
    let mut tk = Toolkit::new();
    let mut state = State::build(&parent_of(BUTTON, vec![node(LABEL)]), None, &mut tk);
    tk.take_journal();
    let spec = parent_of(BUTTON, vec![node(LABEL), node(LABEL)]);
    assert_eq!(state.validate_patch(&spec), Err(too_many(Role::Bin, 2)));
    assert_eq!(state.try_patch(&spec, None, &mut tk), Err(too_many(Role::Bin, 2)));
    assert!(tk.journal().is_empty());
    assert_eq!(handles(&state), vec![1]);
}

#[test]
fn identical_patch_keeps_every_object() {
    let make = || {
        let mut root = widget(WINDOW);
        root.properties.push(prop("title", 10));
        let mut bar = widget(BOX);
        bar.children.push(with_props(BUTTON, &[11]));
        bar.children.push(component(42, &[12]));
        root.children.push(VNode::Widget(bar));
        root.children.push(parent_of(GRID, vec![node(LABEL), node(ENTRY)]));
        VNode::Widget(root)
    };
    let mut tk = Toolkit::new();
    let mut state = State::build(&make(), None, &mut tk);
    tk.take_journal();
    let before = handles(&state);
    let inner: Vec<Vec<u64>> = gtk(&state).children.iter().map(handles).collect();
    assert_eq!(before, vec![1, 4]);
    assert_eq!(inner, vec![vec![2, 3], vec![5, 6]]);
    let next = tk.next_handle();

    assert!(state.patch(&make(), None, &mut tk));
    let ops = tk.take_journal();
    assert_eq!(
        ops,
        vec![set(2, Some(1), 11, false), set(3, Some(1), 12, false), set(0, None, 10, false)]
    );
    assert_eq!(handles(&state), before);
    let inner_after: Vec<Vec<u64>> = gtk(&state).children.iter().map(handles).collect();
    assert_eq!(inner_after, inner);
    assert_eq!(tk.next_handle(), next);
}

#[test]
fn truncation_tears_down_the_extra_children() {
    let old = parent_of(BOX, vec![node(LABEL), node(LABEL), parent_of(BUTTON, vec![node(LABEL)])]);
    let new = parent_of(BOX, vec![with_props(LABEL, &[30])]);
    let mut tk = Toolkit::new();
    let mut state = State::build(&old, None, &mut tk);
    tk.take_journal();
    assert_eq!(handles(&state), vec![1, 2, 3]);

    assert_eq!(state.validate_patch(&new), Ok(()));
    assert!(state.patch(&new, None, &mut tk));
    let ops = tk.take_journal();
    assert_eq!(
        ops,
        vec![
            set(1, Some(0), 30, false),
            Op::Detach { container: 0, child: 2 },
            Op::Detach { container: 3, child: 4 },
            Op::Detach { container: 0, child: 3 },
        ]
    );
    assert_eq!(count(&ops, is_construct), 0);
    assert_eq!(handles(&state), vec![1]);
    assert_eq!(tk.next_handle(), 5);
}

#[test]
fn teardown_releases_the_connections_of_what_it_removes() {
    let mut child = widget(BUTTON);
    child.handlers.push(on("clicked", 0, 20));
    child.handlers.push(on("clicked", 1, 21));
    let old = parent_of(BOX, vec![VNode::Widget(child)]);
    let mut tk = Toolkit::new();
    let mut state = State::build(&old, None, &mut tk);
    tk.take_journal();

    assert!(state.patch(&node(BOX), None, &mut tk));
    assert_eq!(
        tk.take_journal(),
        vec![
            Op::Disconnect { object: 1, connection: 2 },
            Op::Disconnect { object: 1, connection: 3 },
            Op::Detach { container: 0, child: 1 },
        ]
    );
    assert!(gtk(&state).children.is_empty());

    state.unmount(9, &mut tk);
    assert_eq!(tk.take_journal(), vec![Op::Detach { container: 9, child: 0 }]);
}

#[test]
fn appended_children_are_shown_at_the_end() {
    let mut tk = Toolkit::new();
    let mut state = State::build(&parent_of(BOX, vec![node(LABEL)]), None, &mut tk);
    tk.take_journal();
    let new = parent_of(BOX, vec![node(LABEL), node(ENTRY), node(LABEL)]);
    assert!(state.patch(&new, None, &mut tk));
    assert_eq!(
        tk.take_journal(),
        vec![
            construct(2, ENTRY),
            Op::Show { object: 2 },
            attach(0, 2, Slot::Child),
            construct(3, LABEL),
            Op::Show { object: 3 },
            attach(0, 3, Slot::Child),
            Op::Show { object: 2 },
            Op::Show { object: 3 },
        ]
    );
    assert_eq!(handles(&state), vec![1, 2, 3]);
}

#[test]
fn a_widget_that_is_no_container_keeps_out_of_its_children() {
    let mut tk = Toolkit::new();
    let mut state = State::build(&node(LABEL), None, &mut tk);
    tk.take_journal();
    let spec = parent_of(LABEL, vec![node(LABEL)]);
    assert_eq!(state.validate_patch(&spec), Ok(()));
    assert!(state.patch(&spec, None, &mut tk));
    assert!(tk.journal().is_empty());
    assert!(gtk(&state).children.is_empty());
}

#[test]
fn window_title_bar_is_guarded() {
    let mut tk = Toolkit::new();
    let mut both = State::build(&parent_of(WINDOW, vec![node(BOX), node(LABEL)]), None, &mut tk);
    assert_eq!(
        tk.take_journal(),
        vec![
            construct(0, WINDOW),
            construct(1, BOX),
            Op::Show { object: 1 },
            attach(0, 1, Slot::Titlebar),
            construct(2, LABEL),
            Op::Show { object: 2 },
            attach(0, 2, Slot::Child),
            Op::Show { object: 0 },
        ]
    );
    assert_eq!(
        both.validate_patch(&parent_of(WINDOW, vec![node(GRID), node(LABEL)])),
        Err(Fault::TitlebarRemoved)
    );
    assert_eq!(
        both.validate_patch(&parent_of(WINDOW, vec![node(BOX)])),
        Err(Fault::TitlebarRemoved)
    );
    assert_eq!(both.validate_patch(&parent_of(WINDOW, vec![node(BOX), node(ENTRY)])), Ok(()));
    assert_eq!(both.validate_patch(&node(WINDOW)), Ok(()));
    assert_eq!(
        both.try_patch(&parent_of(WINDOW, vec![node(BOX)]), None, &mut tk),
        Err(Fault::TitlebarRemoved)
    );
    assert_eq!(handles(&both), vec![1, 2]);

    let mut one = State::build(&parent_of(DIALOG, vec![node(LABEL)]), None, &mut tk);
    tk.take_journal();
    assert_eq!(
        one.validate_patch(&parent_of(DIALOG, vec![node(LABEL), node(LABEL)])),
        Err(Fault::TitlebarAdded)
    );
    assert_eq!(
        one.try_patch(&parent_of(DIALOG, vec![node(LABEL), node(LABEL)]), None, &mut tk),
        Err(Fault::TitlebarAdded)
    );
    assert!(tk.journal().is_empty());

    let mut single = State::build(&parent_of(WINDOW, vec![node(LABEL)]), None, &mut tk);
    tk.take_journal();
    assert_eq!(
        single.validate_patch(&parent_of(WINDOW, vec![node(LABEL), node(LABEL), node(LABEL)])),
        Err(too_many(Role::Window, 3))
    );
    assert_eq!(single.try_patch(&parent_of(WINDOW, vec![node(ENTRY)]), None, &mut tk), Ok(true));
}

#[test]
fn placement_follows_the_role_of_the_container() {
    let place = |container: ObjectType, index: usize, total: usize, child: &VNode| {
        let mut tk = Toolkit::new();
        let parent = Widget { handle: 100, object_type: container };
        let object = Widget { handle: 200, object_type: child.get_object_type() };
        add_child(&parent, index, total, child, &object, &mut tk);
        tk.take_journal()
    };
    assert_eq!(place(MENU_BUTTON, 0, 1, &node(MENU)), vec![attach(100, 200, Slot::Popup)]);
    assert_eq!(place(MENU_BUTTON, 0, 1, &node(BOX)), vec![attach(100, 200, Slot::Popover)]);
    assert_eq!(place(MENU_ITEM, 0, 1, &node(MENU)), vec![attach(100, 200, Slot::Submenu)]);
    assert_eq!(place(DIALOG, 3, 5, &node(LABEL)), vec![attach(100, 200, Slot::ContentArea)]);
    assert_eq!(place(WINDOW, 0, 2, &node(BOX)), vec![attach(100, 200, Slot::Titlebar)]);
    assert_eq!(place(WINDOW, 1, 2, &node(BOX)), vec![attach(100, 200, Slot::Child)]);
    assert_eq!(place(WINDOW, 0, 1, &node(BOX)), vec![attach(100, 200, Slot::Child)]);
    assert_eq!(place(BUTTON, 0, 1, &node(LABEL)), vec![attach(100, 200, Slot::Child)]);
    assert_eq!(place(MENU, 4, 9, &node(LABEL)), vec![attach(100, 200, Slot::Child)]);
    assert_eq!(place(GRID, 4, 9, &node(LABEL)), vec![attach(100, 200, Slot::Child)]);

    let mut centered = widget(LABEL);
    centered.child_props.push(prop("expand", 1));
    centered.child_props.push(prop("center_widget", 2));
    let centered = VNode::Widget(centered);
    assert!(centered.get_child_prop(&"center_widget".to_string()).is_some());
    assert!(centered.get_child_prop(&"fill".to_string()).is_none());
    assert_eq!(
        place(BOX, 1, 3, &centered),
        vec![
            attach(100, 200, Slot::Center),
            set(200, Some(100), 1, true),
            set(200, Some(100), 2, true),
        ]
    );
    assert_eq!(
        place(GRID, 1, 3, &centered),
        vec![
            attach(100, 200, Slot::Child),
            set(200, Some(100), 1, true),
            set(200, Some(100), 2, true),
        ]
    );
    assert_eq!(place(BOX, 0, 3, &component(1, &[4])), vec![attach(100, 200, Slot::Child)]);
}

#[test]
fn placement_is_validated_by_role() {
    assert_eq!(validate_placement(Role::Widget, 1, LABEL), Err(Fault::NotAContainer));
    assert_eq!(validate_placement(Role::Bin, 1, LABEL), Ok(()));
    assert_eq!(validate_placement(Role::Bin, 2, LABEL), Err(too_many(Role::Bin, 2)));
    assert_eq!(validate_placement(Role::MenuButton, 2, MENU), Err(too_many(Role::MenuButton, 2)));
    assert_eq!(validate_placement(Role::MenuItem, 1, MENU), Ok(()));
    assert_eq!(validate_placement(Role::MenuItem, 1, BOX), Err(Fault::NotAMenu { child: BOX }));
    assert_eq!(validate_placement(Role::MenuItem, 2, BOX), Err(too_many(Role::MenuItem, 2)));
    assert_eq!(validate_placement(Role::Window, 2, LABEL), Ok(()));
    assert_eq!(validate_placement(Role::Window, 3, LABEL), Err(too_many(Role::Window, 3)));
    assert_eq!(validate_placement(Role::Dialog, 30, LABEL), Ok(()));
    assert_eq!(validate_placement(Role::Box, 30, LABEL), Ok(()));
    assert_eq!(validate_placement(Role::Menu, 30, LABEL), Ok(()));
    assert_eq!(validate_placement(Role::Container, 30, LABEL), Ok(()));
}

#[test]
fn role_is_resolved_in_the_order_of_placement() {
    let none = Lineage {
        menu_button: false,
        menu_item: false,
        dialog: false,
        window: false,
        bin: false,
        gtk_box: false,
        menu: false,
        container: false,
    };
    assert_eq!(Role::resolve(&none), Role::Widget);
    assert_eq!(Role::resolve(&Lineage { container: true, ..none }), Role::Container);
    assert_eq!(Role::resolve(&Lineage { container: true, menu: true, ..none }), Role::Menu);
    assert_eq!(Role::resolve(&Lineage { container: true, gtk_box: true, ..none }), Role::Box);
    assert_eq!(Role::resolve(&Lineage { container: true, bin: true, ..none }), Role::Bin);
    assert_eq!(
        Role::resolve(&Lineage { container: true, bin: true, window: true, ..none }),
        Role::Window
    );
    assert_eq!(
        Role::resolve(&Lineage { container: true, bin: true, window: true, dialog: true, ..none }),
        Role::Dialog
    );
    assert_eq!(
        Role::resolve(&Lineage { container: true, bin: true, menu_item: true, ..none }),
        Role::MenuItem
    );
    assert_eq!(
        Role::resolve(&Lineage { container: true, bin: true, menu_button: true, ..none }),
        Role::MenuButton
    );
}

#[test]
fn handles_can_run_out() {
    let spec = parent_of(BOX, vec![node(LABEL), node(LABEL)]);
    assert_eq!(spec.handle_demand(), Some(3));
    let mut tk = Toolkit::with_handles_from(u64::MAX - 2);
    assert!(!tk.room_for(3));
    assert!(tk.room_for(2));
    assert_eq!(State::try_build(&spec, None, &mut tk).err(), Some(Fault::HandlesExhausted));
    assert!(tk.journal().is_empty());

    let mut tk = Toolkit::with_handles_from(u64::MAX - 4);
    let mut state = State::try_build(&spec, None, &mut tk).unwrap();
    assert_eq!(handles(&state), vec![u64::MAX - 3, u64::MAX - 2]);
    assert_eq!(tk.next_handle(), u64::MAX - 1);
    tk.take_journal();
    assert_eq!(state.try_patch(&spec, None, &mut tk), Err(Fault::HandlesExhausted));
    assert!(tk.journal().is_empty());
    assert_eq!(state.try_patch(&node(BOX), None, &mut tk), Ok(true));
    assert_eq!(tk.next_handle(), u64::MAX - 1);
}

#[test]
fn handlers_follow_the_bindings() {
    let mut tk = Toolkit::with_handles_from(10);
    let mut handlers = Handlers::new();
    assert_eq!(handlers.len(), 0);
    let first = vec![on("a", 0, 1), on("b", 0, 2), on("a", 1, 3)];
    handlers.reconcile(7, &first, &mut tk);
    assert_eq!(
        tk.take_journal(),
        vec![
            Op::Connect { object: 7, setter: 1, connection: 10 },
            Op::Connect { object: 7, setter: 2, connection: 11 },
            Op::Connect { object: 7, setter: 3, connection: 12 },
        ]
    );
    assert_eq!(handlers.connections(), vec![10, 11, 12]);

    let second = vec![on("c", 0, 4), on("a", 1, 5), on("c", 0, 6)];
    assert!(is_wanted(&second, &"a".to_string(), 1));
    assert!(!is_wanted(&second, &"a".to_string(), 0));
    handlers.reconcile(7, &second, &mut tk);
    assert_eq!(
        tk.take_journal(),
        vec![
            Op::Connect { object: 7, setter: 4, connection: 13 },
            Op::Disconnect { object: 7, connection: 10 },
            Op::Disconnect { object: 7, connection: 11 },
        ]
    );
    assert_eq!(handlers.connections(), vec![12, 13]);
    assert_eq!(handlers.get(&"a".to_string(), 1), Some(12));
    assert_eq!(handlers.get(&"c".to_string(), 0), Some(13));
    assert_eq!(handlers.get(&"b".to_string(), 0), None);
    assert_eq!(tk.next_handle(), 14);

    handlers.reconcile(7, &Vec::new(), &mut tk);
    assert_eq!(
        tk.take_journal(),
        vec![
            Op::Disconnect { object: 7, connection: 12 },
            Op::Disconnect { object: 7, connection: 13 },
        ]
    );
    assert_eq!(handlers.len(), 0);
}

#[test]
fn the_session_records_each_call() {
    let mut tk = Toolkit::new();
    let w = tk.construct(BUTTON, Some(3));
    let c = tk.mount(42, GRID, Some(w.handle));
    tk.set_property(w.handle, None, 5, true);
    let connection = tk.connect(w.handle, 6);
    tk.attach(w.handle, c.handle, Slot::Child);
    tk.show(w.handle);
    tk.disconnect(w.handle, connection);
    tk.detach(w.handle, c.handle);
    tk.unmount(c.handle);
    assert_eq!(w, Widget { handle: 0, object_type: BUTTON });
    assert_eq!(c, Widget { handle: 1, object_type: GRID });
    assert_eq!(connection, 2);
    assert_eq!(tk.next_handle(), 3);
    assert_eq!(
        tk.journal(),
        &vec![
            Op::Construct { object: 0, object_type: BUTTON, constructor: Some(3) },
            Op::Mount { object: 1, component_type: 42, object_type: GRID, parent: Some(0) },
            set(0, None, 5, true),
            Op::Connect { object: 0, setter: 6, connection: 2 },
            attach(0, 1, Slot::Child),
            Op::Show { object: 0 },
            Op::Disconnect { object: 0, connection: 2 },
            Op::Detach { container: 0, child: 1 },
            Op::Unmount { object: 1 },
        ]
    );
    assert_eq!(tk.take_journal().len(), 9);
    assert!(tk.journal().is_empty());
    assert_eq!(tk.next_handle(), 3);
}

#[test]
fn a_widget_of_another_class_is_not_patched() {
    let mut tk = Toolkit::new();
    let mut label = widget(LABEL);
    label.handlers.push(on("activate", 0, 20));
    let mut state = GtkState::build(&parent_with(label, vec![]), Some(9), &mut tk);
    assert_eq!(
        tk.take_journal(),
        vec![
            construct(0, LABEL),
            Op::Connect { object: 0, setter: 20, connection: 1 },
            Op::Show { object: 0 },
        ]
    );

    let mut entry = widget(ENTRY);
    entry.properties.push(prop("text", 30));
    entry.child_props.push(prop("fill", 31));
    assert_eq!(state.validate_patch(&entry), Ok(()));
    assert!(!state.patch(&entry, Some(9), &mut tk));
    assert!(tk.journal().is_empty());
    assert_eq!(tk.next_handle(), 2);
    assert_eq!(state.object, Widget { handle: 0, object_type: LABEL });
    assert_eq!(state.handlers.get(&"activate".to_string(), 0), Some(1));

    let same_id_other_role = ObjectType { id: LABEL.id, role: Role::Bin };
    assert!(!state.patch(&widget(same_id_other_role), Some(9), &mut tk));
    assert!(tk.journal().is_empty());

    let mut label = widget(LABEL);
    label.properties.push(prop("text", 30));
    label.child_props.push(prop("fill", 31));
    assert!(state.patch(&label, Some(9), &mut tk));
    assert_eq!(
        tk.take_journal(),
        vec![
            set(0, Some(9), 30, false),
            set(0, Some(9), 31, false),
            Op::Disconnect { object: 0, connection: 1 },
        ]
    );
    assert_eq!(state.handlers.len(), 0);

    state.patch_properties(&vec![prop("text", 32)], None, &mut tk);
    state.patch_handlers(&vec![on("activate", 1, 21)], &mut tk);
    assert_eq!(
        tk.take_journal(),
        vec![set(0, None, 32, false), Op::Connect { object: 0, setter: 21, connection: 2 }]
    );
    state.unmount(9, &mut tk);
    assert_eq!(
        tk.take_journal(),
        vec![Op::Disconnect { object: 0, connection: 2 }, Op::Detach { container: 9, child: 0 }]
    );
}

#[test]
fn a_container_of_another_class_keeps_its_children() {
    let mut tk = Toolkit::new();
    let mut state = GtkState::build(&widget_with(BOX, vec![node(LABEL), node(LABEL)]), None, &mut tk);
    tk.take_journal();
    let spec = widget_with(GRID, vec![node(ENTRY)]);
    assert_eq!(state.validate_patch(&spec), Ok(()));
    assert!(!state.patch(&spec, None, &mut tk));
    assert!(tk.journal().is_empty());
    let handles: Vec<u64> = state.children.iter().map(|c| c.object().handle).collect();
    assert_eq!(handles, vec![1, 2]);
    let full = widget_with(BUTTON, vec![node(LABEL), node(LABEL), node(LABEL)]);
    assert_eq!(state.validate_patch(&full), Ok(()));
    assert!(!state.patch(&full, None, &mut tk));
    assert!(tk.journal().is_empty());
}

#[test]
fn children_are_reconciled_step_by_step() {
    let old = vec![node(LABEL), node(BUTTON), node(LABEL)];
    let new = widget_with(BOX, vec![with_props(LABEL, &[5]), node(BUTTON), node(ENTRY), node(LABEL)]);
    let mut tk = Toolkit::new();
    let mut root = match State::build(&parent_of(BOX, old), None, &mut tk) {
        State::Gtk(g) => g,
        State::Component(_) => panic!("a widget was expected"),
    };
    tk.take_journal();
    let object = root.object;

    let k = agreement(&root.children, &new.children);
    assert_eq!(k, 2);
    patch_prefix(&mut root.children, &new, &object, k, &mut tk);
    assert_eq!(tk.take_journal(), vec![set(1, Some(0), 5, false)]);

    unmount_from(&root.children, object.handle, k, &mut tk);
    assert_eq!(tk.take_journal(), vec![Op::Detach { container: 0, child: 3 }]);
    root.children.truncate(k);

    assert_eq!(validate_range(&new, BOX, k), Ok(()));
    build_from(&mut root.children, &new, &object, false, &mut tk);
    assert_eq!(
        tk.take_journal(),
        vec![
            construct(4, ENTRY),
            Op::Show { object: 4 },
            attach(0, 4, Slot::Child),
            construct(5, LABEL),
            Op::Show { object: 5 },
            attach(0, 5, Slot::Child),
        ]
    );
    show_from(&root.children, k, &mut tk);
    assert_eq!(tk.take_journal(), vec![Op::Show { object: 4 }, Op::Show { object: 5 }]);
    let handles: Vec<u64> = root.children.iter().map(|c| c.object().handle).collect();
    assert_eq!(handles, vec![1, 2, 4, 5]);

    root.patch_children(&widget_with(BOX, vec![node(LABEL)]), &mut tk);
    assert_eq!(
        tk.take_journal(),
        vec![
            Op::Detach { container: 0, child: 2 },
            Op::Detach { container: 0, child: 4 },
            Op::Detach { container: 0, child: 5 },
        ]
    );
    assert_eq!(agreement(&root.children, &Vec::new()), 0);
    assert_eq!(agreement(&root.children, &vec![node(ENTRY)]), 0);
    assert_eq!(agreement(&root.children, &vec![node(LABEL), node(LABEL)]), 1);
}

#[test]
fn ranges_are_validated_from_where_they_start() {
    let spec = widget_with(
        BUTTON,
        vec![parent_of(LABEL, vec![node(LABEL)]), node(LABEL)],
    );
    assert_eq!(validate_range(&spec, BUTTON, 0), Err(Fault::NotAContainer));
    assert_eq!(validate_range(&spec, BUTTON, 1), Err(too_many(Role::Bin, 2)));
    assert_eq!(validate_range(&spec, BOX, 1), Ok(()));
    assert_eq!(validate_range(&spec, BUTTON, 2), Ok(()));
    assert_eq!(validate_range(&spec, LABEL, 1), Err(Fault::NotAContainer));
}

#[test]
fn roles_are_told_apart() {
    let roles = [
        Role::Widget,
        Role::MenuButton,
        Role::MenuItem,
        Role::Dialog,
        Role::Window,
        Role::Bin,
        Role::Box,
        Role::Menu,
        Role::Container,
    ];
    let containers: Vec<bool> = roles.iter().map(|r| is_container(*r)).collect();
    let windows: Vec<bool> = roles.iter().map(|r| is_window(*r)).collect();
    assert_eq!(containers, vec![false, true, true, true, true, true, true, true, true]);
    assert_eq!(windows, vec![false, false, false, true, true, false, false, false, false]);
}

#[test]
fn properties_are_applied_in_order() {
    let mut tk = Toolkit::new();
    apply_properties(&vec![prop("a", 1), prop("b", 2), prop("a", 3)], 7, Some(8), true, &mut tk);
    apply_properties(&Vec::new(), 7, None, false, &mut tk);
    apply_properties(&vec![prop("c", 4)], 7, None, false, &mut tk);
    assert_eq!(
        tk.take_journal(),
        vec![
            set(7, Some(8), 1, true),
            set(7, Some(8), 2, true),
            set(7, Some(8), 3, true),
            set(7, None, 4, false),
        ]
    );
    assert_eq!(tk.next_handle(), 0);
}

#[test]
fn demand_counts_objects_and_handlers() {
    let mut root = widget(BOX);
    root.handlers.push(on("a", 0, 1));
    root.handlers.push(on("a", 0, 2));
    let mut child = widget(BUTTON);
    child.handlers.push(on("b", 0, 3));
    child.children.push(component(1, &[4, 5]));
    root.children.push(VNode::Widget(child));
    root.children.push(node(LABEL));
    assert_eq!(root.handle_demand(), Some(7));
    let spec = VNode::Widget(root);
    assert_eq!(spec.handle_demand(), Some(7));
    assert_eq!(component(1, &[4, 5]).handle_demand(), Some(1));
    assert!(has_room_for(&Toolkit::with_handles_from(u64::MAX - 7), &spec));
    assert!(!has_room_for(&Toolkit::with_handles_from(u64::MAX - 6), &spec));

    let mut tk = Toolkit::new();
    State::build(&spec, None, &mut tk);
    assert_eq!(tk.next_handle(), 6);
}

#[test]
fn truncation_of_children_of_the_same_shape_builds_nothing() {
    let mut kept = widget(BOX);
    kept.handlers.push(on("clicked", 0, 20));
    kept.children.push(node(LABEL));
    kept.children.push(component(42, &[]));
    let old = parent_of(GRID, vec![VNode::Widget(kept), node(LABEL), node(BUTTON)]);
    let mut tk = Toolkit::new();
    let mut state = State::build(&old, None, &mut tk);
    tk.take_journal();
    assert_eq!(handles(&state), vec![1, 5, 6]);

    let mut kept = widget(BOX);
    kept.handlers.push(on("pressed", 0, 21));
    kept.children.push(with_props(LABEL, &[30]));
    kept.children.push(component(42, &[31]));
    let new = parent_of(GRID, vec![VNode::Widget(kept)]);
    assert!(state.patch(&new, None, &mut tk));
    let ops = tk.take_journal();
    assert_eq!(
        ops,
        vec![
            set(3, Some(1), 30, false),
            set(4, Some(1), 31, false),
            Op::Connect { object: 1, setter: 21, connection: 7 },
            Op::Disconnect { object: 1, connection: 2 },
            Op::Detach { container: 0, child: 5 },
            Op::Detach { container: 0, child: 6 },
        ]
    );
    assert_eq!(
        count(&ops, |op| matches!(
            op,
            Op::Construct { .. } | Op::Mount { .. } | Op::Attach { .. } | Op::Show { .. }
        )),
        0
    );
    assert_eq!(handles(&state), vec![1]);
    assert_eq!(handles(&gtk(&state).children[0]), vec![3, 4]);
}

#[test]
fn kept_children_are_not_touched_when_later_ones_are_rebuilt() {
    let old = parent_of(
        BOX,
        vec![parent_of(BUTTON, vec![node(LABEL)]), node(LABEL), node(ENTRY), node(LABEL)],
    );
    let new = parent_of(
        BOX,
        vec![parent_of(BUTTON, vec![node(ENTRY)]), node(LABEL), node(LABEL), node(LABEL)],
    );
    let mut tk = Toolkit::new();
    let mut state = State::build(&old, None, &mut tk);
    tk.take_journal();
    assert_eq!(handles(&state), vec![1, 3, 4, 5]);

    assert!(state.patch(&new, None, &mut tk));
    let ops = tk.take_journal();
    let touched = |handle: u64| {
        ops.iter().any(|op| match op {
            Op::Construct { object, .. } | Op::Mount { object, .. } | Op::Unmount { object } => {
                *object == handle
            }
            Op::Attach { child, .. } | Op::Detach { child, .. } => *child == handle,
            _ => false,
        })
    };
    assert!(!touched(1) && !touched(3));
    assert!(touched(2) && touched(4) && touched(5) && touched(6) && touched(7) && touched(8));
    assert_eq!(handles(&state), vec![1, 3, 7, 8]);
    assert_eq!(handles(&gtk(&state).children[0]), vec![6]);
}
