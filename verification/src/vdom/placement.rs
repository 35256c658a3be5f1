//! How a child is placed in its container, by the container's role; and how
//! properties are applied.

use vstd::prelude::*;

use crate::vdom::toolkit::{ObjectType, Op, Role, Slot, Toolkit, Widget};
use crate::vdom::vnode::{center_name, VNode, VProperty};

verus! {

/// Why a description cannot be rendered onto the toolkit's widgets. Each is
/// a mistake in the description itself: there is no live tree that would
/// stand for it.
#[derive(Clone, Copy, Debug, PartialEq, Eq, Structural)]
pub enum Fault {
    /// A widget that is no container is described with children.
    NotAContainer,
    /// A container of this role is described with `total` children, more
    /// than the role admits.
    TooManyChildren { role: Role, total: usize },
    /// A menu item is described with a child of this class, which is no
    /// menu.
    NotAMenu { child: ObjectType },
    /// A window that has a title bar and a main widget would lose one of
    /// them and keep the other.
    TitlebarRemoved,
    /// A window that has its main widget would get a second child.
    TitlebarAdded,
    /// The session cannot hand out as many handles as the description may
    /// take.
    HandlesExhausted,
}

/// One application of each property's setter to the object, in order.
pub open spec fn applied(props: Seq<VProperty>, object: u64, parent: Option<u64>, initial: bool) -> Seq<
    Op,
> {
    Seq::new(
        props.len(),
        |i: int| Op::SetProperty { object, parent, setter: props[i].setter, initial },
    )
}

/// Applies each property's setter to the object, in order. `initial` tells
/// the object's first application of properties from a later one; `parent`
/// is handed to every setter, since some need to know whether there is one.
pub fn apply_properties(
    props: &Vec<VProperty>,
    object: u64,
    parent: Option<u64>,
    initial: bool,
    tk: &mut Toolkit,
)
    ensures
        final(tk)@ == old(tk)@ + applied(props@, object, parent, initial),
        final(tk).next() == old(tk).next(),
{
    let ghost journal = tk@;
    let mut i: usize = 0;
    assert(tk@ =~= journal + applied(props@.take(0), object, parent, initial));
    while i < props.len()
        invariant
            i <= props.len(),
            tk@ == journal + applied(props@.take(i as int), object, parent, initial),
            tk.next() == old(tk).next(),
        decreases props.len() - i,
    {
        tk.set_property(object, parent, props[i].setter, initial);
        assert(tk@ =~= journal + applied(props@.take(i + 1), object, parent, initial));
        i = i + 1;
    }
    assert(props@.take(i as int) =~= props@);
}

/// What forbids a container of the given role to take a child of the given
/// class as one of `total` children, if anything does.
pub open spec fn placement_fault(role: Role, total: nat, child: ObjectType) -> Option<Fault> {
    match role {
        Role::Widget => Some(Fault::NotAContainer),
        Role::MenuButton | Role::Bin => if total > 1 {
            Some(Fault::TooManyChildren { role, total: total as usize })
        } else {
            None
        },
        Role::MenuItem => if total > 1 {
            Some(Fault::TooManyChildren { role, total: total as usize })
        } else if !child.role.is_menu() {
            Some(Fault::NotAMenu { child })
        } else {
            None
        },
        Role::Window => if total > 2 {
            Some(Fault::TooManyChildren { role, total: total as usize })
        } else {
            None
        },
        Role::Dialog | Role::Box | Role::Menu | Role::Container => None,
    }
}

/// The slot through which a container of the given role takes the child at
/// `index` of `total`. `centered` says whether the child asks for the centre
/// of a box.
pub open spec fn slot_for(role: Role, index: nat, total: nat, child: ObjectType, centered: bool) -> Slot {
    match role {
        Role::MenuButton => if child.role.is_menu() {
            Slot::Popup
        } else {
            Slot::Popover
        },
        Role::MenuItem => Slot::Submenu,
        Role::Dialog => Slot::ContentArea,
        Role::Window => if total == 2 && index == 0 {
            Slot::Titlebar
        } else {
            Slot::Child
        },
        Role::Box => if centered {
            Slot::Center
        } else {
            Slot::Child
        },
        Role::Widget | Role::Bin | Role::Menu | Role::Container => Slot::Child,
    }
}

/// The calls that place a child in its container: it is attached through
/// the slot that the container's role gives it, and then each of its child
/// properties is applied to it for the first time.
pub open spec fn placed(container: Widget, index: nat, total: nat, child_spec: VNode, child: Widget) -> Seq<
    Op,
> {
    seq![
        Op::Attach {
            container: container.handle,
            child: child.handle,
            slot: slot_for(
                container.object_type.role,
                index,
                total,
                child.object_type,
                child_spec.is_centered(),
            ),
        },
    ] + applied(child_spec.child_props(), child.handle, Some(container.handle), true)
}

/// Tells whether a container of the given role can take a child of the
/// given class as one of `total` children, and if not, why.
pub fn validate_placement(role: Role, total: usize, child: ObjectType) -> (r: Result<(), Fault>)
    ensures
        r is Ok <==> placement_fault(role, total as nat, child) is None,
        r is Err ==> placement_fault(role, total as nat, child) == Some(r->Err_0),
{
    match role {
        Role::Widget => Err(Fault::NotAContainer),
        Role::MenuButton | Role::Bin => if total > 1 {
            Err(Fault::TooManyChildren { role, total })
        } else {
            Ok(())
        },
        Role::MenuItem => if total > 1 {
            Err(Fault::TooManyChildren { role, total })
        } else {
            match child.role {
                Role::Menu => Ok(()),
                _ => Err(Fault::NotAMenu { child }),
            }
        },
        Role::Window => if total > 2 {
            Err(Fault::TooManyChildren { role, total })
        } else {
            Ok(())
        },
        Role::Dialog | Role::Box | Role::Menu | Role::Container => Ok(()),
    }
}

/// Makes the freshly built `child` a child of `container` at position
/// `index` of `total`, in the way that the container's role asks for, and
/// applies the child's child properties.
pub fn add_child(
    container: &Widget,
    index: usize,
    total: usize,
    child_spec: &VNode,
    child: &Widget,
    tk: &mut Toolkit,
)
    requires
        placement_fault(container.object_type.role, total as nat, child.object_type) is None,
    ensures
        final(tk)@ == old(tk)@ + placed(*container, index as nat, total as nat, *child_spec, *child),
        final(tk).next() == old(tk).next(),
{
    let ghost journal = tk@;
    let slot = match container.object_type.role {
        Role::MenuButton => match child.object_type.role {
            Role::Menu => Slot::Popup,
            _ => Slot::Popover,
        },
        Role::MenuItem => Slot::Submenu,
        Role::Dialog => Slot::ContentArea,
        Role::Window => if total == 2 && index == 0 {
            Slot::Titlebar
        } else {
            Slot::Child
        },
        Role::Box => {
            let key = "center_widget".to_owned();
            if child_spec.get_child_prop(&key).is_some() {
                Slot::Center
            } else {
                Slot::Child
            }
        },
        Role::Widget | Role::Bin | Role::Menu | Role::Container => Slot::Child,
    };
    tk.attach(container.handle, child.handle, slot);
    match child_spec {
        VNode::Widget(w) => {
            apply_properties(&w.child_props, child.handle, Some(container.handle), true, tk);
        },
        VNode::Component(_) => {
            assert(applied(child_spec.child_props(), child.handle, Some(container.handle), true)
                =~= Seq::<Op>::empty());
        },
    }
    assert(tk@ =~= journal + placed(
        *container,
        index as nat,
        total as nat,
        *child_spec,
        *child,
    ));
}

} // verus!
