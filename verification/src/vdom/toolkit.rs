//! The toolkit as the engine sees it: classes and their roles, live objects,
//! and a session that records the calls asked of the toolkit.

use vstd::prelude::*;

verus! {

/// How a widget class takes children. A class has the first role in this
/// order that it inherits from; `Widget` is a class that takes none.
#[derive(Clone, Copy, Debug, PartialEq, Eq, Structural)]
pub enum Role {
    /// Not a container.
    Widget,
    /// One child: a menu becomes the popup, anything else the popover.
    MenuButton,
    /// One child, which must be a menu: the submenu.
    MenuItem,
    /// A window whose children go into its content area.
    Dialog,
    /// One child, or a title bar followed by one child.
    Window,
    /// One child.
    Bin,
    /// Any number of children, one of which may be centred.
    Box,
    /// A menu: any number of children, and itself the child that
    /// `MenuButton` and `MenuItem` single out.
    Menu,
    /// Any number of children.
    Container,
}

/// Which ancestors a widget class has among those that decide its role.
#[derive(Clone, Copy, Debug, PartialEq, Eq, Structural)]
pub struct Lineage {
    pub menu_button: bool,
    pub menu_item: bool,
    pub dialog: bool,
    pub window: bool,
    pub bin: bool,
    pub gtk_box: bool,
    pub menu: bool,
    pub container: bool,
}

impl Role {
    /// Whether objects of this role can hold children at all.
    pub open spec fn is_container(self) -> bool {
        self != Role::Widget
    }

    /// Whether objects of this role are windows (a dialog is one).
    pub open spec fn is_window(self) -> bool {
        self == Role::Window || self == Role::Dialog
    }

    /// Whether an object of this role is a menu.
    pub open spec fn is_menu(self) -> bool {
        self == Role::Menu
    }

    /// The largest number of children a container of this role admits, if it
    /// is bounded.
    pub open spec fn capacity(self) -> Option<nat> {
        match self {
            Role::Widget => Some(0nat),
            Role::MenuButton | Role::MenuItem | Role::Bin => Some(1nat),
            Role::Window => Some(2nat),
            Role::Dialog | Role::Box | Role::Menu | Role::Container => None,
        }
    }

    /// The role of a class with the given ancestors.
    pub open spec fn of_lineage(l: Lineage) -> Role {
        if l.menu_button {
            Role::MenuButton
        } else if l.menu_item {
            Role::MenuItem
        } else if l.dialog {
            Role::Dialog
        } else if l.window {
            Role::Window
        } else if l.bin {
            Role::Bin
        } else if l.gtk_box {
            Role::Box
        } else if l.menu {
            Role::Menu
        } else if l.container {
            Role::Container
        } else {
            Role::Widget
        }
    }

    /// Resolves the role of a widget class from its ancestors, once per
    /// class: the tests are made in the order in which a child is placed.
    pub fn resolve(l: &Lineage) -> (role: Role)
        ensures
            role == Role::of_lineage(*l),
    {
        if l.menu_button {
            Role::MenuButton
        } else if l.menu_item {
            Role::MenuItem
        } else if l.dialog {
            Role::Dialog
        } else if l.window {
            Role::Window
        } else if l.bin {
            Role::Bin
        } else if l.gtk_box {
            Role::Box
        } else if l.menu {
            Role::Menu
        } else if l.container {
            Role::Container
        } else {
            Role::Widget
        }
    }
}

/// A widget class: its identifier in the toolkit's type system and the role
/// resolved for it. Two classes are the same when both agree.
#[derive(Clone, Copy, Debug, PartialEq, Eq, Structural)]
pub struct ObjectType {
    pub id: u64,
    pub role: Role,
}

/// A live toolkit object: the handle it was given when it was constructed
/// and its class.
#[derive(Clone, Copy, Debug, PartialEq, Eq, Structural)]
pub struct Widget {
    pub handle: u64,
    pub object_type: ObjectType,
}

/// The relationship through which a child is attached to its container.
#[derive(Clone, Copy, Debug, PartialEq, Eq, Structural)]
pub enum Slot {
    /// The popup menu of a menu button.
    Popup,
    /// The popover of a menu button.
    Popover,
    /// The submenu of a menu item.
    Submenu,
    /// The content area of a dialog.
    ContentArea,
    /// The title bar of a window.
    Titlebar,
    /// The centre widget of a box.
    Center,
    /// The container's ordinary list of children.
    Child,
}

/// One call of a toolkit primitive.
#[derive(Clone, Copy, Debug, PartialEq, Eq)]
pub enum Op {
    /// Instantiate an object of a class, through the custom constructor if
    /// one is named, and know it by `object` from now on.
    Construct { object: u64, object_type: ObjectType, constructor: Option<u64> },
    /// Start a nested component of the given type inside `parent`, and know
    /// its root object, which is of the given class, by `object` from now
    /// on.
    Mount { object: u64, component_type: u64, object_type: ObjectType, parent: Option<u64> },
    /// Stop the nested component whose root object is `object`.
    Unmount { object: u64 },
    /// Apply a property setter to an object; `initial` tells the object's
    /// first application from a later one.
    SetProperty { object: u64, parent: Option<u64>, setter: u64, initial: bool },
    /// Connect a handler to an object, and know the connection by
    /// `connection` from now on.
    Connect { object: u64, setter: u64, connection: u64 },
    /// Release a connection made on an object.
    Disconnect { object: u64, connection: u64 },
    /// Make `child` a child of `container` through the given slot.
    Attach { container: u64, child: u64, slot: Slot },
    /// Remove `child` from `container`.
    Detach { container: u64, child: u64 },
    /// Make an object visible.
    Show { object: u64 },
}

/// A session with the widget toolkit. It hands out the handles by which
/// objects and connections are known and keeps a journal of the primitive
/// calls asked of the toolkit, in the order in which they have to happen.
pub struct Toolkit {
    next: u64,
    journal: Vec<Op>,
}

impl View for Toolkit {
    type V = Seq<Op>;

    /// The journal: every call recorded since the session began or the
    /// journal was last taken.
    closed spec fn view(&self) -> Seq<Op> {
        self.journal@
    }
}

impl Toolkit {
    /// The next handle that will be handed out.
    pub closed spec fn next(&self) -> nat {
        self.next as nat
    }

    /// Whether `n` more handles can be handed out.
    pub open spec fn has_room(&self, n: nat) -> bool {
        self.next() + n <= u64::MAX
    }

    /// A session in which nothing has happened yet.
    pub fn new() -> (tk: Toolkit)
        ensures
            tk@ == Seq::<Op>::empty(),
            tk.next() == 0,
    {
        Toolkit { next: 0, journal: Vec::new() }
    }

    /// A session in which nothing has happened yet and whose handles begin
    /// at `first`: for going on where another session left off.
    pub fn with_handles_from(first: u64) -> (tk: Toolkit)
        ensures
            tk@ == Seq::<Op>::empty(),
            tk.next() == first,
    {
        Toolkit { next: first, journal: Vec::new() }
    }

    /// The next handle that will be handed out.
    pub fn next_handle(&self) -> (h: u64)
        ensures
            h == self.next(),
    {
        self.next
    }

    /// The calls recorded since the journal was last taken.
    pub fn journal(&self) -> (ops: &Vec<Op>)
        ensures
            ops@ == self@,
    {
        &self.journal
    }

    /// Whether `n` more handles can be handed out.
    pub fn room_for(&self, n: u64) -> (b: bool)
        ensures
            b == self.has_room(n as nat),
    {
        self.next <= u64::MAX - n
    }

    /// Hands the journal over to be carried out, and starts an empty one.
    /// Handles already given stay taken.
    pub fn take_journal(&mut self) -> (ops: Vec<Op>)
        ensures
            ops@ == old(self)@,
            final(self)@ == Seq::<Op>::empty(),
            final(self).next() == old(self).next(),
    {
        let mut ops: Vec<Op> = Vec::new();
        std::mem::swap(&mut ops, &mut self.journal);
        ops
    }

    fn fresh(&mut self) -> (h: u64)
        requires
            old(self).has_room(1),
        ensures
            h == old(self).next(),
            final(self).next() == old(self).next() + 1,
            final(self)@ == old(self)@,
    {
        let h: u64 = self.next;
        self.next = self.next + 1;
        h
    }

    fn record(&mut self, op: Op)
        ensures
            final(self)@ == old(self)@.push(op),
            final(self).next() == old(self).next(),
    {
        self.journal.push(op);
    }

    /// Instantiates an object of the given class.
    pub fn construct(&mut self, object_type: ObjectType, constructor: Option<u64>) -> (w: Widget)
        requires
            old(self).has_room(1),
        ensures
            w == (Widget { handle: old(self).next() as u64, object_type }),
            final(self).next() == old(self).next() + 1,
            final(self)@ == old(self)@.push(
                Op::Construct { object: w.handle, object_type, constructor },
            ),
    {
        let handle: u64 = self.fresh();
        self.record(Op::Construct { object: handle, object_type, constructor });
        Widget { handle, object_type }
    }

    /// Starts a nested component whose root object has the given class.
    pub fn mount(&mut self, component_type: u64, object_type: ObjectType, parent: Option<u64>) -> (w:
        Widget)
        requires
            old(self).has_room(1),
        ensures
            w == (Widget { handle: old(self).next() as u64, object_type }),
            final(self).next() == old(self).next() + 1,
            final(self)@ == old(self)@.push(
                Op::Mount { object: w.handle, component_type, object_type, parent },
            ),
    {
        let handle: u64 = self.fresh();
        self.record(Op::Mount { object: handle, component_type, object_type, parent });
        Widget { handle, object_type }
    }

    /// Stops the nested component whose root object is `object`.
    pub fn unmount(&mut self, object: u64)
        ensures
            final(self).next() == old(self).next(),
            final(self)@ == old(self)@.push(Op::Unmount { object }),
    {
        self.record(Op::Unmount { object });
    }

    /// Applies a property setter to an object.
    pub fn set_property(&mut self, object: u64, parent: Option<u64>, setter: u64, initial: bool)
        ensures
            final(self).next() == old(self).next(),
            final(self)@ == old(self)@.push(Op::SetProperty { object, parent, setter, initial }),
    {
        self.record(Op::SetProperty { object, parent, setter, initial });
    }

    /// Connects a handler to an object and returns the connection's handle.
    pub fn connect(&mut self, object: u64, setter: u64) -> (connection: u64)
        requires
            old(self).has_room(1),
        ensures
            connection == old(self).next(),
            final(self).next() == old(self).next() + 1,
            final(self)@ == old(self)@.push(Op::Connect { object, setter, connection }),
    {
        let connection: u64 = self.fresh();
        self.record(Op::Connect { object, setter, connection });
        connection
    }

    /// Releases a connection.
    pub fn disconnect(&mut self, object: u64, connection: u64)
        ensures
            final(self).next() == old(self).next(),
            final(self)@ == old(self)@.push(Op::Disconnect { object, connection }),
    {
        self.record(Op::Disconnect { object, connection });
    }

    /// Attaches a child to its container through a slot.
    pub fn attach(&mut self, container: u64, child: u64, slot: Slot)
        ensures
            final(self).next() == old(self).next(),
            final(self)@ == old(self)@.push(Op::Attach { container, child, slot }),
    {
        self.record(Op::Attach { container, child, slot });
    }

    /// Removes a child from its container.
    pub fn detach(&mut self, container: u64, child: u64)
        ensures
            final(self).next() == old(self).next(),
            final(self)@ == old(self)@.push(Op::Detach { container, child }),
    {
        self.record(Op::Detach { container, child });
    }

    /// Makes an object visible.
    pub fn show(&mut self, object: u64)
        ensures
            final(self).next() == old(self).next(),
            final(self)@ == old(self)@.push(Op::Show { object }),
    {
        self.record(Op::Show { object });
    }
}

} // verus!
