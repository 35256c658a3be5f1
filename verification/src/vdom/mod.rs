//! The reconciliation engine: building a live widget tree from a description
//! and patching it when the description changes.
//!
//! A description ([`vnode`]) is a tree of widgets and nested components. Its
//! live counterpart ([`gtk_state`]) holds, for each widget, the toolkit
//! object that was built for it, the handlers connected to that object, and
//! the live children, each at the index of its description.
//!
//! The engine never touches a widget itself. It works on a session with the
//! toolkit ([`toolkit`]), which hands out the handles by which objects and
//! connections are known, and records in a journal every primitive call that
//! has to be made, in order. Whoever owns the widgets takes the journal and
//! carries it out. Building and patching are functions of the description,
//! the live tree and the next free handle, and what they return and record
//! is stated exactly ([`model`]); what
//! follows from that for every description is proved in [`laws`],
//! [`handlers`], [`handles`] and [`ownership`].
//!
//! A description can be at odds with the widgets that it names: a label with
//! children, a window with three. Such a description has no live tree.
//! [`faults`] tells beforehand whether a build or a patch would meet a fault,
//! and the functions that build and patch take only descriptions that are
//! free of them.

pub mod faults;
pub mod gtk_state;
pub mod handlers;
pub mod handles;
pub mod laws;
pub mod model;
pub mod ownership;
pub mod placement;
pub mod toolkit;
pub mod vnode;
