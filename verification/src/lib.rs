//! A fine-grained reactive view-update engine.
//!
//! A component describes its view as a fragment: a tree of static host nodes with dynamic
//! parts in it. The dynamic parts are text bindings, conditional fragments, repeated
//! fragments and child components; each names the dependency ids of the state it shows. When
//! the component changes its state it says which dependency ids changed, and the engine
//! updates the parts registered under those ids and leaves the rest of the tree alone.
//!
//! The engine works on a [`host::Host`], its own picture of the part of the document that it
//! controls. Everything it does to the host is logged there, and the program that embeds the
//! engine repeats the log on the real document. Events come back as the callbacks that the
//! listeners were attached with; [`controller::Controller::dispatch`] takes them to the
//! component that they belong to.
//!
//! What each operation does is defined in [`fragment::model`] and [`fragment::routing`] as a
//! function from the state before to the state after; the contracts of the operations say
//! that they compute these functions. What holds of the operations in general is proved from
//! the model:
//!
//! - [`fragment::laws`]: an update reaches the parts that depend on what changed and no
//!   others, and leaves the nodes of the others where they are; a conditional mounts and
//!   detaches on transitions only; a repeated block replaces all its fragments and takes the
//!   old ones out of the tree.
//! - [`fragment::seat`] and [`fragment::order`]: a mounted fragment hangs below the parent
//!   of the place where it was mounted, and the new rows of a repeated block stand in front
//!   of its anchor, in the order of the items.
//! - [`fragment::liveness`]: a fragment is in good standing when it has been built and stays
//!   so through every mount and update that succeeds; a fragment in good standing can always
//!   be detached, and the detach restores the place where it was mounted.
//! - [`fragment::symmetry`] and [`fragment::growth`]: a fragment without child components
//!   can always be mounted where it fits, and detached again.
//! - [`fragment::frame`], [`fragment::aside`], [`fragment::exposure`],
//!   [`fragment::ownership`]: what the operations leave alone.
//!
//! No operation panics. What cannot be done is refused with a [`host::model::Failure`], and
//! the contracts say exactly when.

pub mod component;
pub mod controller;
pub mod counter;
pub mod dom;
pub mod fragment;
pub mod host;
pub mod simple;
pub mod util;
