//! Interval tree clocks: a causality-tracking primitive for systems whose
//! set of participants changes dynamically. An identity tree says which
//! replica may record events in which region of an abstract ownership
//! space; an event tree is a delta-encoded counter tree recording causal
//! history. Identities can be split in two and later recombined; event
//! trees record new events under a given identity.

pub mod event;
pub mod id;

pub use event::EvView;
pub use event::Event;
pub use id::IdView;
pub use id::Ident;
pub use id::ItcError;

use std::rc::Rc;
use vstd::prelude::*;

verus! {

/// Relies on std's `Rc::clone`: the clone is another handle to the same
/// allocation, so it carries the same value as the original.
#[verifier::external_body]
pub(crate) fn rc_dup<T>(v: &Rc<T>) -> (r: Rc<T>)
    ensures
        r == *v,
{
    Rc::clone(v)
}

} // verus!
