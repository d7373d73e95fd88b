//! The error surfaced to transport integrations: every failure of a handler
//! call is carried through as one wrapped kind.

use vstd::prelude::*;

verus! {

/// An error from processing one incoming message.
#[derive(Debug)]
pub enum BotError<E> {
    /// The transport handler failed.
    Handler(E),
}

impl<E> From<E> for BotError<E> {
    fn from(err: E) -> (r: Self)
        ensures
            r == BotError::<E>::Handler(err),
    {
        BotError::Handler(err)
    }
}

impl<E> vstd::std_specs::convert::FromSpecImpl<E> for BotError<E> {
    open spec fn obeys_from_spec() -> bool {
        true
    }

    open spec fn from_spec(v: E) -> Self {
        BotError::Handler(v)
    }
}

} // verus!
