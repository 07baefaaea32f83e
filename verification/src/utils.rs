//! Small utilities around the generators.

use vstd::prelude::*;

verus! {

/// A buffer that gathers messages so that they can be handed out and
/// printed in one piece later, keeping output from interleaving.
pub struct Pod(Vec<String>);

impl Pod {
    /// The messages gathered so far.
    pub closed spec fn messages(&self) -> Seq<String> {
        self.0@
    }

    /// An empty buffer.
    pub fn new() -> (r: Self)
        ensures
            r.messages() == Seq::<String>::empty(),
    {
        Pod(Vec::new())
    }

    /// Appends one message.
    pub fn push(&mut self, value: String)
        ensures
            final(self).messages() == old(self).messages().push(value),
    {
        self.0.push(value);
    }

    /// Hands the gathered messages out, consuming the buffer.
    pub fn into_messages(self) -> (r: Vec<String>)
        ensures
            r@ == self.messages(),
    {
        self.0
    }
}

} // verus!
