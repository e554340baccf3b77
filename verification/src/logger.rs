//! An append-only log sink: the pipeline appends progress lines, the caller
//! drains them. An explicit value handed into the pipeline call, so the core
//! stays a pure function with logging as a side channel.

use vstd::prelude::*;

verus! {

/// An append-only list of log messages.
pub struct Logger {
    pub messages: Vec<String>,
}

impl Logger {
    /// An empty log.
    pub fn new() -> (l: Logger)
        ensures
            l.messages@.len() == 0,
    {
        Logger { messages: Vec::new() }
    }

    /// Appends one message; everything already logged stays as it was.
    pub fn log(&mut self, message: String)
        ensures
            final(self).messages@ == old(self).messages@.push(message),
    {
        self.messages.push(message);
    }

    /// A copy of every message logged so far, in order.
    pub fn get_messages(&self) -> (msgs: Vec<String>)
        ensures
            msgs@ == self.messages@,
    {
        let mut out: Vec<String> = Vec::new();
        let n = self.messages.len();
        for i in 0..n
            invariant
                n == self.messages@.len(),
                out@.len() == i,
                forall|j: int| 0 <= j < i ==> out@[j] == self.messages@[j],
        {
            out.push(self.messages[i].clone());
        }
        proof {
            assert(out@ =~= self.messages@);
        }
        out
    }
}

} // verus!
