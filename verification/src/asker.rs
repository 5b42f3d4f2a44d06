//! A question that is asked again and again, with a record of the answers.

use vstd::prelude::*;

verus! {

/// A closure that answers yes or no, and the answers it has given so far. Only asking makes the
/// record longer.
pub struct Asker<G> {
    question: G,
    log: Ghost<Seq<bool>>,
}

impl<G: FnMut() -> bool> Asker<G> {
    pub closed spec fn question(&self) -> G {
        self.question
    }

    /// The answers, in the order in which they were given.
    pub closed spec fn log(&self) -> Seq<bool> {
        self.log@
    }

    pub fn new(question: G) -> (r: Asker<G>)
        ensures
            r.question() == question,
            r.log() == Seq::<bool>::empty(),
    {
        Asker { question, log: Ghost(Seq::empty()) }
    }

    /// Asks, and notes the answer.
    pub fn ask(&mut self) -> (r: bool)
        requires
            call_requires(old(self).question(), ()),
        ensures
            call_ensures(old(self).question(), (), r),
            final(self).question() == old(self).question(),
            final(self).log() == old(self).log().push(r),
    {
        let r = (self.question)();
        self.log = Ghost(self.log@.push(r));
        r
    }
}

} // verus!
