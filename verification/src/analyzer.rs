use vstd::prelude::*;

verus! {

broadcast use vstd::string::group_string_axioms;

/// The state behind the analyzer node that the engine talks to: a call counter.
pub struct ChessAnalyzer {
    counter: i32,
}

/// The greeting that the analyzer sends.
pub open spec fn greeting() -> Seq<char> {
    "Привет из Rust!"@
}

impl ChessAnalyzer {
    /// A fresh analyzer, with its counter at zero.
    pub fn new() -> (a: Self)
        ensures
            a.counter() == 0,
    {
        ChessAnalyzer { counter: 0 }
    }

    /// The counter's value.
    pub closed spec fn counter(&self) -> int {
        self.counter as int
    }

    /// The greeting.
    pub fn hello_world(&self) -> (s: String)
        ensures
            s@ == greeting(),
    {
        "Привет из Rust!".to_string()
    }

    /// Adds one to the counter.
    pub fn increment_counter(&mut self)
        requires
            old(self).counter() < i32::MAX,
        ensures
            final(self).counter() == old(self).counter() + 1,
    {
        self.counter += 1;
    }

    /// The counter's value.
    pub fn get_counter(&self) -> (c: i32)
        ensures
            c == self.counter(),
    {
        self.counter
    }
}

} // verus!
