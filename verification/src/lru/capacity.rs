use vstd::prelude::*;

verus! {

/// A strictly positive number of entries.
///
/// A cache can never be asked to hold at most zero entries: the only way to
/// obtain a `Capacity` is [`Capacity::new`], which refuses zero, or
/// [`Capacity::unbounded`].
#[derive(Clone, Copy, Debug)]
pub struct Capacity {
    n: usize,
}

impl Capacity {
    /// Every capacity is positive.
    #[verifier::type_invariant]
    spec fn positive(self) -> bool {
        self.n > 0
    }

    /// The number this capacity stands for.
    pub closed spec fn value(self) -> usize {
        self.n
    }

    /// `Some` capacity of `n` entries, or `None` when `n` is zero.
    pub fn new(n: usize) -> (r: Option<Capacity>)
        ensures
            n == 0 <==> r is None,
            r is Some ==> r.unwrap().value() == n,
    {
        if n == 0 {
            None
        } else {
            Some(Capacity { n })
        }
    }

    /// The capacity of a cache that never evicts on its own: the largest
    /// count the machine can express.
    pub fn unbounded() -> (r: Capacity)
        ensures
            r.value() == usize::MAX,
    {
        Capacity { n: usize::MAX }
    }

    /// The number of entries, never zero.
    pub fn get(self) -> (r: usize)
        ensures
            r == self.value(),
            r > 0,
    {
        proof {
            use_type_invariant(&self);
        }
        self.n
    }
}

} // verus!
