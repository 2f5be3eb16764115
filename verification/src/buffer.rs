//! A two-state buffer for simulations that build each generation by reading
//! the previous one.
use vstd::prelude::*;

verus! {

/// Holds a committed state and a scratch state.
///
/// The only way to advance is [`Self::generate`]: read the committed state,
/// fill the scratch, commit. There is no way to reach the scratch without
/// committing it, and no way to mutate the committed state in place.
#[derive(Clone, Debug)]
pub struct DoubleBuffer<T> {
    current: T,
    next: T,
}

impl<T> DoubleBuffer<T> {
    /// The committed state.
    pub closed spec fn committed(&self) -> T {
        self.current
    }

    /// The scratch state: what the next call of `generate` is handed to fill.
    pub closed spec fn scratch(&self) -> T {
        self.next
    }

    /// The committed state.
    pub fn state(&self) -> (r: &T)
        ensures
            *r == self.committed(),
    {
        &self.current
    }

    /// Reads the committed state to build the next one, then commits it.
    ///
    /// `generate` is handed the committed state to read and the scratch state
    /// to fill. Committing swaps the two buffers rather than copying, so the
    /// scratch arrives holding the state from two generations ago: whatever
    /// `generate` leaves untouched in it is resurrected.
    pub fn generate<F: FnOnce(&T, &mut T)>(&mut self, generate: F)
        requires
            forall|s: &mut T|
                *s == old(self).scratch() ==> #[trigger] generate.requires(
                    (&old(self).committed(), s),
                ),
        ensures
            exists|s: &mut T|
                *s == old(self).scratch() && #[trigger] generate.ensures(
                    (&old(self).committed(), s),
                    (),
                ) && *final(s) == final(self).committed(),
            final(self).scratch() == old(self).committed(),
    {
        let scratch = &mut self.next;
        assert(*scratch == old(self).scratch());
        assert(generate.requires((&old(self).committed(), scratch)));
        generate(&self.current, scratch);
        std::mem::swap(&mut self.current, &mut self.next);
    }
}

impl<T: Clone> DoubleBuffer<T> {
    /// A buffer whose committed state is `current` and whose scratch is a
    /// clone of it.
    pub fn new(current: T) -> (r: Self)
        ensures
            r.committed() == current,
            cloned::<T>(current, r.scratch()),
    {
        let next = current.clone();
        Self { current, next }
    }
}

impl<T: Clone> From<T> for DoubleBuffer<T> {
    /// The same as [`DoubleBuffer::new`].
    fn from(current: T) -> (r: Self)
        ensures
            r.committed() == current,
            cloned::<T>(current, r.scratch()),
    {
        Self::new(current)
    }
}

impl<T: Clone> vstd::std_specs::convert::FromSpecImpl<T> for DoubleBuffer<T> {
    /// The scratch is whatever cloning gives, which no single value pins
    /// down; the contract of `from` itself says what holds.
    open spec fn obeys_from_spec() -> bool {
        false
    }

    closed spec fn from_spec(v: T) -> Self {
        DoubleBuffer { current: v, next: v }
    }
}

/// Over a run of `generate` calls on a buffer made by `new(x)`, where
/// `runs[k]` is the buffer after `k` calls (each call leaving its buffer's
/// committed state as the next scratch, as `generate` ensures): call `k` is
/// handed to fill the state committed after call `k - 2`, or the clone of `x`
/// for the first call. So a call that commits its scratch untouched brings
/// back the state from two calls before, or the clone of `x`.
pub proof fn lemma_generations_chain<T: Clone>(x: T, runs: Seq<DoubleBuffer<T>>)
    requires
        runs.len() >= 1,
        runs[0].committed() == x,
        cloned::<T>(x, runs[0].scratch()),
        forall|k: int| 0 < k < runs.len() ==> #[trigger] runs[k].scratch() == runs[k - 1].committed(),
    ensures
        cloned::<T>(x, runs[0].scratch()),
        forall|k: int|
            2 <= k < runs.len() ==> #[trigger] runs[k - 1].scratch() == runs[k - 2].committed(),
        runs.len() >= 2 && runs[1].committed() == runs[0].scratch() ==> cloned::<T>(
            x,
            runs[1].committed(),
        ),
        forall|k: int|
            2 <= k < runs.len() && #[trigger] runs[k].committed() == runs[k - 1].scratch()
                ==> runs[k].committed() == runs[k - 2].committed(),
{
    assert forall|k: int| 2 <= k < runs.len() implies #[trigger] runs[k - 1].scratch() == runs[k
        - 2].committed() by {
        assert(runs[k - 1].scratch() == runs[(k - 1) - 1].committed());
    }
    assert forall|k: int|
        2 <= k < runs.len() && #[trigger] runs[k].committed() == runs[k - 1].scratch() implies runs[k].committed()
            == runs[k - 2].committed() by {
        assert(runs[k - 1].scratch() == runs[(k - 1) - 1].committed());
    }
}

} // verus!
