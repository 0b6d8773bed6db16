//! A cursor over a slice: fetch the current item, advance, rewind.
use vstd::prelude::*;

verus! {

/// A position over a borrowed slice. The position may run one or more
/// steps past the end of the slice; reads there find nothing.
pub struct Cursor<'a, T> {
    input: &'a [T],
    current: usize,
}

impl<'a, T> Cursor<'a, T> {
    /// The items the cursor walks over.
    pub closed spec fn data(&self) -> Seq<T> {
        self.input@
    }

    /// The index of the item that the next read returns.
    pub closed spec fn pos(&self) -> nat {
        self.current as nat
    }

    /// The slice fits in memory: its length is a `usize`.
    pub proof fn lemma_data_fits(&self)
        ensures
            self.data().len() <= usize::MAX,
    {
        assert(self.input@.len() == self.input.len());
    }

    pub fn new(input: &'a [T]) -> (c: Self)
        ensures
            c.data() == input@,
            c.pos() == 0,
    {
        Self { input, current: 0 }
    }

    /// The item at the current position, if the position is inside the slice.
    pub fn peek(&self) -> (r: Option<&T>)
        ensures
            match r {
                Some(x) => self.pos() < self.data().len() && *x == self.data()[self.pos() as int],
                None => self.pos() >= self.data().len(),
            },
    {
        if self.current < self.input.len() {
            Some(&self.input[self.current])
        } else {
            None
        }
    }

    /// Reads the item at the current position and moves one step forward,
    /// whether or not there was an item to read.
    pub fn get(&mut self) -> (r: Option<&'a T>)
        requires
            old(self).pos() < usize::MAX,
        ensures
            final(self).data() == old(self).data(),
            final(self).pos() == old(self).pos() + 1,
            match r {
                Some(x) => old(self).pos() < old(self).data().len() && *x == old(self).data()[old(self).pos() as int],
                None => old(self).pos() >= old(self).data().len(),
            },
    {
        let idx = self.current;
        self.advance();
        if idx < self.input.len() {
            Some(&self.input[idx])
        } else {
            None
        }
    }

    pub fn advance(&mut self)
        requires
            old(self).pos() < usize::MAX,
        ensures
            final(self).data() == old(self).data(),
            final(self).pos() == old(self).pos() + 1,
    {
        self.current += 1;
    }

    pub fn rewind(&mut self)
        requires
            old(self).pos() > 0,
        ensures
            final(self).data() == old(self).data(),
            final(self).pos() == old(self).pos() - 1,
    {
        self.current -= 1;
    }
}

} // verus!
