use crate::address::Index;
use crate::tape::{BidirectionalTape, StandardTape, Tape};
use crate::value::Value;
use core::marker::PhantomData;
use vstd::prelude::*;

verus! {

/// Storage plus a current pointer: pointer-relative and arbitrary-address access.
pub trait TapeModel<V, I>: Sized {
    /// The current pointer.
    spec fn pointer(&self) -> I;

    /// The value stored at `index`.
    spec fn cell_at(&self, index: I) -> V;

    /// Whether a cell at `index` can be written.
    spec fn writable(index: I) -> bool;

    fn get_cell(&self) -> (r: V)
        ensures
            r == self.cell_at(self.pointer()),
    ;

    fn find_cell(&self, index: I) -> (r: V)
        ensures
            r == self.cell_at(index),
    ;

    fn set_cell(&mut self, value: V)
        requires
            Self::writable(old(self).pointer()),
        ensures
            final(self).pointer() == old(self).pointer(),
            final(self).cell_at(old(self).pointer()) == value,
            forall|j: I| j != old(self).pointer() ==> #[trigger] final(self).cell_at(j) == old(self).cell_at(j),
    ;

    fn find_and_set_cell(&mut self, index: I, value: V)
        requires
            Self::writable(index),
        ensures
            final(self).pointer() == old(self).pointer(),
            final(self).cell_at(index) == value,
            forall|j: I| j != index ==> #[trigger] final(self).cell_at(j) == old(self).cell_at(j),
    ;

    fn set_pointer(&mut self, index: I)
        ensures
            final(self).pointer() == index,
            forall|j: I| #[trigger] final(self).cell_at(j) == old(self).cell_at(j),
    ;

    fn get_pointer(&self) -> (r: I)
        ensures
            r == self.pointer(),
    ;
}

/// A tape model with a rightward-unbounded tape and an unsigned pointer.
pub type ClassicTapeModel<V> = GenericTapeModel<V, usize, StandardTape<V>>;

/// A tape model with a tape that grows both ways and a signed pointer.
pub type BidirectionalTapeModel<V> = GenericTapeModel<V, isize, BidirectionalTape<V>>;

/// A fresh classic tape model: pointer at 0, every cell at the default value.
pub fn classic_tape<V: Value>() -> (r: ClassicTapeModel<V>)
    ensures
        r.pointer() == 0,
        forall|j: usize| #[trigger] r.cell_at(j) == V::spec_default(),
{
    ClassicTapeModel::new(StandardTape::new())
}

/// A fresh bidirectional tape model: pointer at 0, every cell at the default value.
pub fn bidirectional_tape<V: Value>() -> (r: BidirectionalTapeModel<V>)
    ensures
        r.pointer() == 0,
        forall|j: isize| #[trigger] r.cell_at(j) == V::spec_default(),
{
    BidirectionalTapeModel::new(BidirectionalTape::new())
}

/// Any tape with a pointer that starts at the start address.
pub struct GenericTapeModel<V, I, T: Tape<V, I>> {
    pub tape: T,
    pub pointer: I,
    pub phantom: PhantomData<V>,
}

impl<V, I: Index, T: Tape<V, I>> GenericTapeModel<V, I, T> {
    pub fn new(tape: T) -> (r: Self)
        ensures
            r.pointer().pos() == 0,
            forall|j: I| #[trigger] r.cell_at(j) == tape.cell(j),
    {
        Self { tape, pointer: I::start(), phantom: PhantomData }
    }
}

impl<V, I: Copy, T: Tape<V, I>> TapeModel<V, I> for GenericTapeModel<V, I, T> {
    open spec fn pointer(&self) -> I {
        self.pointer
    }

    open spec fn cell_at(&self, index: I) -> V {
        self.tape.cell(index)
    }

    open spec fn writable(index: I) -> bool {
        T::settable(index)
    }

    fn get_cell(&self) -> (r: V) {
        self.tape.get(self.pointer)
    }

    fn find_cell(&self, index: I) -> (r: V) {
        self.tape.get(index)
    }

    fn set_cell(&mut self, value: V) {
        self.tape.set(self.pointer, value);
    }

    fn find_and_set_cell(&mut self, index: I, value: V) {
        self.tape.set(index, value);
    }

    fn set_pointer(&mut self, index: I) {
        self.pointer = index;
    }

    fn get_pointer(&self) -> (r: I) {
        self.pointer
    }
}

} // verus!
