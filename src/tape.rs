use crate::value::Value;
use vstd::prelude::*;

verus! {

/// Addressable storage: a mapping from address to value that never faults on read
/// and grows as needed on write.
pub trait Tape<V, I>: Sized {
    /// The value stored at `index` (the default for a cell never written).
    spec fn cell(&self, index: I) -> V;

    /// The value of a cell that was never written.
    spec fn default_cell(&self) -> V;

    /// Whether the storage can hold a cell at `index` on this machine.
    spec fn settable(index: I) -> bool;

    fn set(&mut self, index: I, value: V)
        requires
            Self::settable(index),
        ensures
            final(self).cell(index) == value,
            forall|j: I| j != index ==> #[trigger] final(self).cell(j) == old(self).cell(j),
            final(self).default_cell() == old(self).default_cell(),
    ;

    fn get(&self, index: I) -> (r: V)
        ensures
            r == self.cell(index),
    ;
}


/// Position `i` of a lazily grown sequence: the stored value, or `default` past the end.
pub open spec fn lazy_at<V>(cells: Seq<V>, i: int, default: V) -> V {
    if 0 <= i < cells.len() {
        cells[i]
    } else {
        default
    }
}

/// `new` is `old` extended with `default` just far enough that `location` is a valid
/// position: its length is the larger of the old length and `location + 1`, the old
/// cells are kept and every added cell holds `default`.
pub open spec fn grown_to<V>(old: Seq<V>, new: Seq<V>, location: int, default: V) -> bool {
    &&& new.len() == if old.len() > location {
        old.len() as int
    } else {
        location + 1
    }
    &&& forall|i: int| 0 <= i < old.len() ==> #[trigger] new[i] == old[i]
    &&& forall|i: int| old.len() <= i < new.len() ==> #[trigger] new[i] == default
}

/// Grows `cells` with `default` until `location` is a valid position.
fn grow<V: Copy>(cells: &mut Vec<V>, location: usize, default: V)
    requires
        location < usize::MAX,
    ensures
        grown_to(old(cells)@, final(cells)@, location as int, default),
        forall|i: int| #[trigger]
            lazy_at(final(cells)@, i, default) == lazy_at(old(cells)@, i, default),
{
    let ghost start = cells@;
    while cells.len() <= location
        invariant
            location < usize::MAX,
            start.len() <= cells@.len(),
            cells@.len() <= start.len() || cells@.len() <= location + 1,
            forall|i: int| 0 <= i < start.len() ==> cells@[i] == start[i],
            forall|i: int| start.len() <= i < cells@.len() ==> cells@[i] == default,
        decreases location + 1 - cells@.len(),
    {
        cells.push(default);
    }
    assert forall|i: int| #[trigger]
        lazy_at(cells@, i, default) == lazy_at(start, i, default) by {}
}

/// A one-dimensional tape indexed from 0 that grows rightward without bound.
pub struct StandardTape<V> {
    cells: Vec<V>,
    default: V,
}

impl<V: Value> StandardTape<V> {
    /// An empty tape whose cells start at the value type's default.
    pub fn new() -> (r: Self)
        ensures
            r.default_cell() == V::spec_default(),
            forall|j: usize| #[trigger] r.cell(j) == V::spec_default(),
    {
        Self::with_custom_default(V::default_value())
    }
}

impl<V: Value> Default for StandardTape<V> {
    fn default() -> (r: Self)
        ensures
            r.default_cell() == V::spec_default(),
            forall|j: usize| #[trigger] r.cell(j) == V::spec_default(),
    {
        Self::new()
    }
}

impl<V: Copy> StandardTape<V> {
    /// An empty tape whose cells start at `val`.
    pub fn with_custom_default(val: V) -> (r: Self)
        ensures
            r.default_cell() == val,
            forall|j: usize| #[trigger] r.cell(j) == val,
    {
        let mut tape: Vec<V> = Vec::new();
        tape.push(val);
        Self { cells: tape, default: val }
    }

    /// Grows the tape so that `location` is stored explicitly.
    fn expand_tape(&mut self, location: usize)
        requires
            location < usize::MAX,
        ensures
            grown_to(old(self).cells@, final(self).cells@, location as int, old(self).default),
            final(self).default == old(self).default,
            forall|j: usize| #[trigger] final(self).cell(j) == old(self).cell(j),
    {
        let len = self.cells.len();
        if len <= location {
            grow(&mut self.cells, location, self.default);
        }
        assert(grown_to(old(self).cells@, self.cells@, location as int, self.default));
        assert forall|j: usize| #[trigger] self.cell(j) == old(self).cell(j) by {
            assert(lazy_at(self.cells@, j as int, self.default) == lazy_at(
                old(self).cells@,
                j as int,
                self.default,
            ));
        }
    }
}

impl<V: Copy> Tape<V, usize> for StandardTape<V> {
    closed spec fn cell(&self, index: usize) -> V {
        lazy_at(self.cells@, index as int, self.default)
    }

    closed spec fn default_cell(&self) -> V {
        self.default
    }

    open spec fn settable(index: usize) -> bool {
        index < usize::MAX
    }

    fn set(&mut self, location: usize, value: V) {
        self.expand_tape(location);
        let ghost mid = *self;
        self.cells.set(location, value);
        assert forall|j: usize| j != location implies #[trigger] self.cell(j) == old(self).cell(j) by {
            assert(mid.cell(j) == old(self).cell(j));
        }
    }

    fn get(&self, location: usize) -> (r: V) {
        if self.cells.len() <= location {
            self.default
        } else {
            self.cells[location]
        }
    }
}

/// The position in the backward sequence that holds the negative address `a`.
pub open spec fn backward_pos(a: int) -> int {
    -a - 1
}

/// A tape that grows in both directions: addresses from 0 up are kept in one
/// sequence, address -1 and below in another (-1 at its position 0, -2 at 1, ...).
pub struct BidirectionalTape<V> {
    tape_forward: Vec<V>,
    tape_backward: Vec<V>,
    default: V,
}

impl<V: Value> BidirectionalTape<V> {
    /// An empty tape whose cells start at the value type's default.
    pub fn new() -> (r: Self)
        ensures
            r.default_cell() == V::spec_default(),
            forall|j: isize| #[trigger] r.cell(j) == V::spec_default(),
    {
        Self::with_custom_default(V::default_value())
    }
}

impl<V: Value> Default for BidirectionalTape<V> {
    fn default() -> (r: Self)
        ensures
            r.default_cell() == V::spec_default(),
            forall|j: isize| #[trigger] r.cell(j) == V::spec_default(),
    {
        Self::new()
    }
}

impl<V: Copy> BidirectionalTape<V> {
    /// An empty tape whose cells start at `default`.
    pub fn with_custom_default(default: V) -> (r: Self)
        ensures
            r.default_cell() == default,
            forall|j: isize| #[trigger] r.cell(j) == default,
    {
        let mut tape_backward: Vec<V> = Vec::new();
        tape_backward.push(default);
        Self { tape_forward: Vec::new(), tape_backward, default }
    }

    /// Which sequence holds `location` (`true` for the backward one), and where in it.
    fn choose_tape(location: isize) -> (r: (bool, usize))
        ensures
            r.0 == (location < 0),
            r.1 == if location < 0 {
                backward_pos(location as int)
            } else {
                location as int
            },
    {
        if location < 0 {
            (true, (-(location + 1)) as usize)
        } else {
            (false, location as usize)
        }
    }

    /// Grows the sequence that holds `location` so that it is stored explicitly.
    fn expand_tape(&mut self, location: isize)
        ensures
            location >= 0 ==> grown_to(
                old(self).tape_forward@,
                final(self).tape_forward@,
                location as int,
                old(self).default,
            ) && final(self).tape_backward@ == old(self).tape_backward@,
            location < 0 ==> grown_to(
                old(self).tape_backward@,
                final(self).tape_backward@,
                backward_pos(location as int),
                old(self).default,
            ) && final(self).tape_forward@ == old(self).tape_forward@,
            final(self).default == old(self).default,
            forall|j: isize| #[trigger] final(self).cell(j) == old(self).cell(j),
    {
        let default = self.default;
        let (backward, pos) = Self::choose_tape(location);
        if backward {
            grow(&mut self.tape_backward, pos, default);
        } else {
            grow(&mut self.tape_forward, pos, default);
        }
        assert forall|j: isize| #[trigger] self.cell(j) == old(self).cell(j) by {
            assert(lazy_at(self.tape_forward@, j as int, default) == lazy_at(
                old(self).tape_forward@,
                j as int,
                default,
            ));
            assert(lazy_at(self.tape_backward@, backward_pos(j as int), default) == lazy_at(
                old(self).tape_backward@,
                backward_pos(j as int),
                default,
            ));
        }
    }
}

impl<V: Copy> Tape<V, isize> for BidirectionalTape<V> {
    closed spec fn cell(&self, index: isize) -> V {
        if index >= 0 {
            lazy_at(self.tape_forward@, index as int, self.default)
        } else {
            lazy_at(self.tape_backward@, backward_pos(index as int), self.default)
        }
    }

    closed spec fn default_cell(&self) -> V {
        self.default
    }

    open spec fn settable(index: isize) -> bool {
        true
    }

    fn set(&mut self, location: isize, value: V) {
        self.expand_tape(location);
        let ghost mid = *self;
        let (backward, pos) = Self::choose_tape(location);
        if backward {
            self.tape_backward.set(pos, value);
        } else {
            self.tape_forward.set(pos, value);
        }
        assert forall|j: isize| j != location implies #[trigger] self.cell(j) == old(self).cell(j) by {
            assert(mid.cell(j) == old(self).cell(j));
        }
    }

    fn get(&self, location: isize) -> (r: V) {
        let (backward, pos) = Self::choose_tape(location);
        if !backward && pos < self.tape_forward.len() {
            self.tape_forward[pos]
        } else if backward && pos < self.tape_backward.len() {
            self.tape_backward[pos]
        } else {
            self.default
        }
    }
}

} // verus!
