use vstd::prelude::*;

verus! {

/// An address on a tape: an ordered scalar with a start and unit steps.
/// A step that would leave the addressable range is a fault, reported as `None`.
pub trait Index: Copy + Sized {
    /// The mathematical position of the address.
    spec fn pos(self) -> int;

    /// Whether `p` is an addressable position.
    spec fn in_range(p: int) -> bool;

    fn start() -> (r: Self)
        ensures
            r.pos() == 0,
    ;

    fn incr(self) -> (r: Option<Self>)
        ensures
            r is Some <==> Self::in_range(self.pos() + 1),
            r matches Some(n) ==> n.pos() == self.pos() + 1,
    ;

    fn decr(self) -> (r: Option<Self>)
        ensures
            r is Some <==> Self::in_range(self.pos() - 1),
            r matches Some(n) ==> n.pos() == self.pos() - 1,
    ;
}

/// Unsigned addressing: the tape starts at 0 and stepping left of it is a fault.
impl Index for usize {
    open spec fn pos(self) -> int {
        self as int
    }

    open spec fn in_range(p: int) -> bool {
        0 <= p <= usize::MAX
    }

    fn start() -> (r: usize) {
        0
    }

    fn incr(self) -> (r: Option<usize>) {
        if self < usize::MAX {
            let n = self + 1;
            assert(<usize as Index>::in_range(self.pos() + 1) && n.pos() == self.pos() + 1);
            Some(n)
        } else {
            assert(!<usize as Index>::in_range(self.pos() + 1));
            None
        }
    }

    fn decr(self) -> (r: Option<usize>) {
        if self > 0 {
            let n = self - 1;
            assert(<usize as Index>::in_range(self.pos() - 1) && n.pos() == self.pos() - 1);
            Some(n)
        } else {
            assert(!<usize as Index>::in_range(self.pos() - 1));
            None
        }
    }
}

/// Signed addressing: stepping left of 0 continues into negative addresses.
impl Index for isize {
    open spec fn pos(self) -> int {
        self as int
    }

    open spec fn in_range(p: int) -> bool {
        isize::MIN <= p <= isize::MAX
    }

    fn start() -> (r: isize) {
        0
    }

    fn incr(self) -> (r: Option<isize>) {
        if self < isize::MAX {
            let n = self + 1;
            assert(<isize as Index>::in_range(self.pos() + 1) && n.pos() == self.pos() + 1);
            Some(n)
        } else {
            assert(!<isize as Index>::in_range(self.pos() + 1));
            None
        }
    }

    fn decr(self) -> (r: Option<isize>) {
        if self > isize::MIN {
            let n = self - 1;
            assert(<isize as Index>::in_range(self.pos() - 1) && n.pos() == self.pos() - 1);
            Some(n)
        } else {
            assert(!<isize as Index>::in_range(self.pos() - 1));
            None
        }
    }
}

} // verus!
