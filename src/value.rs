use vstd::arithmetic::div_mod::lemma_mod_multiples_vanish;
use vstd::prelude::*;

verus! {

/// Number of distinct values a byte cell can hold.
pub const CELL_MODULUS: u32 = 256;

/// The contents of one cell: a value with a default state and wrap-around arithmetic.
pub trait Value: Copy + Sized {
    /// The state of a cell that was never written.
    spec fn spec_default() -> Self;

    /// The value after adding `n`, wrapping around.
    spec fn spec_incr(self, n: nat) -> Self;

    /// The value after subtracting `n`, wrapping around.
    spec fn spec_decr(self, n: nat) -> Self;

    fn default_value() -> (r: Self)
        ensures
            r == Self::spec_default(),
    ;

    /// Adds `n` (at most one full wrap cycle).
    fn wrapping_incr(self, n: u32) -> (r: Self)
        requires
            n <= CELL_MODULUS,
        ensures
            r == self.spec_incr(n as nat),
    ;

    /// Subtracts `n` (at most one full wrap cycle).
    fn wrapping_decr(self, n: u32) -> (r: Self)
        requires
            n <= CELL_MODULUS,
        ensures
            r == self.spec_decr(n as nat),
    ;
}

/// The byte value `v + n`, taken modulo 256.
pub open spec fn byte_add(v: u8, n: int) -> u8 {
    ((v as int + n) % 256) as u8
}

impl Value for u8 {
    open spec fn spec_default() -> u8 {
        0
    }

    open spec fn spec_incr(self, n: nat) -> u8 {
        byte_add(self, n as int)
    }

    open spec fn spec_decr(self, n: nat) -> u8 {
        byte_add(self, -(n as int))
    }

    fn default_value() -> (r: u8) {
        0
    }

    fn wrapping_incr(self, n: u32) -> (r: u8) {
        let r = (self as u32 + n) % CELL_MODULUS;
        assert(r == (self as int + n as int) % 256);
        assert(r as u8 == self.spec_incr(n as nat));
        r as u8
    }

    fn wrapping_decr(self, n: u32) -> (r: u8) {
        proof {
            lemma_mod_multiples_vanish(1, self as int - n as int, 256);
        }
        let r = (self as u32 + CELL_MODULUS - n) % CELL_MODULUS;
        assert(r == (self as int - n as int) % 256);
        assert(r as u8 == self.spec_decr(n as nat));
        r as u8
    }
}

} // verus!
