use crate::address::Index;
use crate::interpreter::{Interpreter, Signal};
use crate::program::{
    delta, depth, filter_symbols, lemma_depth_split, lemma_matched_unique, matched, symbols, Instruction,
};
use crate::tape_model::{classic_tape, ClassicTapeModel, TapeModel};
use crate::value::{byte_add, Value};
use vstd::prelude::*;

verus! {

/// The symbol that ends a raw program.
pub const SENTINEL: char = ' ';

/// The state of a raw-symbol interpreter: program, instruction pointer, tape pointer,
/// and the value of every cell.
#[verifier::ext_equal]
pub struct RawMachine {
    pub program: Seq<char>,
    pub ip: usize,
    pub pointer: usize,
    pub cells: Map<usize, u8>,
}

/// The loop-boundary shape of a symbol: only `[` and `]` change the nesting.
pub open spec fn char_op(c: char) -> Instruction {
    if c == '[' {
        Instruction::LoopStart(0)
    } else if c == ']' {
        Instruction::LoopEnd(0)
    } else {
        Instruction::Read
    }
}

/// The loop-boundary shape of a raw program.
pub open spec fn shape_of(p: Seq<char>) -> Seq<Instruction> {
    Seq::new(p.len(), |i: int| char_op(p[i]))
}

/// The raw program for `source`: its recognized symbols and the sentinel.
pub open spec fn raw_program(source: Seq<char>) -> Seq<char> {
    symbols(source).push(SENTINEL)
}

/// Executes one symbol. A taken loop branch moves the instruction pointer to the
/// partner bracket, found by scanning; a missing partner is a fault.
pub open spec fn execute_raw(m: RawMachine, c: char) -> (RawMachine, Signal<u8>) {
    let v = m.cells[m.pointer];
    let shape = shape_of(m.program);
    if c == '>' {
        if m.pointer < usize::MAX {
            (RawMachine { pointer: (m.pointer + 1) as usize, ..m }, Signal::Continue)
        } else {
            (m, Signal::Fault)
        }
    } else if c == '<' {
        if m.pointer > 0 {
            (RawMachine { pointer: (m.pointer - 1) as usize, ..m }, Signal::Continue)
        } else {
            (m, Signal::Fault)
        }
    } else if c == '+' || c == '-' {
        if m.pointer < usize::MAX {
            let w = if c == '+' {
                byte_add(v, 1)
            } else {
                byte_add(v, -1)
            };
            (RawMachine { cells: m.cells.insert(m.pointer, w), ..m }, Signal::Continue)
        } else {
            (m, Signal::Fault)
        }
    } else if c == '.' {
        (m, Signal::Output(v))
    } else if c == ',' {
        if m.pointer < usize::MAX {
            (m, Signal::Input)
        } else {
            (m, Signal::Fault)
        }
    } else if c == '[' {
        if v != 0 {
            (m, Signal::Continue)
        } else if exists|j: int| matched(shape, m.ip as int, j) {
            let j = choose|j: int| matched(shape, m.ip as int, j);
            (RawMachine { ip: j as usize, ..m }, Signal::Continue)
        } else {
            (m, Signal::Fault)
        }
    } else if c == ']' {
        if v == 0 {
            (m, Signal::Continue)
        } else if exists|k: int| matched(shape, k, m.ip as int) {
            let k = choose|k: int| matched(shape, k, m.ip as int);
            (RawMachine { ip: k as usize, ..m }, Signal::Continue)
        } else {
            (m, Signal::Fault)
        }
    } else if c == SENTINEL {
        (m, Signal::Halt)
    } else {
        (m, Signal::Fault)
    }
}

/// One full engine step with auto-increment on a raw program.
pub open spec fn raw_step(m: RawMachine) -> (RawMachine, Signal<u8>) {
    if m.ip >= m.program.len() {
        (m, Signal::Fault)
    } else {
        let (m1, r) = execute_raw(m, m.program[m.ip as int]);
        if r.advances() {
            (RawMachine { ip: (m1.ip + 1) as usize, ..m1 }, r)
        } else {
            (m1, r)
        }
    }
}

/// The state after `n` engine steps on a raw program.
pub open spec fn raw_run(m: RawMachine, n: nat) -> RawMachine
    decreases n,
{
    if n == 0 {
        m
    } else {
        raw_run(raw_step(m).0, (n - 1) as nat)
    }
}

/// The pointer step of a symbol: `>` is +1, `<` is -1, others 0.
pub open spec fn step_of(c: char) -> int {
    if c == '>' {
        1
    } else if c == '<' {
        -1
    } else {
        0
    }
}

/// The sum of the pointer steps of `s`.
pub open spec fn net_steps(s: Seq<char>) -> int
    decreases s.len(),
{
    if s.len() == 0 {
        0
    } else {
        step_of(s[0]) + net_steps(s.drop_first())
    }
}

/// Starting at `p`, every pointer position visited by the moves of `s` is an unsigned
/// address.
pub open spec fn stays_in_range(p: int, s: Seq<char>) -> bool
    decreases s.len(),
{
    if s.len() == 0 {
        true
    } else {
        let q = p + step_of(s[0]);
        0 <= q <= usize::MAX && stays_in_range(q, s.drop_first())
    }
}

/// A state whose step faults stays where it is.
proof fn lemma_fault_is_stuck(m: RawMachine, n: nat)
    requires
        raw_step(m) == (m, Signal::<u8>::Fault),
    ensures
        raw_run(m, n) == m,
    decreases n,
{
    if n > 0 {
        lemma_fault_is_stuck(m, (n - 1) as nat);
    }
}

/// Moves on unsigned addressing: while every visited position is an address, the
/// pointer ends at its start plus the net number of steps; a step below the start
/// (or past the largest address) is a fault at which the run stops.
pub proof fn lemma_raw_moves(m: RawMachine, n: nat)
    requires
        m.ip + n < m.program.len() <= usize::MAX,
        forall|i: int| m.ip <= i < m.ip + n ==> #[trigger] m.program[i] == '>' || m.program[i] == '<',
    ensures
        ({
            let s = m.program.subrange(m.ip as int, m.ip + n);
            &&& stays_in_range(m.pointer as int, s) ==> {
                &&& raw_run(m, n).pointer == m.pointer + net_steps(s)
                &&& raw_run(m, n).ip == m.ip + n
                &&& raw_run(m, n).cells == m.cells
            }
            &&& !stays_in_range(m.pointer as int, s) ==> raw_step(raw_run(m, n)).1
                == Signal::<u8>::Fault
        }),
    decreases n,
{
    let s = m.program.subrange(m.ip as int, m.ip + n);
    if n > 0 {
        let c = m.program[m.ip as int];
        assert(c == '>' || c == '<');
        assert(s[0] == c);
        let q = m.pointer + step_of(c);
        let m1 = raw_step(m).0;
        assert(raw_run(m, n) == raw_run(m1, (n - 1) as nat));
        if 0 <= q <= usize::MAX {
            assert(m1 == (RawMachine { pointer: q as usize, ip: (m.ip + 1) as usize, ..m }));
            lemma_raw_moves(m1, (n - 1) as nat);
            assert(s.drop_first() =~= m1.program.subrange(m1.ip as int, m1.ip + (n - 1)));
        } else {
            assert(raw_step(m) == (m, Signal::<u8>::Fault));
            lemma_fault_is_stuck(m, n);
        }
    }
}

/// Interprets the raw symbol sequence directly, rescanning for loop partners.
pub struct NaiveInterpreter {
    program: Vec<char>,
    inst_ptr: usize,
    model: ClassicTapeModel<u8>,
}

impl View for NaiveInterpreter {
    type V = RawMachine;

    closed spec fn view(&self) -> RawMachine {
        RawMachine {
            program: self.program@,
            ip: self.inst_ptr,
            pointer: self.model.pointer(),
            cells: Map::new(|j: usize| true, |j: usize| self.model.cell_at(j)),
        }
    }
}

impl NaiveInterpreter {
    /// An interpreter holding the empty program, on a fresh tape.
    pub fn new() -> (r: Self)
        ensures
            r@.program == seq![SENTINEL],
            r@.ip == 0,
            r@.pointer == 0,
            forall|j: usize| #[trigger] r@.cells.contains_key(j) && r@.cells[j] == 0,
    {
        let mut program: Vec<char> = Vec::new();
        program.push(SENTINEL);
        let r = Self { program, inst_ptr: 0, model: classic_tape() };
        assert(r@.program =~= seq![SENTINEL]);
        r
    }

    /// Loads the recognized symbols of `source` followed by the sentinel, with the
    /// instruction pointer at the start.
    pub fn load_program(&mut self, source: &str)
        ensures
            final(self)@ == (RawMachine { program: raw_program(source@), ip: 0, ..old(self)@ }),
    {
        let mut program = filter_symbols(source);
        program.push(SENTINEL);
        self.program = program;
        self.inst_ptr = 0;
        assert(self@ =~= (RawMachine { program: raw_program(source@), ip: 0, ..old(self)@ }));
    }

    /// Stores a value obtained for an `Input` signal in the current cell.
    pub fn supply_input(&mut self, value: u8) -> (r: Signal<u8>)
        ensures
            old(self)@.pointer < usize::MAX ==> r == Signal::<u8>::Continue && final(self)@ == (
            RawMachine { cells: old(self)@.cells.insert(old(self)@.pointer, value), ..old(self)@ }),
            old(self)@.pointer == usize::MAX ==> r == Signal::<u8>::Fault && final(self)@ == old(
                self,
            )@,
    {
        if self.model.get_pointer() < usize::MAX {
            self.model.set_cell(value);
            assert(self@ =~= (RawMachine {
                cells: old(self)@.cells.insert(old(self)@.pointer, value),
                ..old(self)@
            }));
            Signal::Continue
        } else {
            Signal::Fault
        }
    }

    /// Executes the current symbol and moves the instruction pointer on by one unless
    /// the run stops. An instruction pointer off the program is a fault.
    pub fn run_step(&mut self) -> (r: Signal<u8>)
        ensures
            (final(self)@, r) == raw_step(old(self)@),
    {
        if self.inst_ptr >= self.program.len() {
            return Signal::Fault;
        }
        let r = self.step(true);
        let ghost mid = choose|mid: Self|
            {
                &&& #[trigger] old(self).processed(
                    old(self).program()[old(self).instr_ptr() as int],
                    mid,
                    r,
                )
                &&& mid.instr_ptr() < mid.program().len()
                &&& mid.instr_ptr() < usize::MAX
                &&& if r.advances() {
                    mid.moved_to(*self, (mid.instr_ptr() + 1) as usize)
                } else {
                    *self == mid
                }
            };
        assert(mid@.ip == mid.instr_ptr());
        r
    }

    /// The current tape pointer.
    pub fn pointer(&self) -> (r: usize)
        ensures
            r == self@.pointer,
    {
        self.model.get_pointer()
    }

    /// The value of the cell at `index`.
    pub fn cell(&self, index: usize) -> (r: u8)
        ensures
            r == self@.cells[index],
    {
        self.model.find_cell(index)
    }

    /// The partner `]` of the `[` at `start`, scanning forward and counting nesting.
    fn scan_forward(&self, start: usize) -> (r: Option<usize>)
        requires
            start < self.program@.len(),
            self.program@[start as int] == '[',
        ensures
            r matches Some(j) ==> matched(shape_of(self.program@), start as int, j as int),
            r is None ==> !exists|j: int| matched(shape_of(self.program@), start as int, j),
    {
        let ghost shape = shape_of(self.program@);
        let n = self.program.len();
        let mut level: usize = 1;
        let mut j: usize = start;
        assert(depth(shape, start as int, start as int) == 0);
        while level > 0
            invariant
                n == self.program@.len(),
                shape == shape_of(self.program@),
                start <= j < n,
                level <= j - start + 1,
                level as int == depth(shape, start as int, j + 1),
                level == 0 ==> self.program@[j as int] == ']',
                forall|l: int| start < l <= j ==> #[trigger] depth(shape, start as int, l) > 0,
            decreases n - j,
        {
            if j + 1 >= n {
                assert forall|j2: int| !matched(shape, start as int, j2) by {
                    if 0 <= j2 < n && start < j2 {
                        assert(depth(shape, start as int, j2 + 1) > 0);
                    }
                }
                return None;
            }
            j = j + 1;
            let c = self.program[j];
            assert(depth(shape, start as int, j + 1) == depth(shape, start as int, j as int) + delta(
                shape[j as int],
            ));
            if c == '[' {
                level = level + 1;
            } else if c == ']' {
                level = level - 1;
            }
        }
        assert(shape[j as int] == char_op(self.program@[j as int]));
        assert(shape[start as int] == char_op(self.program@[start as int]));
        Some(j)
    }

    /// The partner `[` of the `]` at `end`, scanning backward and counting nesting.
    fn scan_backward(&self, end: usize) -> (r: Option<usize>)
        requires
            end < self.program@.len(),
            self.program@[end as int] == ']',
        ensures
            r matches Some(k) ==> matched(shape_of(self.program@), k as int, end as int),
            r is None ==> !exists|k: int| matched(shape_of(self.program@), k, end as int),
    {
        let ghost shape = shape_of(self.program@);
        let n = self.program.len();
        let mut level: usize = 1;
        let mut k: usize = end;
        assert(depth(shape, end as int, end as int) == 0);
        while level > 0
            invariant
                shape == shape_of(self.program@),
                n == self.program@.len(),
                end < n,
                k <= end,
                level == 0 ==> self.program@[k as int] == '[',
                level <= end - k + 1,
                level as int == -depth(shape, k as int, end + 1),
                forall|l: int| k < l <= end ==> #[trigger] depth(shape, l, end + 1) < 0,
            decreases k,
        {
            if k == 0 {
                assert forall|k2: int| !matched(shape, k2, end as int) by {
                    if 0 <= k2 < end {
                        assert(depth(shape, k2, end + 1) < 0);
                    }
                }
                return None;
            }
            k = k - 1;
            let c = self.program[k];
            proof {
                lemma_depth_split(shape, k as int, k + 1, end + 1);
                assert(depth(shape, k as int, k as int) == 0);
                assert(depth(shape, k as int, k + 1) == delta(shape[k as int]));
            }
            if c == ']' {
                level = level + 1;
            } else if c == '[' {
                level = level - 1;
            }
        }
        proof {
            assert forall|l: int| k < l <= end implies #[trigger] depth(shape, k as int, l) > 0 by {
                lemma_depth_split(shape, k as int, l, end + 1);
            }
        }
        assert(shape[k as int] == char_op(self.program@[k as int]));
        assert(shape[end as int] == char_op(self.program@[end as int]));
        Some(k)
    }
}


impl Interpreter<char> for NaiveInterpreter {
    type Value = u8;

    type Program = Vec<char>;

    open spec fn program(&self) -> Seq<char> {
        self@.program
    }

    open spec fn instr_ptr(&self) -> usize {
        self@.ip
    }

    open spec fn moved_to(self, next: Self, index: usize) -> bool {
        next@ == (RawMachine { ip: index, ..self@ })
    }

    open spec fn processed(self, instruction: char, next: Self, r: Signal<u8>) -> bool {
        (next@, r) == execute_raw(self@, instruction)
    }

    fn get_program(&self) -> (r: &Vec<char>) {
        assert(crate::interpreter::Program::<char>::instructions(&self.program) == self.program@);
        &self.program
    }

    fn get_instr_ptr(&self) -> (r: usize) {
        self.inst_ptr
    }

    fn set_instr_ptr(&mut self, index: usize) {
        self.inst_ptr = index;
        assert(self@ =~= (RawMachine { ip: index, ..old(self)@ }));
    }

    fn process_instruction(&mut self, instruction: char) -> (r: Signal<u8>) {
        let pointer = self.model.get_pointer();
        let value = self.model.get_cell();
        let ip = self.inst_ptr;
        let ghost m = self@;
        let ghost shape = shape_of(m.program);
        let ghost expected = execute_raw(m, instruction);
        assert(self.program@.len() == self.program.len());
        if instruction == '>' {
            match pointer.incr() {
                Some(next) => {
                    self.model.set_pointer(next);
                    assert(self@ =~= expected.0);
                    Signal::Continue
                },
                None => Signal::Fault,
            }
        } else if instruction == '<' {
            match pointer.decr() {
                Some(next) => {
                    self.model.set_pointer(next);
                    assert(self@ =~= expected.0);
                    Signal::Continue
                },
                None => Signal::Fault,
            }
        } else if instruction == '+' || instruction == '-' {
            if pointer < usize::MAX {
                let v = if instruction == '+' {
                    value.wrapping_incr(1)
                } else {
                    value.wrapping_decr(1)
                };
                self.model.set_cell(v);
                assert(self@ =~= expected.0);
                Signal::Continue
            } else {
                Signal::Fault
            }
        } else if instruction == '.' {
            Signal::Output(value)
        } else if instruction == ',' {
            if pointer < usize::MAX {
                Signal::Input
            } else {
                Signal::Fault
            }
        } else if instruction == '[' {
            if value != 0 {
                Signal::Continue
            } else if self.program[ip] != '[' {
                assert(shape[ip as int] == char_op(m.program[ip as int]));
                assert(!exists|j: int| matched(shape, ip as int, j));
                Signal::Fault
            } else {
                match self.scan_forward(ip) {
                    Some(j) => {
                        proof {
                            let c = choose|j2: int| matched(shape, ip as int, j2);
                            lemma_matched_unique(shape, ip as int, j as int, ip as int, c);
                        }
                        self.set_instr_ptr(j);
                        Signal::Continue
                    },
                    None => Signal::Fault,
                }
            }
        } else if instruction == ']' {
            if value == 0 {
                Signal::Continue
            } else if self.program[ip] != ']' {
                assert(shape[ip as int] == char_op(m.program[ip as int]));
                assert(!exists|k: int| matched(shape, k, ip as int));
                Signal::Fault
            } else {
                match self.scan_backward(ip) {
                    Some(k) => {
                        proof {
                            let c = choose|k2: int| matched(shape, k2, ip as int);
                            lemma_matched_unique(shape, k as int, ip as int, c, ip as int);
                        }
                        self.set_instr_ptr(k);
                        Signal::Continue
                    },
                    None => Signal::Fault,
                }
            }
        } else if instruction == SENTINEL {
            Signal::Halt
        } else {
            Signal::Fault
        }
    }
}

} // verus!
