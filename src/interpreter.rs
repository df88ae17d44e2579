use crate::program::{
    balanced, compile, compiled_from, lemma_runs_no_end, ops_of, resolved_at, symbols,
    CompileError, Instruction,
};
use crate::tape_model::{classic_tape, ClassicTapeModel, TapeModel};
use crate::value::{byte_add, Value};
use vstd::arithmetic::div_mod::{
    lemma_add_mod_noop, lemma_add_mod_noop_right, lemma_mod_multiples_vanish, lemma_small_mod, lemma_sub_mod_noop_right,
};
use vstd::prelude::*;

verus! {

/// What executing one instruction asks of the host running the interpreter.
#[derive(Clone, Copy, Debug, PartialEq, Eq)]
pub enum Signal<V> {
    /// Nothing to do; take the next step.
    Continue,
    /// Emit this value to the output.
    Output(V),
    /// Obtain one value and hand it back before the next step.
    Input,
    /// The program has ended.
    Halt,
    /// The run cannot go on (an address out of range, a malformed program).
    Fault,
}

impl<V> Signal<V> {
    /// Whether the run goes on after this signal.
    pub open spec fn advances(self) -> bool {
        self is Continue || self is Output || self is Input
    }
}

/// A program representation: instructions looked up by position.
pub trait Program<I> {
    spec fn instructions(&self) -> Seq<I>;

    fn get(&self, index: usize) -> (r: I)
        requires
            index < self.instructions().len(),
        ensures
            r == self.instructions()[index as int],
    ;
}

impl<I: Copy> Program<I> for Vec<I> {
    open spec fn instructions(&self) -> Seq<I> {
        self@
    }

    fn get(&self, index: usize) -> (r: I) {
        self[index]
    }
}

/// A fetch-execute engine over a program and an instruction pointer.
///
/// The host calls [`Interpreter::step`] until it returns a signal that does not
/// advance, performing the input and output that the signals ask for.
pub trait Interpreter<I>: Sized {
    type Value;

    type Program: Program<I>;

    /// The loaded program.
    spec fn program(&self) -> Seq<I>;

    /// The instruction pointer.
    spec fn instr_ptr(&self) -> usize;

    /// `next` is `self` with the instruction pointer set to `index`.
    spec fn moved_to(self, next: Self, index: usize) -> bool;

    /// Executing `instruction` in state `self` may give state `next` and signal `r`.
    spec fn processed(self, instruction: I, next: Self, r: Signal<Self::Value>) -> bool;

    fn get_program(&self) -> (r: &Self::Program)
        ensures
            r.instructions() == self.program(),
    ;

    fn get_instr_ptr(&self) -> (r: usize)
        ensures
            r == self.instr_ptr(),
    ;

    fn set_instr_ptr(&mut self, index: usize)
        ensures
            old(self).moved_to(*final(self), index),
            final(self).instr_ptr() == index,
            final(self).program() == old(self).program(),
    ;

    /// Executes one instruction; the instruction pointer stays on the program.
    fn process_instruction(&mut self, instruction: I) -> (r: Signal<Self::Value>)
        requires
            old(self).instr_ptr() < old(self).program().len(),
        ensures
            old(self).processed(instruction, *final(self), r),
            final(self).program() == old(self).program(),
            final(self).instr_ptr() < final(self).program().len(),
            final(self).instr_ptr() < usize::MAX,
    ;

    fn get_current_instruction(&self) -> (r: I)
        requires
            self.instr_ptr() < self.program().len(),
        ensures
            r == self.program()[self.instr_ptr() as int],
    {
        Program::get(self.get_program(), self.get_instr_ptr())
    }

    fn incr_instr_ptr(&mut self)
        requires
            old(self).instr_ptr() < usize::MAX,
        ensures
            old(self).moved_to(*final(self), (old(self).instr_ptr() + 1) as usize),
            final(self).instr_ptr() == old(self).instr_ptr() + 1,
            final(self).program() == old(self).program(),
    {
        let ip = self.get_instr_ptr();
        self.set_instr_ptr(ip + 1)
    }

    fn decr_instr_ptr(&mut self)
        requires
            old(self).instr_ptr() > 0,
        ensures
            old(self).moved_to(*final(self), (old(self).instr_ptr() - 1) as usize),
            final(self).instr_ptr() == old(self).instr_ptr() - 1,
            final(self).program() == old(self).program(),
    {
        let ip = self.get_instr_ptr();
        self.set_instr_ptr(ip - 1)
    }

    /// Fetches and executes the current instruction. With `incr`, the instruction
    /// pointer then moves on by one unless the run stops.
    fn step(&mut self, incr: bool) -> (r: Signal<Self::Value>)
        requires
            old(self).instr_ptr() < old(self).program().len(),
        ensures
            exists|mid: Self|
                {
                    &&& #[trigger] old(self).processed(
                        old(self).program()[old(self).instr_ptr() as int],
                        mid,
                        r,
                    )
                    &&& mid.instr_ptr() < mid.program().len()
                    &&& mid.instr_ptr() < usize::MAX
                    &&& if incr && r.advances() {
                        mid.moved_to(*final(self), (mid.instr_ptr() + 1) as usize)
                    } else {
                        *final(self) == mid
                    }
                },
            final(self).program() == old(self).program(),
    {
        let instruction = self.get_current_instruction();
        let r = self.process_instruction(instruction);
        let ghost mid = *self;
        let go_on = match r {
            Signal::Continue => true,
            Signal::Output(_) => true,
            Signal::Input => true,
            _ => false,
        };
        if incr && go_on {
            self.incr_instr_ptr();
        }
        assert(old(self).processed(old(self).program()[old(self).instr_ptr() as int], mid, r));
        r
    }
}


/// The state of a compiled-program interpreter: program, instruction pointer, tape
/// pointer, and the value of every cell.
#[verifier::ext_equal]
pub struct Machine {
    pub program: Seq<Instruction>,
    pub ip: usize,
    pub pointer: usize,
    pub cells: Map<usize, u8>,
}

/// `p + n` on unsigned addresses, wrapping around.
pub open spec fn wrap_add(p: usize, n: usize) -> usize {
    ((p + n) % (usize::MAX + 1)) as usize
}

/// `p - n` on unsigned addresses, wrapping around.
pub open spec fn wrap_sub(p: usize, n: usize) -> usize {
    ((p - n) % (usize::MAX + 1)) as usize
}

/// The value of a cell after an increment or decrement instruction (others leave it).
pub open spec fn cell_effect(v: u8, ins: Instruction) -> u8 {
    match ins {
        Instruction::Increment(n) => byte_add(v, n as int),
        Instruction::Decrement(n) => byte_add(v, -(n as int)),
        _ => v,
    }
}

/// The pointer after a move instruction (others leave it).
pub open spec fn move_effect(p: usize, ins: Instruction) -> usize {
    match ins {
        Instruction::MoveRight(n) => wrap_add(p, n),
        Instruction::MoveLeft(n) => wrap_sub(p, n),
        _ => p,
    }
}

/// Executes one instruction, leaving the instruction pointer where a taken loop
/// branch puts it (on the partner boundary) and otherwise in place.
pub open spec fn execute(m: Machine, ins: Instruction) -> (Machine, Signal<u8>) {
    let v = m.cells[m.pointer];
    match ins {
        Instruction::MoveRight(_) | Instruction::MoveLeft(_) => (
            Machine { pointer: move_effect(m.pointer, ins), ..m },
            Signal::Continue,
        ),
        Instruction::Increment(_) | Instruction::Decrement(_) => if m.pointer < usize::MAX {
            (Machine { cells: m.cells.insert(m.pointer, cell_effect(v, ins)), ..m }, Signal::Continue)
        } else {
            (m, Signal::Fault)
        },
        Instruction::Read => if m.pointer < usize::MAX {
            (m, Signal::Input)
        } else {
            (m, Signal::Fault)
        },
        Instruction::Write => (m, Signal::Output(v)),
        Instruction::LoopStart(t) => if t >= m.program.len() {
            (m, Signal::Fault)
        } else if v == 0 {
            (Machine { ip: t, ..m }, Signal::Continue)
        } else {
            (m, Signal::Continue)
        },
        Instruction::LoopEnd(t) => if t >= m.program.len() {
            (m, Signal::Fault)
        } else if v != 0 {
            (Machine { ip: t, ..m }, Signal::Continue)
        } else {
            (m, Signal::Continue)
        },
        Instruction::End => (m, Signal::Halt),
    }
}

/// One full engine step with auto-increment: execute the current instruction, then move
/// the instruction pointer on by one unless the run stops.
pub open spec fn machine_step(m: Machine) -> (Machine, Signal<u8>) {
    if m.ip >= m.program.len() {
        (m, Signal::Fault)
    } else {
        let (m1, r) = execute(m, m.program[m.ip as int]);
        if r.advances() {
            (Machine { ip: (m1.ip + 1) as usize, ..m1 }, r)
        } else {
            (m1, r)
        }
    }
}

/// The state after `n` engine steps.
pub open spec fn run(m: Machine, n: nat) -> Machine
    decreases n,
{
    if n == 0 {
        m
    } else {
        run(machine_step(m).0, (n - 1) as nat)
    }
}

/// A runnable state: the program fits in memory, ends in `End` and holds no other, every loop target
/// lies before that `End`, the instruction pointer is on the program, and every cell
/// has a value.
pub open spec fn well_formed(m: Machine) -> bool {
    &&& 1 <= m.program.len() <= usize::MAX
    &&& m.program.last() == Instruction::End
    &&& forall|i: int| 0 <= i < m.program.len() - 1 ==> #[trigger] m.program[i] != Instruction::End
    &&& forall|i: int|
        0 <= i < m.program.len() ==> match #[trigger] m.program[i] {
            Instruction::LoopStart(t) => t < m.program.len() - 1,
            Instruction::LoopEnd(t) => t < m.program.len() - 1,
            _ => true,
        }
    &&& m.ip < m.program.len()
    &&& forall|j: usize| #[trigger] m.cells.contains_key(j)
}

/// A step that lets the run go on keeps the state runnable.
pub proof fn lemma_step_well_formed(m: Machine)
    requires
        well_formed(m),
    ensures
        machine_step(m).1.advances() ==> well_formed(machine_step(m).0),
{
    let ins = m.program[m.ip as int];
    if machine_step(m).1.advances() {
        assert(ins != Instruction::End);
        assert(m.ip < m.program.len() - 1);
        let m2 = machine_step(m).0;
        assert(m2.program == m.program);
        assert forall|j: usize| #[trigger] m2.cells.contains_key(j) by {
            assert(m.cells.contains_key(j));
        }
    }
}

/// The cell value after the cell effects of `ops`, in order.
pub open spec fn cell_after(v: u8, ops: Seq<Instruction>) -> u8
    decreases ops.len(),
{
    if ops.len() == 0 {
        v
    } else {
        cell_after(cell_effect(v, ops[0]), ops.drop_first())
    }
}

/// The sum of the increments in `ops` minus the sum of its decrements.
pub open spec fn net_change(ops: Seq<Instruction>) -> int
    decreases ops.len(),
{
    if ops.len() == 0 {
        0
    } else {
        let d = match ops[0] {
            Instruction::Increment(n) => n as int,
            Instruction::Decrement(n) => -(n as int),
            _ => 0,
        };
        d + net_change(ops.drop_first())
    }
}

/// The pointer after the moves of `ops`, in order.
pub open spec fn pointer_after(p: usize, ops: Seq<Instruction>) -> usize
    decreases ops.len(),
{
    if ops.len() == 0 {
        p
    } else {
        pointer_after(move_effect(p, ops[0]), ops.drop_first())
    }
}

/// The sum of the rightward moves in `ops` minus the sum of its leftward moves.
pub open spec fn net_moves(ops: Seq<Instruction>) -> int
    decreases ops.len(),
{
    if ops.len() == 0 {
        0
    } else {
        let d = match ops[0] {
            Instruction::MoveRight(n) => n as int,
            Instruction::MoveLeft(n) => -(n as int),
            _ => 0,
        };
        d + net_moves(ops.drop_first())
    }
}

/// Cell arithmetic composes: the cell ends at its start value plus all increments
/// minus all decrements, modulo 256.
pub proof fn lemma_cell_after_net(v: u8, ops: Seq<Instruction>)
    ensures
        cell_after(v, ops) == byte_add(v, net_change(ops)),
    decreases ops.len(),
{
    if ops.len() > 0 {
        let rest = ops.drop_first();
        let w = cell_effect(v, ops[0]);
        lemma_cell_after_net(w, rest);
        let d = net_change(ops) - net_change(rest);
        assert(w == byte_add(v, d));
        lemma_add_mod_noop(v + d, net_change(rest), 256);
        lemma_add_mod_noop_right((v + d) % 256, net_change(rest), 256);
    }
}

/// Pointer arithmetic composes: the pointer ends at its start plus all rightward
/// moves minus all leftward moves, wrapping around the unsigned address range.
pub proof fn lemma_pointer_after_net(p: usize, ops: Seq<Instruction>)
    ensures
        pointer_after(p, ops) == ((p + net_moves(ops)) % (usize::MAX + 1)) as usize,
    decreases ops.len(),
{
    let m = usize::MAX + 1;
    if ops.len() == 0 {
        lemma_small_mod(p as nat, m as nat);
    } else {
        let rest = ops.drop_first();
        let q = move_effect(p, ops[0]);
        lemma_pointer_after_net(q, rest);
        let d = net_moves(ops) - net_moves(rest);
        assert(q == ((p + d) % m) as usize);
        lemma_add_mod_noop(p + d, net_moves(rest), m);
        lemma_add_mod_noop_right((p + d) % m, net_moves(rest), m);
    }
}

/// Running a stretch of increments and decrements changes only the current cell, by
/// the net amount, modulo 256.
pub proof fn lemma_run_cell_arithmetic(m: Machine, n: nat)
    requires
        well_formed(m),
        m.ip + n < m.program.len(),
        m.pointer < usize::MAX,
        forall|i: int|
            m.ip <= i < m.ip + n ==> #[trigger] m.program[i] is Increment
                || m.program[i] is Decrement,
    ensures
        run(m, n).ip == m.ip + n,
        run(m, n).pointer == m.pointer,
        run(m, n).cells[m.pointer] == byte_add(
            m.cells[m.pointer],
            net_change(m.program.subrange(m.ip as int, m.ip + n)),
        ),
        forall|j: usize| j != m.pointer ==> #[trigger] run(m, n).cells[j] == m.cells[j],
    decreases n,
{
    let ops = m.program.subrange(m.ip as int, m.ip + n);
    if n == 0 {
        lemma_cell_after_net(m.cells[m.pointer], ops);
    } else {
        let m1 = machine_step(m).0;
        assert(m.program[m.ip as int] is Increment || m.program[m.ip as int] is Decrement);
        assert(execute(m, m.program[m.ip as int]).1 == Signal::<u8>::Continue);
        assert(m1.program == m.program);
        assert(m1.ip == m.ip + 1);
        assert(run(m, n) == run(m1, (n - 1) as nat));
        lemma_step_well_formed(m);
        lemma_run_cell_arithmetic(m1, (n - 1) as nat);
        let rest = m1.program.subrange(m1.ip as int, m1.ip + n - 1);
        assert(ops.drop_first() =~= rest);
        lemma_cell_after_net(m.cells[m.pointer], ops);
        lemma_cell_after_net(m1.cells[m.pointer], rest);
        assert(m1.cells[m.pointer] == cell_effect(m.cells[m.pointer], ops[0]));
    }
}

/// Running a stretch of moves changes only the pointer, by the net amount, wrapping
/// around the unsigned address range.
pub proof fn lemma_run_pointer_arithmetic(m: Machine, n: nat)
    requires
        well_formed(m),
        m.ip + n < m.program.len(),
        forall|i: int|
            m.ip <= i < m.ip + n ==> #[trigger] m.program[i] is MoveRight
                || m.program[i] is MoveLeft,
    ensures
        run(m, n).ip == m.ip + n,
        run(m, n).cells == m.cells,
        run(m, n).pointer == ((m.pointer + net_moves(m.program.subrange(m.ip as int, m.ip + n)))
            % (usize::MAX + 1)) as usize,
    decreases n,
{
    let ops = m.program.subrange(m.ip as int, m.ip + n);
    if n == 0 {
        lemma_pointer_after_net(m.pointer, ops);
    } else {
        let m1 = machine_step(m).0;
        assert(m.program[m.ip as int] is MoveRight || m.program[m.ip as int] is MoveLeft);
        assert(execute(m, m.program[m.ip as int]).1 == Signal::<u8>::Continue);
        assert(m1.program == m.program);
        assert(m1.ip == m.ip + 1);
        assert(run(m, n) == run(m1, (n - 1) as nat));
        lemma_step_well_formed(m);
        lemma_run_pointer_arithmetic(m1, (n - 1) as nat);
        let rest = m1.program.subrange(m1.ip as int, m1.ip + n - 1);
        assert(ops.drop_first() =~= rest);
        lemma_pointer_after_net(m.pointer, ops);
        lemma_pointer_after_net(m1.pointer, rest);
    }
}

/// The compiled form of the clearing loop `[-]`.
pub open spec fn clear_loop_program() -> Seq<Instruction> {
    seq![
        Instruction::LoopStart(2),
        Instruction::Decrement(1),
        Instruction::LoopEnd(0),
        Instruction::End,
    ]
}

proof fn lemma_run_two(m: Machine, x: nat)
    ensures
        run(m, x + 2) == run(machine_step(machine_step(m).0).0, x),
{
    assert(run(m, x + 2) == run(machine_step(m).0, x + 1));
    assert(run(machine_step(m).0, x + 1) == run(machine_step(machine_step(m).0).0, x));
}

/// State `s` is at the start of the clearing loop's body, with `left` in the cell.
pub open spec fn in_pass(m: Machine, s: Machine, left: nat) -> bool {
    &&& s.ip == 1
    &&& s.pointer == m.pointer
    &&& s.cells == m.cells.insert(m.pointer, left as u8)
}

proof fn lemma_clear_loop_body(m: Machine, c: nat)
    requires
        m.program == clear_loop_program(),
        m.ip == 1,
        m.pointer < usize::MAX,
        m.cells.contains_key(m.pointer),
        m.cells[m.pointer] == c,
        c > 0,
    ensures
        run(m, 2 * c).program == m.program,
        run(m, 2 * c).ip == 3,
        run(m, 2 * c).pointer == m.pointer,
        run(m, 2 * c).cells == m.cells.insert(m.pointer, 0),
        forall|k: nat| #![trigger run(m, 2 * k)] k < c ==> in_pass(m, run(m, 2 * k), (c - k) as nat),
        forall|t: nat|
            t < 2 * c ==> #[trigger] run(m, t).ip == (if t % 2 == 0 {
                1int
            } else {
                2int
            }) && machine_step(run(m, t)).1 == Signal::<u8>::Continue,
    decreases c,
{
    let m1 = machine_step(m).0;
    let m2 = machine_step(m1).0;
    lemma_small_mod((c - 1) as nat, 256);
    assert(m1.cells == m.cells.insert(m.pointer, (c - 1) as u8));
    assert(m1.ip == 2);
    lemma_run_two(m, (2 * c - 2) as nat);
    assert(m.cells.insert(m.pointer, c as u8) =~= m.cells);
    assert(run(m, 0) == m);
    assert(run(m1, 0) == m1);
    assert(run(m, 1) == m1);
    if c == 1 {
        assert(m2.ip == 3);
        assert(run(m2, 0) == m2);
        assert forall|k: nat| #![trigger run(m, 2 * k)] k < c implies in_pass(
            m,
            run(m, 2 * k),
            (c - k) as nat,
        ) by {
            assert(run(m, 0) == m);
        }
    } else {
        assert(m2.ip == 1);
        assert(m2.cells == m1.cells);
        lemma_clear_loop_body(m2, (c - 1) as nat);
        assert forall|t: nat| t < 2 * c implies #[trigger] run(m, t).ip == (if t % 2 == 0 {
            1int
        } else {
            2int
        }) && machine_step(run(m, t)).1 == Signal::<u8>::Continue by {
            if t >= 2 {
                lemma_run_two(m, (t - 2) as nat);
                assert(run(m2, (t - 2) as nat).ip == (if (t - 2) % 2 == 0 {
                    1int
                } else {
                    2int
                }));
            }
        }
        assert(m2.cells.insert(m.pointer, 0) =~= m.cells.insert(m.pointer, 0));
        assert forall|k: nat| #![trigger run(m, 2 * k)] k < c implies in_pass(
            m,
            run(m, 2 * k),
            (c - k) as nat,
        ) by {
            if k == 0 {
                assert(run(m, 0) == m);
            } else {
                let k1 = (k - 1) as nat;
                lemma_run_two(m, 2 * k1);
                assert(2 * k1 + 2 == 2 * k);
                assert(k1 < (c - 1) as nat);
                assert(in_pass(m2, run(m2, 2 * k1), ((c - 1) as nat - k1) as nat));
                assert(m2.cells.insert(m.pointer, (c - 1 - k1) as u8) =~= m.cells.insert(
                    m.pointer,
                    (c - k) as u8,
                ));
            }
        }
    }
}

/// The clearing loop `[-]` on a cell holding `v > 0` runs its body exactly `v` times
/// (the body's decrement is the current instruction at exactly the odd steps up to
/// `2v`; after `1 + 2k` steps, for each `k < v`, the cell holds `v - k`), asks for no
/// input or output on the way, then halts with the cell at 0, the pointer and the
/// other cells unchanged.
pub proof fn lemma_clear_loop(m: Machine)
    requires
        well_formed(m),
        m.program == clear_loop_program(),
        m.ip == 0,
        m.pointer < usize::MAX,
        m.cells[m.pointer] > 0,
    ensures
        ({
            let v = m.cells[m.pointer] as nat;
            let done = run(m, 1 + 2 * v);
            &&& done.ip == 3
            &&& done.pointer == m.pointer
            &&& done.cells == m.cells.insert(m.pointer, 0)
            &&& machine_step(done).1 == Signal::<u8>::Halt
            &&& forall|k: nat| #![trigger run(m, 1 + 2 * k)]
                k < v ==> in_pass(m, run(m, 1 + 2 * k), (v - k) as nat)
            &&& forall|t: nat|
                1 <= t <= 2 * v ==> #[trigger] run(m, t).ip == (if t % 2 == 1 {
                    1int
                } else {
                    2int
                })
            &&& forall|t: nat|
                t <= 2 * v ==> #[trigger] machine_step(run(m, t)).1 == Signal::<u8>::Continue
        }),
{
    let v = m.cells[m.pointer] as nat;
    let m1 = machine_step(m).0;
    assert(m.cells.contains_key(m.pointer));
    assert(m1 == (Machine { ip: 1, ..m }));
    lemma_clear_loop_body(m1, v);
    assert(run(m, 1 + 2 * v) == run(m1, 2 * v));
    assert(run(m, 0) == m);
    assert forall|t: nat| 1 <= t <= 2 * v implies #[trigger] run(m, t).ip == (if t % 2 == 1 {
        1int
    } else {
        2int
    }) by {
        assert(run(m, t) == run(m1, (t - 1) as nat));
        assert(run(m1, (t - 1) as nat).ip == (if (t - 1) % 2 == 0 {
            1int
        } else {
            2int
        }));
    }
    assert forall|t: nat| t <= 2 * v implies #[trigger] machine_step(run(m, t)).1
        == Signal::<u8>::Continue by {
        if t >= 1 {
            assert(run(m, t) == run(m1, (t - 1) as nat));
            assert(machine_step(run(m1, (t - 1) as nat)).1 == Signal::<u8>::Continue);
        }
    }
    assert forall|k: nat| #![trigger run(m, 1 + 2 * k)] k < v implies in_pass(
        m,
        run(m, 1 + 2 * k),
        (v - k) as nat,
    ) by {
        assert(run(m, 1 + 2 * k) == run(m1, 2 * k));
        assert(in_pass(m1, run(m1, 2 * k), (v - k) as nat));
    }
}

/// Interprets compiled programs on a classic byte tape.
pub struct CompiledInterpreter {
    program: Vec<Instruction>,
    inst_ptr: usize,
    model: ClassicTapeModel<u8>,
}

impl View for CompiledInterpreter {
    type V = Machine;

    closed spec fn view(&self) -> Machine {
        Machine {
            program: self.program@,
            ip: self.inst_ptr,
            pointer: self.model.pointer(),
            cells: Map::new(|j: usize| true, |j: usize| self.model.cell_at(j)),
        }
    }
}

impl CompiledInterpreter {
    /// An interpreter holding the empty program, on a fresh tape.
    pub fn new() -> (r: Self)
        ensures
            r@.program == seq![Instruction::End],
            well_formed(r@),
            r@.ip == 0,
            r@.pointer == 0,
            forall|j: usize| #[trigger] r@.cells.contains_key(j) && r@.cells[j] == 0,
    {
        let mut program: Vec<Instruction> = Vec::new();
        program.push(Instruction::End);
        let r = Self { program, inst_ptr: 0, model: classic_tape() };
        assert(r@.program =~= seq![Instruction::End]);
        r
    }

    /// Compiles `source` and loads it, with the instruction pointer at its start. On a
    /// compile fault nothing changes.
    pub fn load_program(&mut self, source: &str) -> (r: Result<(), CompileError>)
        ensures
            r is Ok <==> balanced(ops_of(source@)),
            r is Ok ==> compiled_from(ops_of(source@), final(self)@.program) && final(self)@
                == (Machine { program: final(self)@.program, ip: 0, ..old(self)@ }),
            r is Ok ==> well_formed(final(self)@),
            r is Err ==> final(self)@ == old(self)@,
    {
        match compile(source) {
            Ok(program) => {
                assert(program@.len() == program.len());
                self.program = program;
                self.inst_ptr = 0;
                assert(self@ =~= (Machine { program: self@.program, ip: 0, ..old(self)@ }));
                proof {
                    let ops = ops_of(source@);
                    lemma_runs_no_end(symbols(source@));
                    let p = self@.program;
                    assert forall|i: int| 0 <= i < p.len() - 1 implies #[trigger] p[i]
                        != Instruction::End by {
                        assert(resolved_at(ops, p, i));
                        assert(ops[i] != Instruction::End);
                    }
                    assert forall|i: int| 0 <= i < p.len() implies match #[trigger] p[i] {
                        Instruction::LoopStart(t) => t < p.len() - 1,
                        Instruction::LoopEnd(t) => t < p.len() - 1,
                        _ => true,
                    } by {
                        if i < p.len() - 1 {
                            assert(resolved_at(ops, p, i));
                        }
                    }
                }
                Ok(())
            },
            Err(e) => Err(e),
        }
    }

    /// Stores a value obtained for an `Input` signal in the current cell.
    pub fn supply_input(&mut self, value: u8) -> (r: Signal<u8>)
        ensures
            old(self)@.pointer < usize::MAX ==> r == Signal::<u8>::Continue && final(self)@ == (
            Machine { cells: old(self)@.cells.insert(old(self)@.pointer, value), ..old(self)@ }),
            old(self)@.pointer == usize::MAX ==> r == Signal::<u8>::Fault && final(self)@ == old(
                self,
            )@,
    {
        if self.model.get_pointer() < usize::MAX {
            self.model.set_cell(value);
            assert(self@ =~= (Machine {
                cells: old(self)@.cells.insert(old(self)@.pointer, value),
                ..old(self)@
            }));
            Signal::Continue
        } else {
            Signal::Fault
        }
    }

    /// Executes the current instruction and moves the instruction pointer on by one
    /// unless the run stops. An instruction pointer off the program is a fault.
    pub fn run_step(&mut self) -> (r: Signal<u8>)
        ensures
            (final(self)@, r) == machine_step(old(self)@),
    {
        if self.inst_ptr >= self.program.len() {
            return Signal::Fault;
        }
        let r = self.step(true);
        let ghost mid = choose|mid: Self|
            {
                &&& #[trigger] old(self).processed(
                    old(self).program()[old(self).instr_ptr() as int],
                    mid,
                    r,
                )
                &&& mid.instr_ptr() < mid.program().len()
                &&& mid.instr_ptr() < usize::MAX
                &&& if r.advances() {
                    mid.moved_to(*self, (mid.instr_ptr() + 1) as usize)
                } else {
                    *self == mid
                }
            };
        assert(mid@.ip == mid.instr_ptr());
        r
    }

    /// The current tape pointer.
    pub fn pointer(&self) -> (r: usize)
        ensures
            r == self@.pointer,
    {
        self.model.get_pointer()
    }

    /// The value of the cell at `index`.
    pub fn cell(&self, index: usize) -> (r: u8)
        ensures
            r == self@.cells[index],
    {
        self.model.find_cell(index)
    }
}


/// `p + n`, wrapping around.
fn wrapping_add_addr(p: usize, n: usize) -> (r: usize)
    ensures
        r == wrap_add(p, n),
{
    if n <= usize::MAX - p {
        proof {
            lemma_small_mod((p + n) as nat, (usize::MAX + 1) as nat);
        }
        p + n
    } else {
        proof {
            lemma_mod_multiples_vanish(-1, p + n, usize::MAX + 1);
            lemma_small_mod((p + n - (usize::MAX + 1)) as nat, (usize::MAX + 1) as nat);
        }
        n - (usize::MAX - p) - 1
    }
}

/// `p - n`, wrapping around.
fn wrapping_sub_addr(p: usize, n: usize) -> (r: usize)
    ensures
        r == wrap_sub(p, n),
{
    if n <= p {
        proof {
            lemma_small_mod((p - n) as nat, (usize::MAX + 1) as nat);
        }
        p - n
    } else {
        proof {
            lemma_mod_multiples_vanish(1, p - n, usize::MAX + 1);
            lemma_small_mod((p - n + (usize::MAX + 1)) as nat, (usize::MAX + 1) as nat);
        }
        usize::MAX - (n - p) + 1
    }
}

impl Interpreter<Instruction> for CompiledInterpreter {
    type Value = u8;

    type Program = Vec<Instruction>;

    open spec fn program(&self) -> Seq<Instruction> {
        self@.program
    }

    open spec fn instr_ptr(&self) -> usize {
        self@.ip
    }

    open spec fn moved_to(self, next: Self, index: usize) -> bool {
        next@ == (Machine { ip: index, ..self@ })
    }

    open spec fn processed(self, instruction: Instruction, next: Self, r: Signal<u8>) -> bool {
        (next@, r) == execute(self@, instruction)
    }

    fn get_program(&self) -> (r: &Vec<Instruction>) {
        assert(Program::<Instruction>::instructions(&self.program) == self.program@);
        &self.program
    }

    fn get_instr_ptr(&self) -> (r: usize) {
        self.inst_ptr
    }

    fn set_instr_ptr(&mut self, index: usize) {
        self.inst_ptr = index;
        assert(self@ =~= (Machine { ip: index, ..old(self)@ }));
    }

    fn process_instruction(&mut self, instruction: Instruction) -> (r: Signal<u8>) {
        let pointer = self.model.get_pointer();
        let value = self.model.get_cell();
        let ghost m = self@;
        let ghost expected = execute(m, instruction);
        let len = self.program.len();
        match instruction {
            Instruction::MoveRight(n) => {
                self.model.set_pointer(wrapping_add_addr(pointer, n));
                assert(self@ =~= expected.0);
                Signal::Continue
            },
            Instruction::MoveLeft(n) => {
                self.model.set_pointer(wrapping_sub_addr(pointer, n));
                assert(self@ =~= expected.0);
                Signal::Continue
            },
            Instruction::Increment(n) => {
                if pointer < usize::MAX {
                    let v = value.wrapping_incr(n % 256);
                    proof {
                        lemma_add_mod_noop_right(value as int, n as int, 256);
                    }
                    self.model.set_cell(v);
                    assert(self@ =~= expected.0);
                    Signal::Continue
                } else {
                    Signal::Fault
                }
            },
            Instruction::Decrement(n) => {
                if pointer < usize::MAX {
                    let v = value.wrapping_decr(n % 256);
                    proof {
                        lemma_sub_mod_noop_right(value as int, n as int, 256);
                    }
                    self.model.set_cell(v);
                    assert(self@ =~= expected.0);
                    Signal::Continue
                } else {
                    Signal::Fault
                }
            },
            Instruction::Read => {
                if pointer < usize::MAX {
                    Signal::Input
                } else {
                    Signal::Fault
                }
            },
            Instruction::Write => Signal::Output(value),
            Instruction::LoopStart(target) => {
                if target >= len {
                    Signal::Fault
                } else {
                    if value == 0 {
                        self.set_instr_ptr(target);
                    }
                    Signal::Continue
                }
            },
            Instruction::LoopEnd(target) => {
                if target >= len {
                    Signal::Fault
                } else {
                    if value != 0 {
                        self.set_instr_ptr(target);
                    }
                    Signal::Continue
                }
            },
            Instruction::End => Signal::Halt,
        }
    }
}

} // verus!
