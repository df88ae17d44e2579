use vstd::prelude::*;

verus! {

/// Largest repeat count of one increment or decrement instruction: one wrap cycle.
pub const MAX_CELL_RUN: usize = 256;

/// One compiled instruction. Loop boundaries carry the position of their partner.
#[derive(Clone, Copy, Debug, PartialEq, Eq, Structural)]
pub enum Instruction {
    MoveRight(usize),
    MoveLeft(usize),
    Increment(u32),
    Decrement(u32),
    Read,
    Write,
    LoopStart(usize),
    LoopEnd(usize),
    End,
}

/// Why a source text could not be compiled.
#[derive(Clone, Copy, Debug, PartialEq, Eq, Structural)]
pub enum CompileError {
    /// A loop end with no loop start before it, at this instruction position.
    UnmatchedLoopEnd(usize),
    /// A loop start that is never closed, at this instruction position.
    UnmatchedLoopStart(usize),
}

/// The eight recognized symbols; every other character is a comment.
pub open spec fn is_symbol(c: char) -> bool {
    c == '>' || c == '<' || c == '+' || c == '-' || c == '.' || c == ',' || c == '[' || c == ']'
}

/// The recognized symbols of `src`, in order.
pub open spec fn symbols(src: Seq<char>) -> Seq<char>
    decreases src.len(),
{
    if src.len() == 0 {
        Seq::empty()
    } else if is_symbol(src.last()) {
        symbols(src.drop_last()).push(src.last())
    } else {
        symbols(src.drop_last())
    }
}

/// How many copies of symbol `c` one instruction may stand for.
pub open spec fn run_cap(c: char) -> nat {
    if c == '>' || c == '<' {
        usize::MAX as nat
    } else if c == '+' || c == '-' {
        MAX_CELL_RUN as nat
    } else {
        1
    }
}

/// The length of the run of `c` at the front of `s`, at most `cap`.
pub open spec fn run_len(s: Seq<char>, c: char, cap: nat) -> nat
    decreases s.len(),
{
    if s.len() == 0 || s[0] != c || cap == 0 {
        0
    } else {
        1 + run_len(s.drop_first(), c, (cap - 1) as nat)
    }
}

/// The instruction for a run of `k` copies of symbol `c`, loop targets not yet resolved.
pub open spec fn op_of(c: char, k: nat) -> Instruction {
    if c == '>' {
        Instruction::MoveRight(k as usize)
    } else if c == '<' {
        Instruction::MoveLeft(k as usize)
    } else if c == '+' {
        Instruction::Increment(k as u32)
    } else if c == '-' {
        Instruction::Decrement(k as u32)
    } else if c == ',' {
        Instruction::Read
    } else if c == '.' {
        Instruction::Write
    } else if c == '[' {
        Instruction::LoopStart(0)
    } else {
        Instruction::LoopEnd(0)
    }
}

proof fn lemma_run_len_bound(s: Seq<char>, c: char, cap: nat)
    ensures
        run_len(s, c, cap) <= s.len(),
        run_len(s, c, cap) <= cap,
        s.len() > 0 && s[0] == c && cap > 0 ==> run_len(s, c, cap) >= 1,
    decreases s.len(),
{
    if s.len() > 0 && s[0] == c && cap > 0 {
        lemma_run_len_bound(s.drop_first(), c, (cap - 1) as nat);
    }
}

/// The symbol sequence `s` with each maximal run (up to its cap) collapsed into one instruction.
pub open spec fn runs(s: Seq<char>) -> Seq<Instruction>
    decreases s.len(),
    via runs_decreases
{
    if s.len() == 0 {
        Seq::empty()
    } else {
        let k = run_len(s, s[0], run_cap(s[0]));
        seq![op_of(s[0], k)] + runs(s.subrange(k as int, s.len() as int))
    }
}

#[via_fn]
proof fn runs_decreases(s: Seq<char>) {
    if s.len() > 0 {
        lemma_run_len_bound(s, s[0], run_cap(s[0]));
    }
}

/// The instructions of `src` before loop targets are resolved.
pub open spec fn ops_of(src: Seq<char>) -> Seq<Instruction> {
    runs(symbols(src))
}

/// The nesting change of one instruction.
pub open spec fn delta(i: Instruction) -> int {
    match i {
        Instruction::LoopStart(_) => 1,
        Instruction::LoopEnd(_) => -1,
        _ => 0,
    }
}

/// Loop starts minus loop ends among the positions `a .. b` of `p`.
pub open spec fn depth(p: Seq<Instruction>, a: int, b: int) -> int
    decreases b - a,
{
    if b <= a {
        0
    } else {
        depth(p, a, b - 1) + delta(p[b - 1])
    }
}

/// The loop start at `i` and the loop end at `j` enclose each other.
pub open spec fn matched(p: Seq<Instruction>, i: int, j: int) -> bool {
    &&& 0 <= i < j < p.len()
    &&& p[i] is LoopStart
    &&& p[j] is LoopEnd
    &&& depth(p, i, j + 1) == 0
    &&& forall|l: int| i < l <= j ==> #[trigger] depth(p, i, l) > 0
}

/// Every loop end closes an earlier loop start, and every loop start is closed.
pub open spec fn balanced(p: Seq<Instruction>) -> bool {
    &&& depth(p, 0, p.len() as int) == 0
    &&& forall|l: int| 0 <= l <= p.len() ==> #[trigger] depth(p, 0, l) >= 0
}

/// Some prefix of `p` closes more loops than it opens.
pub open spec fn has_stray_end(p: Seq<Instruction>) -> bool {
    exists|l: int| 0 <= l <= p.len() && #[trigger] depth(p, 0, l) < 0
}

/// Position `i` of `prog` is `ops[i]` with its loop target resolved to its partner.
pub open spec fn resolved_at(ops: Seq<Instruction>, prog: Seq<Instruction>, i: int) -> bool {
    match ops[i] {
        Instruction::LoopStart(_) => prog[i] matches Instruction::LoopStart(t) && matched(
            ops,
            i,
            t as int,
        ),
        Instruction::LoopEnd(_) => prog[i] matches Instruction::LoopEnd(t) && matched(
            ops,
            t as int,
            i,
        ),
        _ => prog[i] == ops[i],
    }
}

/// `prog` is `ops` with every loop target resolved, followed by `End`.
pub open spec fn compiled_from(ops: Seq<Instruction>, prog: Seq<Instruction>) -> bool {
    &&& prog.len() == ops.len() + 1
    &&& prog.last() == Instruction::End
    &&& forall|i: int| 0 <= i < ops.len() ==> #[trigger] resolved_at(ops, prog, i)
}

/// Depths over adjacent ranges add up.
pub proof fn lemma_depth_split(p: Seq<Instruction>, a: int, b: int, c: int)
    requires
        a <= b <= c,
    ensures
        depth(p, a, b) + depth(p, b, c) == depth(p, a, c),
    decreases c - b,
{
    if b < c {
        lemma_depth_split(p, a, b, c - 1);
    }
}


/// The recognized symbols of `source`, in order. Characters are fetched by position,
/// so the scan takes time quadratic in the length of `source`.
pub fn filter_symbols(source: &str) -> (r: Vec<char>)
    ensures
        r@ == symbols(source@),
{
    let n = source.unicode_len();
    let mut out: Vec<char> = Vec::new();
    let mut i: usize = 0;
    while i < n
        invariant
            n == source@.len(),
            i <= n,
            out@ == symbols(source@.subrange(0, i as int)),
        decreases n - i,
    {
        let c = source.get_char(i);
        proof {
            let next = source@.subrange(0, i + 1);
            assert(next.drop_last() =~= source@.subrange(0, i as int));
            assert(next.last() == c);
        }
        if c == '>' || c == '<' || c == '+' || c == '-' || c == '.' || c == ',' || c == '['
            || c == ']' {
            out.push(c);
        }
        i = i + 1;
    }
    assert(source@.subrange(0, n as int) =~= source@);
    out
}

/// The instruction for `count` copies of symbol `c`, loop targets left at 0.
fn make_op(c: char, count: usize) -> (r: Instruction)
    requires
        is_symbol(c),
        count <= run_cap(c),
    ensures
        r == op_of(c, count as nat),
{
    if c == '>' {
        Instruction::MoveRight(count)
    } else if c == '<' {
        Instruction::MoveLeft(count)
    } else if c == '+' {
        Instruction::Increment(count as u32)
    } else if c == '-' {
        Instruction::Decrement(count as u32)
    } else if c == ',' {
        Instruction::Read
    } else if c == '.' {
        Instruction::Write
    } else if c == '[' {
        Instruction::LoopStart(0)
    } else {
        Instruction::LoopEnd(0)
    }
}

/// Collapses runs of identical symbols into single instructions.
pub fn collapse_runs(chars: &Vec<char>) -> (r: Vec<Instruction>)
    requires
        forall|i: int| 0 <= i < chars@.len() ==> is_symbol(#[trigger] chars@[i]),
    ensures
        r@ == runs(chars@),
{
    let n = chars.len();
    let mut out: Vec<Instruction> = Vec::new();
    let mut cursor: usize = 0;
    assert(chars@.subrange(0, n as int) =~= chars@);
    while cursor < n
        invariant
            n == chars@.len(),
            cursor <= n,
            forall|i: int| 0 <= i < chars@.len() ==> is_symbol(#[trigger] chars@[i]),
            runs(chars@) == out@ + runs(chars@.subrange(cursor as int, n as int)),
        decreases n - cursor,
    {
        let ch = chars[cursor];
        let max: usize = if ch == '>' || ch == '<' {
            usize::MAX
        } else if ch == '+' || ch == '-' {
            MAX_CELL_RUN
        } else {
            1
        };
        let ghost rest = chars@.subrange(cursor as int, n as int);
        let mut counter: usize = 0;
        while cursor + counter < n && chars[cursor + counter] == ch && counter < max
            invariant
                n == chars@.len(),
                cursor < n,
                cursor + counter <= n,
                counter <= max,
                max == run_cap(ch),
                rest == chars@.subrange(cursor as int, n as int),
                run_len(rest, ch, max as nat) == counter + run_len(
                    chars@.subrange(cursor + counter, n as int),
                    ch,
                    (max - counter) as nat,
                ),
            decreases n - cursor - counter,
        {
            assert(chars@.subrange(cursor + counter, n as int).drop_first() =~= chars@.subrange(
                cursor + counter + 1,
                n as int,
            ));
            counter = counter + 1;
        }
        let ghost tail = chars@.subrange(cursor + counter, n as int);
        assert(run_len(tail, ch, (max - counter) as nat) == 0);
        assert(rest[0] == ch);
        let op = make_op(ch, counter);
        proof {
            assert(rest.subrange(counter as int, rest.len() as int) =~= tail);
            assert(runs(rest) == seq![op] + runs(tail));
            assert(out@.push(op) + runs(tail) =~= out@ + (seq![op] + runs(tail)));
        }
        out.push(op);
        cursor = cursor + counter;
    }
    assert(chars@.subrange(n as int, n as int) =~= Seq::<char>::empty());
    assert(out@ + Seq::<Instruction>::empty() =~= out@);
    out
}


/// Resolves the target of every loop boundary in `ops` with an explicit stack of open
/// loop starts, and appends `End`.
pub fn resolve_loops(ops: Vec<Instruction>) -> (r: Result<Vec<Instruction>, CompileError>)
    ensures
        r is Ok <==> balanced(ops@),
        r matches Ok(prog) ==> compiled_from(ops@, prog@),
        r matches Err(CompileError::UnmatchedLoopEnd(_)) <==> has_stray_end(ops@),
        r matches Err(CompileError::UnmatchedLoopStart(pos)) ==> {
            &&& ops@[pos as int] is LoopStart
            &&& forall|l: int| pos < l <= ops@.len() ==> #[trigger] depth(ops@, pos as int, l) > 0
        },
{
    let ghost p = ops@;
    let n = ops.len();
    let mut prog = ops;
    let mut stack: Vec<usize> = Vec::new();
    let mut j: usize = 0;
    while j < n
        invariant
            p == ops@,
            n == p.len(),
            j <= n,
            prog@.len() == n,
            forall|k: int| 0 <= k < stack@.len() ==> #[trigger] stack@[k] < j,
            forall|k: int| 0 <= k < stack@.len() ==> p[#[trigger] stack@[k] as int] is LoopStart,
            forall|k1: int, k2: int|
                0 <= k1 < k2 < stack@.len() ==> #[trigger] stack@[k1] < #[trigger] stack@[k2],
            forall|k: int|
                0 <= k < stack@.len() ==> depth(p, #[trigger] stack@[k] as int, j as int)
                    == stack@.len() - k,
            forall|k: int, l: int|
                0 <= k < stack@.len() && stack@[k] < l <= j ==> #[trigger] depth(
                    p,
                    #[trigger] stack@[k] as int,
                    l,
                ) > 0,
            depth(p, 0, j as int) == stack@.len(),
            forall|l: int| 0 <= l <= j ==> #[trigger] depth(p, 0, l) >= 0,
            forall|i: int| j <= i < n ==> #[trigger] prog@[i] == p[i],
            forall|i: int|
                0 <= i < j ==> #[trigger] resolved_at(p, prog@, i) || exists|k: int|
                    0 <= k < stack@.len() && #[trigger] stack@[k] == i,
        decreases n - j,
    {
        let ghost old_stack = stack@;
        let ghost old_prog = prog@;
        assert(depth(p, 0, j + 1) == depth(p, 0, j as int) + delta(p[j as int]));
        assert forall|k: int| 0 <= k < stack@.len() implies depth(p, #[trigger] stack@[k] as int, j + 1)
            == depth(p, stack@[k] as int, j as int) + delta(p[j as int]) by {}
        match prog[j] {
            Instruction::LoopStart(_) => {
                stack.push(j);
                assert(depth(p, j as int, j as int) == 0);
                assert(depth(p, j as int, j + 1) == 1);
                assert forall|i: int| 0 <= i < j + 1 implies #[trigger] resolved_at(p, prog@, i)
                    || exists|k: int| 0 <= k < stack@.len() && #[trigger] stack@[k] == i by {
                    if i == j {
                        assert(stack@[old_stack.len() as int] == i);
                    } else if !resolved_at(p, prog@, i) {
                        let k = choose|k: int| 0 <= k < old_stack.len() && #[trigger] old_stack[k] == i;
                        assert(stack@[k] == i);
                    }
                }
            },
            Instruction::LoopEnd(_) => {
                match stack.pop() {
                    None => {
                        assert(depth(p, 0, j + 1) < 0);
                        assert(has_stray_end(p));
                        assert(!balanced(p));
                        return Err(CompileError::UnmatchedLoopEnd(j));
                    },
                    Some(start) => {
                        let ghost top = old_stack.len() - 1;
                        assert(old_stack[top] == start);
                        assert(matched(p, start as int, j as int));
                        prog.set(start, Instruction::LoopStart(j));
                        prog.set(j, Instruction::LoopEnd(start));
                        assert forall|i: int| 0 <= i < j + 1 implies #[trigger] resolved_at(
                            p,
                            prog@,
                            i,
                        ) || exists|k: int| 0 <= k < stack@.len() && #[trigger] stack@[k] == i by {
                            if i == j || i == start {
                            } else if resolved_at(p, old_prog, i) {
                                assert(prog@[i] == old_prog[i]);
                            } else {
                                let k = choose|k: int|
                                    0 <= k < old_stack.len() && #[trigger] old_stack[k] == i;
                                assert(k != top);
                                assert(stack@[k] == i);
                            }
                        }
                    },
                }
            },
            _ => {
                assert forall|i: int| 0 <= i < j + 1 implies #[trigger] resolved_at(p, prog@, i)
                    || exists|k: int| 0 <= k < stack@.len() && #[trigger] stack@[k] == i by {
                    if i < j && !resolved_at(p, prog@, i) {
                        let k = choose|k: int| 0 <= k < old_stack.len() && #[trigger] old_stack[k] == i;
                        assert(stack@[k] == i);
                    }
                }
            },
        }
        j = j + 1;
    }
    if stack.len() > 0 {
        let pos = stack[0];
        proof {
            assert forall|l: int| pos < l <= n implies #[trigger] depth(p, pos as int, l) > 0 by {
                assert(depth(p, stack@[0] as int, l) > 0);
            }
            assert(!balanced(p));
            assert forall|l: int| 0 <= l <= p.len() implies #[trigger] depth(p, 0, l) >= 0 by {}
        }
        return Err(CompileError::UnmatchedLoopStart(pos));
    }
    proof {
        assert forall|i: int| 0 <= i < n implies #[trigger] resolved_at(p, prog@, i) by {
            if !resolved_at(p, prog@, i) {
                let k = choose|k: int| 0 <= k < stack@.len() && #[trigger] stack@[k] == i;
            }
        }
        assert forall|l: int| 0 <= l <= p.len() implies #[trigger] depth(p, 0, l) >= 0 by {}
    }
    let ghost resolved = prog@;
    prog.push(Instruction::End);
    assert forall|i: int| 0 <= i < n implies #[trigger] resolved_at(p, prog@, i) by {
        assert(resolved_at(p, resolved, i));
        assert(prog@[i] == resolved[i]);
    }
    Ok(prog)
}


proof fn lemma_symbols_recognized(src: Seq<char>)
    ensures
        forall|i: int| 0 <= i < symbols(src).len() ==> is_symbol(#[trigger] symbols(src)[i]),
    decreases src.len(),
{
    if src.len() > 0 {
        lemma_symbols_recognized(src.drop_last());
        let prev = symbols(src.drop_last());
        assert forall|i: int| 0 <= i < symbols(src).len() implies is_symbol(
            #[trigger] symbols(src)[i],
        ) by {
            if i < prev.len() {
                assert(symbols(src)[i] == prev[i]);
            }
        }
    }
}

/// Compiles source text: comments dropped, runs collapsed, loop targets resolved, `End`
/// appended. Fails exactly when the loop boundaries are unbalanced.
pub fn compile(source: &str) -> (r: Result<Vec<Instruction>, CompileError>)
    ensures
        r is Ok <==> balanced(ops_of(source@)),
        r matches Ok(prog) ==> compiled_from(ops_of(source@), prog@),
        r matches Err(CompileError::UnmatchedLoopEnd(_)) <==> has_stray_end(ops_of(source@)),
        r matches Err(CompileError::UnmatchedLoopStart(pos)) ==> {
            &&& ops_of(source@)[pos as int] is LoopStart
            &&& forall|l: int|
                pos < l <= ops_of(source@).len() ==> #[trigger] depth(
                    ops_of(source@),
                    pos as int,
                    l,
                ) > 0
        },
{
    let chars = filter_symbols(source);
    proof {
        lemma_symbols_recognized(source@);
    }
    let ops = collapse_runs(&chars);
    resolve_loops(ops)
}

/// No instruction produced from source symbols is `End`.
pub proof fn lemma_runs_no_end(s: Seq<char>)
    ensures
        forall|i: int| 0 <= i < runs(s).len() ==> #[trigger] runs(s)[i] != Instruction::End,
    decreases s.len(),
{
    if s.len() > 0 {
        let k = run_len(s, s[0], run_cap(s[0]));
        lemma_run_len_bound(s, s[0], run_cap(s[0]));
        let rest = s.subrange(k as int, s.len() as int);
        lemma_runs_no_end(rest);
        assert forall|i: int| 0 <= i < runs(s).len() implies #[trigger] runs(s)[i]
            != Instruction::End by {
            if i > 0 {
                assert(runs(s)[i] == runs(rest)[i - 1]);
            }
        }
    }
}

/// A loop start has at most one partner, and so has a loop end.
pub proof fn lemma_matched_unique(p: Seq<Instruction>, i1: int, j1: int, i2: int, j2: int)
    requires
        matched(p, i1, j1),
        matched(p, i2, j2),
        i1 == i2 || j1 == j2,
    ensures
        i1 == i2 && j1 == j2,
{
    if i1 == i2 {
        if j1 < j2 {
            assert(depth(p, i1, j1 + 1) > 0);
        } else if j2 < j1 {
            assert(depth(p, i1, j2 + 1) > 0);
        }
    } else {
        if i1 < i2 {
            lemma_depth_split(p, i1, i2, j1 + 1);
            assert(depth(p, i1, i2) > 0);
        } else {
            lemma_depth_split(p, i2, i1, j1 + 1);
            assert(depth(p, i2, i1) > 0);
        }
    }
}

/// Compilation is deterministic: any two programs that `compile` may return for the
/// same source agree at every position, loop targets included.
pub proof fn lemma_compile_deterministic(
    source: Seq<char>,
    first: Seq<Instruction>,
    second: Seq<Instruction>,
)
    requires
        compiled_from(ops_of(source), first),
        compiled_from(ops_of(source), second),
    ensures
        first == second,
{
    let ops = ops_of(source);
    assert forall|i: int| 0 <= i < first.len() implies first[i] == second[i] by {
        if i < ops.len() {
            assert(resolved_at(ops, first, i));
            assert(resolved_at(ops, second, i));
            match ops[i] {
                Instruction::LoopStart(_) => {
                    let t1 = first[i]->LoopStart_0;
                    let t2 = second[i]->LoopStart_0;
                    lemma_matched_unique(ops, i, t1 as int, i, t2 as int);
                },
                Instruction::LoopEnd(_) => {
                    let t1 = first[i]->LoopEnd_0;
                    let t2 = second[i]->LoopEnd_0;
                    lemma_matched_unique(ops, t1 as int, i, t2 as int, i);
                },
                _ => {},
            }
        }
    }
    assert(first =~= second);
}

} // verus!
