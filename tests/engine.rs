use fckmaker::interpreter::{CompiledInterpreter, Interpreter, Signal};
use fckmaker::naive::NaiveInterpreter;
use fckmaker::program::{CompileError, Instruction};

const HELLO: &str = "++++++++[>++++[>++>+++>+++>+<<<<-]>+>+>->>+[<]<-]>>.>---.+++++++..+++.>>.<-.<.+++.------.--------.>>+.>++.";

/// Runs to the end, feeding `input` on request; returns the output and the last signal.
fn run_compiled(interp: &mut CompiledInterpreter, input: &[u8]) -> (Vec<u8>, Signal<u8>) {
    let mut out = Vec::new();
    let mut next_input = 0;
    for _ in 0..1_000_000 {
        match interp.run_step() {
            Signal::Continue => {}
            Signal::Output(v) => out.push(v),
            Signal::Input => {
                let r = interp.supply_input(input[next_input]);
                next_input += 1;
                assert_eq!(r, Signal::Continue);
            }
            s => return (out, s),
        }
    }
    panic!("program did not stop");
}

fn run_naive(interp: &mut NaiveInterpreter, input: &[u8]) -> (Vec<u8>, Signal<u8>) {
    let mut out = Vec::new();
    let mut next_input = 0;
    for _ in 0..10_000_000 {
        match interp.run_step() {
            Signal::Continue => {}
            Signal::Output(v) => out.push(v),
            Signal::Input => {
                let r = interp.supply_input(input[next_input]);
                next_input += 1;
                assert_eq!(r, Signal::Continue);
            }
            s => return (out, s),
        }
    }
    panic!("program did not stop");
}

fn compiled(source: &str) -> CompiledInterpreter {
    let mut interp = CompiledInterpreter::new();
    interp.load_program(source).unwrap();
    interp
}

fn naive(source: &str) -> NaiveInterpreter {
    let mut interp = NaiveInterpreter::new();
    interp.load_program(source);
    interp
}

#[test]
fn increments_write_three_once() {
    let mut interp = compiled("+++.");
    let (out, last) = run_compiled(&mut interp, &[]);
    assert_eq!(out, vec![3]);
    assert_eq!(last, Signal::Halt);
}

#[test]
fn read_then_write_echoes() {
    let mut interp = compiled(",.");
    let (out, last) = run_compiled(&mut interp, &[65]);
    assert_eq!(out, vec![65]);
    assert_eq!(last, Signal::Halt);
    let mut interp = compiled(",,.");
    let (out, _) = run_compiled(&mut interp, &[1, 200]);
    assert_eq!(out, vec![200]);
}

#[test]
fn clear_loop_runs_body_once_per_unit() {
    for v in [1u8, 2, 7, 255] {
        let mut interp = compiled(",[-]");
        assert_eq!(interp.run_step(), Signal::Input);
        assert_eq!(interp.supply_input(v), Signal::Continue);
        let mut body_runs = 0;
        loop {
            if interp.get_current_instruction() == Instruction::Decrement(1) {
                body_runs += 1;
            }
            match interp.run_step() {
                Signal::Continue => {}
                Signal::Halt => break,
                s => panic!("unexpected signal {:?}", s),
            }
        }
        assert_eq!(body_runs, v as usize);
        assert_eq!(interp.cell(0), 0);
        assert_eq!(interp.pointer(), 0);
    }
}

#[test]
fn move_and_print_on_classic_tape() {
    let mut interp = compiled("++>+++<.");
    let (out, last) = run_compiled(&mut interp, &[]);
    assert_eq!(out, vec![2]);
    assert_eq!(last, Signal::Halt);
    assert_eq!(interp.pointer(), 0);
    assert_eq!(interp.cell(1), 3);
}

#[test]
fn unbalanced_source_never_runs() {
    let mut interp = CompiledInterpreter::new();
    assert!(matches!(interp.load_program("[[]"), Err(CompileError::UnmatchedLoopStart(_))));
    assert_eq!(interp.get_program(), &vec![Instruction::End]);
    assert_eq!(interp.run_step(), Signal::Halt);
}

#[test]
fn cell_arithmetic_wraps() {
    let mut interp = compiled("+++--");
    run_compiled(&mut interp, &[]);
    assert_eq!(interp.cell(0), 1);
    let mut interp = compiled("-");
    run_compiled(&mut interp, &[]);
    assert_eq!(interp.cell(0), 255);
    let source = "+".repeat(300);
    let mut interp = compiled(&source);
    run_compiled(&mut interp, &[]);
    assert_eq!(interp.cell(0), 44);
}

#[test]
fn pointer_arithmetic_sums_moves() {
    let mut interp = compiled(">>>><<>");
    run_compiled(&mut interp, &[]);
    assert_eq!(interp.pointer(), 3);
}

#[test]
fn compiled_moves_wrap_below_start() {
    let mut interp = compiled("<");
    let (_, last) = run_compiled(&mut interp, &[]);
    assert_eq!(last, Signal::Halt);
    assert_eq!(interp.pointer(), usize::MAX);
    let mut interp = compiled("<+");
    let (_, last) = run_compiled(&mut interp, &[]);
    assert_eq!(last, Signal::Fault);
}

#[test]
fn naive_moves_fault_below_start() {
    let mut interp = naive("<");
    let (_, last) = run_naive(&mut interp, &[]);
    assert_eq!(last, Signal::Fault);
    assert_eq!(interp.pointer(), 0);
}

#[test]
fn compiled_hello_world() {
    let mut interp = compiled(HELLO);
    let (out, last) = run_compiled(&mut interp, &[]);
    assert_eq!(String::from_utf8(out).unwrap(), "Hello World!\n");
    assert_eq!(last, Signal::Halt);
}

#[test]
fn naive_hello_world() {
    let mut interp = naive(HELLO);
    let (out, last) = run_naive(&mut interp, &[]);
    assert_eq!(String::from_utf8(out).unwrap(), "Hello World!\n");
    assert_eq!(last, Signal::Halt);
}

#[test]
fn naive_echo_and_loops() {
    let mut interp = naive(",.");
    let (out, _) = run_naive(&mut interp, &[42]);
    assert_eq!(out, vec![42]);
    let mut interp = naive("++>+++<.");
    let (out, _) = run_naive(&mut interp, &[]);
    assert_eq!(out, vec![2]);
    assert_eq!(interp.pointer(), 0);
    let mut interp = naive(",[-]");
    let (_, last) = run_naive(&mut interp, &[9]);
    assert_eq!(last, Signal::Halt);
    assert_eq!(interp.cell(0), 0);
}

#[test]
fn naive_unbalanced_faults() {
    let mut interp = naive("[[]");
    let (_, last) = run_naive(&mut interp, &[]);
    assert_eq!(last, Signal::Fault);
    let mut interp = naive("+]");
    let (_, last) = run_naive(&mut interp, &[]);
    assert_eq!(last, Signal::Fault);
}

#[test]
fn instruction_pointer_management() {
    let mut interp = compiled("+++.");
    assert_eq!(interp.get_instr_ptr(), 0);
    interp.incr_instr_ptr();
    interp.incr_instr_ptr();
    assert_eq!(interp.get_instr_ptr(), 2);
    interp.decr_instr_ptr();
    assert_eq!(interp.get_instr_ptr(), 1);
    assert_eq!(interp.get_current_instruction(), Instruction::Write);
    interp.set_instr_ptr(0);
    assert_eq!(interp.step(true), Signal::Continue);
    assert_eq!(interp.get_instr_ptr(), 1);
    assert_eq!(interp.step(false), Signal::Output(3));
    assert_eq!(interp.get_instr_ptr(), 1);
}

#[test]
fn fault_on_bad_symbol() {
    let mut interp = naive("+");
    assert_eq!(interp.process_instruction('x'), Signal::Fault);
}
