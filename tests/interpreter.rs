use cbfi::machine::{run, Machine, RunError};
use cbfi::program::parse;

fn repeat(c: char, n: usize) -> String {
    std::iter::repeat(c).take(n).collect()
}

#[test]
fn greeting_program_prints_hello_world() {
    let src = "++++++++[>++++[>++>+++>+++>+<<<<-]>+>+>->>+[<]<-]>>.>---.+++++++..+++.>>.<-.<.+++.------.--------.>>+.>++.";
    let prog = parse(src);
    let out = run(&prog, vec![], 3000, 1_000_000);
    assert_eq!(out, Ok(b"Hello World!\n".to_vec()));
}

#[test]
fn decrement_by_256_wraps_back_to_zero() {
    let prog = parse(&repeat('-', 256));
    let mut m = Machine::new(4, vec![]);
    assert_eq!(m.step(&prog), Ok(()));
    assert_eq!(m.cell(0), 0);
    assert!(m.is_halted(&prog));
}

#[test]
fn decrement_below_zero_wraps_to_255() {
    let out = run(&parse("-."), vec![], 1, 10);
    assert_eq!(out, Ok(vec![255]));
}

#[test]
fn increment_wraps_past_255() {
    let src = format!("{}.", repeat('+', 257));
    assert_eq!(run(&parse(&src), vec![], 1, 10), Ok(vec![1]));
}

#[test]
fn clear_loop_runs_once_per_unit() {
    for n in 1..256usize {
        let prog = parse(&format!("{}[-]", repeat('+', n)));
        let mut m = Machine::new(2, vec![]);
        let mut steps = 0usize;
        let mut decrements = 0usize;
        while !m.is_halted(&prog) {
            if prog[m.pc()].op == cbfi::program::Op::Dec {
                decrements += 1;
            }
            assert_eq!(m.step(&prog), Ok(()));
            steps += 1;
        }
        assert_eq!(decrements, n);
        assert_eq!(steps, 2 * n + 2);
        assert_eq!(m.cell(0), 0);
    }
}

#[test]
fn input_past_the_end_fills_zeros() {
    let prog = parse(",,,,");
    let mut m = Machine::new(6, vec![7, 8]);
    assert_eq!(m.step(&prog), Ok(()));
    assert_eq!(m.cell(0), 7);
    assert_eq!(m.cell(1), 8);
    assert_eq!(m.cell(2), 0);
    assert_eq!(m.cell(3), 0);
    assert_eq!(m.pointer(), 0);
    assert!(m.is_halted(&prog));
}

#[test]
fn input_overwrites_cells_with_zero_once_exhausted() {
    let out = run(&parse("+>+>+>+<<<,,,,.>.>.>."), vec![7, 8], 4, 100);
    assert_eq!(out, Ok(vec![7, 8, 0, 0]));
}

#[test]
fn input_past_the_tape_is_out_of_bounds() {
    assert_eq!(run(&parse(">,,"), vec![1, 2], 2, 10), Err(RunError::OutOfBounds));
}

#[test]
fn move_below_start_is_out_of_bounds() {
    assert_eq!(run(&parse("<"), vec![], 3000, 10), Err(RunError::OutOfBounds));
    assert_eq!(run(&parse("+.>><<<"), vec![], 3000, 10), Err(RunError::OutOfBounds));
}

#[test]
fn move_past_end_is_out_of_bounds_for_any_size() {
    for size in 1..20usize {
        let ok = run(&parse(&repeat('>', size - 1)), vec![], size, 10);
        assert_eq!(ok, Ok(vec![]));
        let bad = run(&parse(&repeat('>', size)), vec![], size, 10);
        assert_eq!(bad, Err(RunError::OutOfBounds));
    }
}

#[test]
fn output_writes_count_copies_of_the_cell() {
    assert_eq!(run(&parse("+++..."), vec![], 5, 10), Ok(vec![3, 3, 3]));
}

#[test]
fn echo_copies_input() {
    assert_eq!(run(&parse(",.>,."), b"hi".to_vec(), 10, 10), Ok(b"hi".to_vec()));
}

#[test]
fn endless_loop_hits_the_step_limit() {
    assert_eq!(run(&parse("+[]"), vec![], 1, 100), Err(RunError::StepLimit));
}

#[test]
fn zero_cell_skips_the_loop() {
    assert_eq!(run(&parse("[+.]."), vec![], 1, 100), Ok(vec![0]));
}

#[test]
fn empty_program_halts_at_once() {
    assert_eq!(run(&vec![], vec![], 1, 0), Ok(vec![]));
}
