use cbfi::program::{encode, parse, EncodeError, Insn, Op};

fn insn(op: Op, count: usize) -> Insn {
    Insn { op, count }
}

#[test]
fn from_char_maps_the_eight_symbols() {
    assert_eq!(Op::from_char('<'), Some(Op::Left));
    assert_eq!(Op::from_char('>'), Some(Op::Right));
    assert_eq!(Op::from_char('+'), Some(Op::Inc));
    assert_eq!(Op::from_char('-'), Some(Op::Dec));
    assert_eq!(Op::from_char('.'), Some(Op::Out));
    assert_eq!(Op::from_char(','), Some(Op::In));
    assert_eq!(Op::from_char('['), Some(Op::FJump));
    assert_eq!(Op::from_char(']'), Some(Op::BJump));
    assert_eq!(Op::from_char(' '), None);
    assert_eq!(Op::from_char('a'), None);
    assert_eq!(Op::from_char('\n'), None);
}

#[test]
fn run_of_operations_folds_into_one_instruction() {
    assert_eq!(parse("+++++"), vec![insn(Op::Inc, 5)]);
    assert_eq!(parse(">>>"), vec![insn(Op::Right, 3)]);
    assert_eq!(parse("."), vec![insn(Op::Out, 1)]);
    let long: String = std::iter::repeat('-').take(1000).collect();
    assert_eq!(parse(&long), vec![insn(Op::Dec, 1000)]);
}

#[test]
fn last_run_is_kept() {
    assert_eq!(parse("+>>"), vec![insn(Op::Inc, 1), insn(Op::Right, 2)]);
}

#[test]
fn empty_and_noise_sources_give_empty_programs() {
    assert_eq!(parse(""), vec![]);
    assert_eq!(parse("hello world\n"), vec![]);
}

#[test]
fn noise_ends_a_run() {
    assert_eq!(parse("+ +"), vec![insn(Op::Inc, 1), insn(Op::Inc, 1)]);
    assert_eq!(parse("++x++-"), vec![insn(Op::Inc, 2), insn(Op::Inc, 2), insn(Op::Dec, 1)]);
}

#[test]
fn brackets_are_never_merged() {
    assert_eq!(
        parse("[[]]"),
        vec![insn(Op::FJump, 3), insn(Op::FJump, 2), insn(Op::BJump, 1), insn(Op::BJump, 0)]
    );
}

#[test]
fn nested_loops_are_linked_to_their_partners() {
    let p = parse("+[->[-]<]");
    assert_eq!(
        p,
        vec![
            insn(Op::Inc, 1),
            insn(Op::FJump, 8),
            insn(Op::Dec, 1),
            insn(Op::Right, 1),
            insn(Op::FJump, 6),
            insn(Op::Dec, 1),
            insn(Op::BJump, 4),
            insn(Op::Left, 1),
            insn(Op::BJump, 1),
        ]
    );
    for (i, x) in p.iter().enumerate() {
        if x.op == Op::FJump {
            let j = x.count;
            assert!(j > i);
            assert_eq!(p[j].op, Op::BJump);
            assert_eq!(p[j].count, i);
        }
    }
}

#[test]
fn clear_loop_encodes_as_three_instructions() {
    assert_eq!(
        parse("[-]"),
        vec![insn(Op::FJump, 2), insn(Op::Dec, 1), insn(Op::BJump, 0)]
    );
}

#[test]
fn unmatched_brackets_keep_target_zero() {
    assert_eq!(parse("+["), vec![insn(Op::Inc, 1), insn(Op::FJump, 0)]);
    assert_eq!(parse("+]"), vec![insn(Op::Inc, 1), insn(Op::BJump, 0)]);
}

#[test]
fn encode_accepts_balanced_sources() {
    assert_eq!(encode("[-]"), Ok(parse("[-]")));
    assert_eq!(encode("a+b"), Ok(vec![insn(Op::Inc, 1)]));
}

#[test]
fn encode_names_the_first_unmatched_bracket() {
    assert_eq!(encode("["), Err(EncodeError::MalformedProgram { position: 0 }));
    assert_eq!(encode("+]"), Err(EncodeError::MalformedProgram { position: 1 }));
    assert_eq!(encode("[]]"), Err(EncodeError::MalformedProgram { position: 2 }));
    assert_eq!(encode("[[]"), Err(EncodeError::MalformedProgram { position: 0 }));
    assert_eq!(encode("][]"), Err(EncodeError::MalformedProgram { position: 0 }));
}
