use vstd::prelude::*;
use vstd::arithmetic::div_mod::{lemma_add_mod_noop_right, lemma_mod_add_multiples_vanish, lemma_sub_mod_noop_right};
use crate::program::{
    Insn, Op, delta, depth, encoded, fold, lemma_match_unique, link, matches_at, ops_of, targets_in_range,
};

verus! {

/// Why a run stopped before the program counter left the program.
#[derive(PartialEq, Eq, Structural, Debug, Clone, Copy)]
pub enum RunError {
    /// The pointer, or a cell that an input instruction fills, left the tape.
    OutOfBounds,
    /// The run was still going when the step budget was spent.
    StepLimit,
}

/// The machine as a mathematical value.
pub struct State {
    pub tape: Seq<u8>,
    pub pointer: int,
    pub pc: int,
    pub input: Seq<u8>,
    pub in_pos: int,
    pub output: Seq<u8>,
}

/// The input byte at `i`, or 0 once the input is exhausted.
pub open spec fn input_byte(input: Seq<u8>, i: int) -> u8 {
    if 0 <= i < input.len() {
        input[i]
    } else {
        0
    }
}

/// The machine after executing the instruction at its program counter. A
/// taken jump lands on the partner bracket and moves past it at once, since
/// that bracket would only fall through.
#[verifier::opaque]
pub open spec fn step_spec(p: Seq<Insn>, s: State) -> Result<State, RunError> {
    let insn = p[s.pc];
    let n = insn.count as int;
    let cell = s.tape[s.pointer];
    let next = s.pc + 1;
    match insn.op {
        Op::Left => if n > s.pointer {
            Err(RunError::OutOfBounds)
        } else {
            Ok(State { pointer: s.pointer - n, pc: next, ..s })
        },
        Op::Right => if s.pointer + n >= s.tape.len() {
            Err(RunError::OutOfBounds)
        } else {
            Ok(State { pointer: s.pointer + n, pc: next, ..s })
        },
        Op::Inc => Ok(
            State { tape: s.tape.update(s.pointer, ((cell + n) % 256) as u8), pc: next, ..s },
        ),
        Op::Dec => Ok(
            State { tape: s.tape.update(s.pointer, ((cell - n) % 256) as u8), pc: next, ..s },
        ),
        Op::Out => Ok(State { output: s.output + Seq::new(n as nat, |_k: int| cell), pc: next, ..s }),
        Op::In => if s.pointer + n > s.tape.len() {
            Err(RunError::OutOfBounds)
        } else {
            Ok(
                State {
                    tape: Seq::new(
                        s.tape.len(),
                        |c: int|
                            if s.pointer <= c < s.pointer + n {
                                input_byte(s.input, s.in_pos + (c - s.pointer))
                            } else {
                                s.tape[c]
                            },
                    ),
                    in_pos: if s.in_pos + n < s.input.len() {
                        s.in_pos + n
                    } else {
                        s.input.len() as int
                    },
                    pc: next,
                    ..s
                },
            )
        },
        Op::FJump => Ok(State { pc: if cell == 0 { insn.count + 1 } else { next }, ..s }),
        Op::BJump => Ok(State { pc: if cell != 0 { insn.count + 1 } else { next }, ..s }),
    }
}

/// The run has halted: the program counter is past the last instruction.
pub open spec fn halted(p: Seq<Insn>, s: State) -> bool {
    s.pc >= p.len()
}

/// The machine after at most `fuel` steps, stopping early where it halts or
/// where a step fails.
pub open spec fn run_steps(p: Seq<Insn>, s: State, fuel: nat) -> Result<State, RunError>
    decreases fuel,
{
    if halted(p, s) || fuel == 0 {
        Ok(s)
    } else {
        match step_spec(p, s) {
            Ok(t) => run_steps(p, t, (fuel - 1) as nat),
            Err(e) => Err(e),
        }
    }
}

/// A fresh machine: a zeroed tape, pointer and program counter at 0.
pub open spec fn initial(tape_size: nat, input: Seq<u8>) -> State {
    State {
        tape: Seq::new(tape_size, |_c: int| 0u8),
        pointer: 0,
        pc: 0,
        input,
        in_pos: 0,
        output: seq![],
    }
}

/// A state the interpreter can be in.
pub open spec fn state_ok(s: State) -> bool {
    &&& 0 <= s.pointer < s.tape.len()
    &&& 0 <= s.in_pos <= s.input.len()
    &&& 0 <= s.pc
}

/// The interpreter: a fixed-size tape, its pointer, the program counter, the
/// input still to be read and the output written so far.
pub struct Machine {
    tape: Vec<u8>,
    pointer: usize,
    pc: usize,
    input: Vec<u8>,
    in_pos: usize,
    output: Vec<u8>,
}

impl View for Machine {
    type V = State;

    closed spec fn view(&self) -> State {
        State {
            tape: self.tape@,
            pointer: self.pointer as int,
            pc: self.pc as int,
            input: self.input@,
            in_pos: self.in_pos as int,
            output: self.output@,
        }
    }
}

impl Machine {
    pub open spec fn wf(&self) -> bool {
        state_ok(self@)
    }

    /// A machine with a zeroed tape of `tape_size` cells that reads `input`.
    pub fn new(tape_size: usize, input: Vec<u8>) -> (m: Machine)
        requires
            tape_size > 0,
        ensures
            m@ == initial(tape_size as nat, input@),
            m.wf(),
    {
        let m = Machine {
            tape: vec![0u8; tape_size],
            pointer: 0,
            pc: 0,
            input,
            in_pos: 0,
            output: Vec::new(),
        };
        assert(m.tape@ =~= Seq::new(tape_size as nat, |_c: int| 0u8));
        m
    }

    /// The index of the next instruction.
    pub fn pc(&self) -> (r: usize)
        ensures
            r == self@.pc,
    {
        self.pc
    }

    /// The current tape position.
    pub fn pointer(&self) -> (r: usize)
        ensures
            r == self@.pointer,
    {
        self.pointer
    }

    /// The value of cell `i`.
    pub fn cell(&self, i: usize) -> (r: u8)
        requires
            i < self@.tape.len(),
        ensures
            r == self@.tape[i as int],
    {
        self.tape[i]
    }

    /// The number of cells of the tape.
    pub fn tape_len(&self) -> (r: usize)
        ensures
            r == self@.tape.len(),
    {
        self.tape.len()
    }

    /// The bytes written so far.
    pub fn output(&self) -> (r: &Vec<u8>)
        ensures
            r@ == self@.output,
    {
        &self.output
    }

    /// Whether the program counter has run past the program.
    pub fn is_halted(&self, program: &Vec<Insn>) -> (r: bool)
        ensures
            r == halted(program@, self@),
    {
        self.pc >= program.len()
    }

    /// Executes the instruction at the program counter. On success the
    /// machine is in the state that the transition rules give; on failure its
    /// state is of no further use.
    pub fn step(&mut self, program: &Vec<Insn>) -> (r: Result<(), RunError>)
        requires
            old(self).wf(),
            old(self)@.pc < program.len(),
            targets_in_range(program@),
        ensures
            match step_spec(program@, old(self)@) {
                Ok(t) => r is Ok && final(self)@ == t && final(self).wf(),
                Err(e) => r == Err::<(), RunError>(e),
            },
    {
        reveal(step_spec);
        let insn = program[self.pc];
        let ghost st = self@;
        assert(insn == program@[self.pc as int]);
        let n = insn.count;
        let p = self.pointer;
        let cell = self.tape[p];
        match insn.op {
            Op::Left => {
                if n > p {
                    return Err(RunError::OutOfBounds);
                }
                self.pointer = p - n;
            },
            Op::Right => {
                if n >= self.tape.len() - p {
                    return Err(RunError::OutOfBounds);
                }
                self.pointer = p + n;
            },
            Op::Inc => {
                let v = ((cell as usize + n % 256) % 256) as u8;
                proof {
                    lemma_add_mod_noop_right(cell as int, n as int, 256);
                }
                self.tape[p] = v;
            },
            Op::Dec => {
                let v = ((cell as usize + 256 - n % 256) % 256) as u8;
                proof {
                    lemma_mod_add_multiples_vanish(cell as int - n as int % 256, 256);
                    lemma_sub_mod_noop_right(cell as int, n as int, 256);
                }
                self.tape[p] = v;
            },
            Op::Out => {
                let ghost out0 = self.output@;
                let mut k: usize = 0;
                while k < n
                    invariant
                        k <= n,
                        out0 == st.output,
                        self@ == (State { output: out0 + Seq::new(k as nat, |_k: int| cell), ..st }),
                    decreases n - k,
                {
                    self.output.push(cell);
                    k = k + 1;
                    assert(self.output@ =~= out0 + Seq::new(k as nat, |_k: int| cell));
                    assert(self@ == (State { output: out0 + Seq::new(k as nat, |_k: int| cell), ..st }));
                }
            },
            Op::In => {
                if n > self.tape.len() - p {
                    return Err(RunError::OutOfBounds);
                }
                let ghost s0 = self@;
                let len = self.tape.len();
                let mut k: usize = 0;
                while k < n
                    invariant
                        s0 == old(self)@,
                        s0 == st,
                        k <= n,
                        p + n <= len,
                        len == self.tape@.len(),
                        self.tape@.len() == s0.tape.len(),
                        self.input@ == s0.input,
                        self.pointer == p,
                        self.pc == s0.pc,
                        self.output@ == s0.output,
                        s0.in_pos <= s0.input.len(),
                        self.in_pos as int == if s0.in_pos + k < s0.input.len() {
                            s0.in_pos + k
                        } else {
                            s0.input.len() as int
                        },
                        forall|c: int|
                            0 <= c < s0.tape.len() ==> #[trigger] self.tape@[c] == if p <= c < p + k {
                                input_byte(s0.input, s0.in_pos + (c - p))
                            } else {
                                s0.tape[c]
                            },
                    decreases n - k,
                {
                    let b = if self.in_pos < self.input.len() {
                        let b = self.input[self.in_pos];
                        self.in_pos = self.in_pos + 1;
                        b
                    } else {
                        0u8
                    };
                    self.tape[p + k] = b;
                    k = k + 1;
                }
                proof {
                    let t = step_spec(program@, s0)->Ok_0;
                    assert(self.tape@ =~= t.tape);
                }
            },
            Op::FJump => {
                if cell == 0 {
                    self.pc = n;
                }
            },
            Op::BJump => {
                if cell != 0 {
                    self.pc = n;
                }
            },
        }
        self.pc = self.pc + 1;
        proof {
            let t = step_spec(program@, st)->Ok_0;
            assert(self@.tape =~= t.tape);
            assert(self@.output =~= t.output);
            assert(self@ == t);
        }
        Ok(())
    }

    /// Hands out the bytes written since the last call and clears them.
    pub fn take_output(&mut self) -> (r: Vec<u8>)
        requires
            old(self).wf(),
        ensures
            r@ == old(self)@.output,
            final(self)@ == (State { output: seq![], ..old(self)@ }),
            final(self).wf(),
    {
        let mut r: Vec<u8> = Vec::new();
        std::mem::swap(&mut r, &mut self.output);
        r
    }

    /// Gives up the machine for the bytes it wrote.
    pub fn into_output(self) -> (r: Vec<u8>)
        ensures
            r@ == self@.output,
    {
        self.output
    }
}

/// Runs `program` on a fresh tape of `tape_size` cells, reading `input`, for
/// at most `max_steps` steps. The output comes back where the run halts in
/// that budget; otherwise the error of the failing step, or `StepLimit`.
pub fn run(program: &Vec<Insn>, input: Vec<u8>, tape_size: usize, max_steps: usize) -> (r: Result<
    Vec<u8>,
    RunError,
>)
    requires
        tape_size > 0,
        targets_in_range(program@),
    ensures
        match run_steps(program@, initial(tape_size as nat, input@), max_steps as nat) {
            Ok(t) => if halted(program@, t) {
                r is Ok && r->Ok_0@ == t.output
            } else {
                r == Err::<Vec<u8>, RunError>(RunError::StepLimit)
            },
            Err(e) => r == Err::<Vec<u8>, RunError>(e),
        },
{
    let ghost init = initial(tape_size as nat, input@);
    let mut m = Machine::new(tape_size, input);
    let ghost goal = run_steps(program@, init, max_steps as nat);
    let mut steps: usize = 0;
    while steps < max_steps && !m.is_halted(program)
        invariant
            m.wf(),
            steps <= max_steps,
            targets_in_range(program@),
            run_steps(program@, m@, (max_steps - steps) as nat) == goal,
            goal == run_steps(program@, init, max_steps as nat),
            init == initial(tape_size as nat, input@),
        decreases max_steps - steps,
    {
        let ghost before = m@;
        assert(run_steps(program@, before, (max_steps - steps) as nat) == match step_spec(
            program@,
            before,
        ) {
            Ok(t) => run_steps(program@, t, (max_steps - steps - 1) as nat),
            Err(e) => Err(e),
        });
        match m.step(program) {
            Err(e) => {
                return Err(e);
            },
            Ok(()) => {},
        }
        steps = steps + 1;
    }
    if m.is_halted(program) {
        Ok(m.into_output())
    } else {
        Err(RunError::StepLimit)
    }
}


/// Decrementing a cell by 256 leaves it as it was: a cell at 0 wraps through
/// 255 and back to 0.
pub proof fn lemma_decrement_wraps(p: Seq<Insn>, s: State)
    requires
        state_ok(s),
        s.pc < p.len(),
        p[s.pc] == (Insn { op: Op::Dec, count: 256 }),
    ensures
        step_spec(p, s) is Ok,
        step_spec(p, s)->Ok_0.tape == s.tape,
        s.tape[s.pointer] == 0 ==> step_spec(p, s)->Ok_0.tape[s.pointer] == 0,
{
    reveal(step_spec);
    let v = s.tape[s.pointer] as int;
    assert((v - 256) % 256 == v) by {
        lemma_mod_add_multiples_vanish(v - 256, 256);
    }
    assert(step_spec(p, s)->Ok_0.tape =~= s.tape);
}

/// An input instruction that asks for more bytes than remain fills the cells
/// past the end of the input with 0, succeeds, and leaves the input exhausted.
pub proof fn lemma_input_past_end(p: Seq<Insn>, s: State)
    requires
        state_ok(s),
        s.pc < p.len(),
        p[s.pc].op == Op::In,
        s.pointer + p[s.pc].count <= s.tape.len(),
        s.in_pos + p[s.pc].count > s.input.len(),
    ensures
        step_spec(p, s) is Ok,
        step_spec(p, s)->Ok_0.in_pos == s.input.len(),
        forall|c: int|
            s.pointer <= c < s.pointer + (s.input.len() - s.in_pos)
                ==> #[trigger] step_spec(p, s)->Ok_0.tape[c] == s.input[s.in_pos + (c - s.pointer)],
        forall|c: int|
            s.pointer + (s.input.len() - s.in_pos) <= c < s.pointer + p[s.pc].count
                ==> #[trigger] step_spec(p, s)->Ok_0.tape[c] == 0,
{
    reveal(step_spec);
}

/// A move that would take the pointer below the first cell or past the last
/// one stops the run with `OutOfBounds`, whatever the tape's size.
pub proof fn lemma_move_out_of_bounds(p: Seq<Insn>, s: State, fuel: nat)
    requires
        state_ok(s),
        s.pc < p.len(),
        fuel > 0,
        (p[s.pc].op == Op::Left && p[s.pc].count > s.pointer) || (p[s.pc].op == Op::Right
            && s.pointer + p[s.pc].count >= s.tape.len()),
    ensures
        step_spec(p, s) == Err::<State, RunError>(RunError::OutOfBounds),
        run_steps(p, s, fuel) == Err::<State, RunError>(RunError::OutOfBounds),
{
    reveal(step_spec);
}

/// The program of the loop `[-]`.
pub open spec fn clear_loop() -> Seq<Insn> {
    seq![
        Insn { op: Op::FJump, count: 2 },
        Insn { op: Op::Dec, count: 1 },
        Insn { op: Op::BJump, count: 0 },
    ]
}

/// The source `[-]` encodes to that program.
pub proof fn lemma_clear_loop_encoding()
    ensures
        encoded(seq!['[', '-', ']']) == clear_loop(),
{
    let s = seq!['[', '-', ']'];
    let s2 = seq!['[', '-'];
    let s1 = seq!['['];
    assert(s.drop_last() =~= s2);
    assert(s2.drop_last() =~= s1);
    assert(s1.drop_last() =~= Seq::<char>::empty());
    let q = seq![
        Insn { op: Op::FJump, count: 0 },
        Insn { op: Op::Dec, count: 1 },
        Insn { op: Op::BJump, count: 0 },
    ];
    assert(fold(s1.drop_last()) =~= Seq::<Insn>::empty());
    assert(s1.last() == '[' && s2.last() == '-' && s.last() == ']');
    assert(fold(s1) =~= seq![Insn { op: Op::FJump, count: 0 }]);
    assert(fold(s2) =~= seq![Insn { op: Op::FJump, count: 0 }, Insn { op: Op::Dec, count: 1 }]);
    assert(fold(s) =~= q);
    let o = ops_of(q);
    assert(o =~= seq![Op::FJump, Op::Dec, Op::BJump]);
    assert(depth(o, 0, 0) == 0);
    assert(depth(o, 0, 1) == 1);
    assert(depth(o, 0, 2) == 1);
    assert(depth(o, 0, 3) == 0);
    assert(matches_at(o, 0, 2));
    lemma_match_unique(o, 0, 2);
    assert(link(q) =~= clear_loop());
}

proof fn lemma_clear_loop_body(s: State, m: nat)
    requires
        state_ok(s),
        s.pc == 1,
        1 <= m < 256,
        s.tape[s.pointer] == m,
    ensures
        run_steps(clear_loop(), s, 2 * m) == Ok::<State, RunError>(
            State { tape: s.tape.update(s.pointer, 0u8), pc: 3, ..s },
        ),
        forall|k: nat|
            k < 2 * m ==> #[trigger] run_steps(clear_loop(), s, k) is Ok && !halted(
                clear_loop(),
                run_steps(clear_loop(), s, k)->Ok_0,
            ),
    decreases m,
{
    reveal(step_spec);
    let p = clear_loop();
    let s2 = State { tape: s.tape.update(s.pointer, (m - 1) as u8), pc: 2, ..s };
    assert(((m - 1) % 256) as u8 == (m - 1) as u8);
    assert(step_spec(p, s) == Ok::<State, RunError>(s2));
    let s3 = State { pc: if m - 1 != 0 { 1 } else { 3 }, ..s2 };
    assert(step_spec(p, s2) == Ok::<State, RunError>(s3));
    assert(run_steps(p, s, 2 * m) == run_steps(p, s2, (2 * m - 1) as nat));
    assert(run_steps(p, s2, (2 * m - 1) as nat) == run_steps(p, s3, (2 * m - 2) as nat));
    if m == 1 {
        assert(s3 == State { tape: s.tape.update(s.pointer, 0u8), pc: 3, ..s });
    } else {
        lemma_clear_loop_body(s3, (m - 1) as nat);
        assert(s3.tape.update(s.pointer, 0u8) =~= s.tape.update(s.pointer, 0u8));
    }
    assert forall|k: nat| k < 2 * m implies #[trigger] run_steps(p, s, k) is Ok && !halted(
        p,
        run_steps(p, s, k)->Ok_0,
    ) by {
        if k >= 2 {
            assert(run_steps(p, s, k) == run_steps(p, s2, (k - 1) as nat));
            assert(run_steps(p, s2, (k - 1) as nat) == run_steps(p, s3, (k - 2) as nat));
        } else if k == 1 {
            assert(run_steps(p, s, k) == run_steps(p, s2, 0));
        }
    }
}

/// The loop `[-]` entered on a cell holding `n` (0 < n < 256) runs its body
/// exactly `n` times: after 2n + 1 steps it has halted with the cell cleared
/// and all else as before, and at no earlier step has it halted.
pub proof fn lemma_clear_loop(s: State, n: nat)
    requires
        state_ok(s),
        s.pc == 0,
        0 < n < 256,
        s.tape[s.pointer] == n,
    ensures
        run_steps(clear_loop(), s, 2 * n + 1) == Ok::<State, RunError>(
            State { tape: s.tape.update(s.pointer, 0u8), pc: 3, ..s },
        ),
        halted(clear_loop(), State { tape: s.tape.update(s.pointer, 0u8), pc: 3, ..s }),
        forall|k: nat|
            k < 2 * n + 1 ==> #[trigger] run_steps(clear_loop(), s, k) is Ok && !halted(
                clear_loop(),
                run_steps(clear_loop(), s, k)->Ok_0,
            ),
{
    reveal(step_spec);
    let p = clear_loop();
    let s1 = State { pc: 1, ..s };
    assert(step_spec(p, s) == Ok::<State, RunError>(s1));
    lemma_clear_loop_body(s1, n);
    assert(run_steps(p, s, 2 * n + 1) == run_steps(p, s1, 2 * n));
    assert forall|k: nat| k < 2 * n + 1 implies #[trigger] run_steps(p, s, k) is Ok && !halted(
        p,
        run_steps(p, s, k)->Ok_0,
    ) by {
        if k >= 1 {
            assert(run_steps(p, s, k) == run_steps(p, s1, (k - 1) as nat));
        }
    }
}

} // verus!
