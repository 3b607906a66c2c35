use vstd::prelude::*;

verus! {

/// One of the eight operations of the language.
#[derive(PartialEq, Eq, Structural, Debug, Clone, Copy)]
pub enum Op {
    Left,
    Right,
    Inc,
    Dec,
    Out,
    In,
    FJump,
    BJump,
}

/// The operation a source character stands for, if any.
pub open spec fn op_of(c: char) -> Option<Op> {
    if c == '<' {
        Some(Op::Left)
    } else if c == '>' {
        Some(Op::Right)
    } else if c == '+' {
        Some(Op::Inc)
    } else if c == '-' {
        Some(Op::Dec)
    } else if c == '.' {
        Some(Op::Out)
    } else if c == ',' {
        Some(Op::In)
    } else if c == '[' {
        Some(Op::FJump)
    } else if c == ']' {
        Some(Op::BJump)
    } else {
        None
    }
}

impl Op {
    /// A loop bracket, `[` or `]`.
    pub open spec fn is_bracket(self) -> bool {
        self == Op::FJump || self == Op::BJump
    }

    /// The operation written by `c`; `None` for any other character.
    pub fn from_char(c: char) -> (r: Option<Op>)
        ensures
            r == op_of(c),
    {
        match c {
            '<' => Some(Op::Left),
            '>' => Some(Op::Right),
            '+' => Some(Op::Inc),
            '-' => Some(Op::Dec),
            '.' => Some(Op::Out),
            ',' => Some(Op::In),
            '[' => Some(Op::FJump),
            ']' => Some(Op::BJump),
            _ => None,
        }
    }
}


/// One instruction: an operation with its repeat count, or, for a bracket,
/// the index of the partner bracket in the same program.
#[derive(PartialEq, Eq, Structural, Debug, Clone, Copy)]
pub struct Insn {
    pub op: Op,
    pub count: usize,
}

/// Run-length folding of the source, before brackets are linked. Each
/// character extends the program: noise adds nothing, a bracket adds one
/// instruction with target 0, and any other operation either lengthens the
/// instruction of the run it continues or starts a new one of count 1.
pub open spec fn fold(s: Seq<char>) -> Seq<Insn>
    decreases s.len(),
{
    if s.len() == 0 {
        seq![]
    } else {
        let c = s.last();
        let rest = fold(s.drop_last());
        match op_of(c) {
            None => rest,
            Some(op) => if op.is_bracket() {
                rest.push(Insn { op, count: 0 })
            } else if s.len() >= 2 && s[s.len() - 2] == c {
                rest.update(rest.len() - 1, Insn { op, count: (rest.last().count + 1) as usize })
            } else {
                rest.push(Insn { op, count: 1 })
            },
        }
    }
}

/// Facts about every folded program: brackets carry target 0, every other
/// instruction has a count between 1 and the source length, and a source that
/// ends in a non-bracket operation ends in an instruction of that operation.
pub proof fn lemma_fold_shape(s: Seq<char>)
    requires
        s.len() <= usize::MAX,
    ensures
        forall|k: int|
            0 <= k < fold(s).len() ==> (if (#[trigger] fold(s)[k]).op.is_bracket() {
                fold(s)[k].count == 0
            } else {
                1 <= fold(s)[k].count <= s.len()
            }),
        fold(s).len() <= s.len(),
        s.len() > 0 && op_of(s.last()).is_some() && !op_of(s.last()).unwrap().is_bracket()
            ==> fold(s).len() > 0 && fold(s).last().op == op_of(s.last()).unwrap(),
    decreases s.len(),
{
    if s.len() > 0 {
        lemma_fold_shape(s.drop_last());
    }
}

fn fold_runs(source: &str) -> (prog: Vec<Insn>)
    ensures
        prog@ == fold(source@),
        forall|k: int|
            0 <= k < prog.len() && (#[trigger] prog@[k]).op.is_bracket() ==> prog@[k].count == 0,
{
    let n = source.unicode_len();
    let mut prog: Vec<Insn> = Vec::new();
    let mut prev: char = ' ';
    let mut i: usize = 0;
    while i < n
        invariant
            i <= n,
            n == source@.len(),
            prog@ == fold(source@.subrange(0, i as int)),
            i > 0 ==> prev == source@[i - 1],
        decreases n - i,
    {
        let c = source.get_char(i);
        let ghost before = source@.subrange(0, i as int);
        let ghost after = source@.subrange(0, i + 1);
        proof {
            assert(after.drop_last() =~= before);
            lemma_fold_shape(before);
            if i > 0 {
                assert(before.last() == prev);
                assert(after[after.len() - 2] == prev);
            }
        }
        match Op::from_char(c) {
            None => {},
            Some(op) => {
                if op == Op::FJump || op == Op::BJump {
                    prog.push(Insn { op, count: 0 });
                } else if i > 0 && prev == c {
                    let last = prog.len() - 1;
                    let cnt = prog[last].count;
                    prog[last] = Insn { op, count: cnt + 1 };
                } else {
                    prog.push(Insn { op, count: 1 });
                }
            },
        }
        prev = c;
        i = i + 1;
    }
    proof {
        assert(source@.subrange(0, n as int) =~= source@);
        lemma_fold_shape(source@);
    }
    prog
}


/// The operations of a program, without counts or targets.
pub open spec fn ops_of(p: Seq<Insn>) -> Seq<Op> {
    p.map_values(|x: Insn| x.op)
}

/// How an operation changes the bracket nesting depth.
pub open spec fn delta(op: Op) -> int {
    if op == Op::FJump {
        1
    } else if op == Op::BJump {
        -1
    } else {
        0
    }
}

/// The nesting depth added by the operations at indices `a .. b`.
pub open spec fn depth(o: Seq<Op>, a: int, b: int) -> int
    decreases b - a,
{
    if b <= a {
        0
    } else {
        depth(o, a, b - 1) + delta(o[b - 1])
    }
}

/// The `[` at `i` and the `]` at `j` belong together: `j` is the first index
/// after `i` at which the depth counted from `i` returns to zero.
pub open spec fn matches_at(o: Seq<Op>, i: int, j: int) -> bool {
    &&& 0 <= i < j < o.len()
    &&& o[i] == Op::FJump
    &&& depth(o, i, j + 1) == 0
    &&& forall|k: int| i < k <= j ==> #[trigger] depth(o, i, k) > 0
}

/// The bracket at `k` has no partner.
pub open spec fn unmatched(o: Seq<Op>, k: int) -> bool {
    ||| o[k] == Op::FJump && !(exists|j: int| matches_at(o, k, j))
    ||| o[k] == Op::BJump && !(exists|i: int| matches_at(o, i, k))
}

/// Every bracket has a partner.
pub open spec fn balanced(o: Seq<Op>) -> bool {
    forall|k: int| 0 <= k < o.len() ==> !#[trigger] unmatched(o, k)
}

/// The target that linking gives the bracket at `k`: its partner, or 0.
pub open spec fn target_of(o: Seq<Op>, k: int) -> usize {
    if o[k] == Op::FJump && exists|j: int| matches_at(o, k, j) {
        (choose|j: int| matches_at(o, k, j)) as usize
    } else if o[k] == Op::BJump && exists|i: int| matches_at(o, i, k) {
        (choose|i: int| matches_at(o, i, k)) as usize
    } else {
        0
    }
}

/// The program with each bracket's target set to its partner's index (0 where
/// it has none) and every other instruction kept.
pub open spec fn link(p: Seq<Insn>) -> Seq<Insn> {
    Seq::new(
        p.len(),
        |k: int|
            if p[k].op.is_bracket() {
                Insn { op: p[k].op, count: target_of(ops_of(p), k) }
            } else {
                p[k]
            },
    )
}

/// What `encode` produces from a source text.
pub open spec fn encoded(s: Seq<char>) -> Seq<Insn> {
    link(fold(s))
}

pub proof fn lemma_depth_split(o: Seq<Op>, a: int, b: int, c: int)
    requires
        a <= b <= c,
    ensures
        depth(o, a, c) == depth(o, a, b) + depth(o, b, c),
    decreases c - b,
{
    if c > b {
        lemma_depth_split(o, a, b, c - 1);
    }
}

/// A matched `[` closes on a `]`, and no `[` has two partners nor any `]`.
pub proof fn lemma_match_unique(o: Seq<Op>, i: int, j: int)
    requires
        matches_at(o, i, j),
    ensures
        o[j] == Op::BJump,
        forall|j2: int| #[trigger] matches_at(o, i, j2) ==> j2 == j,
        forall|i2: int| #[trigger] matches_at(o, i2, j) ==> i2 == i,
{
    assert(depth(o, i, j) > 0);
    assert forall|j2: int| #[trigger] matches_at(o, i, j2) implies j2 == j by {
        if j2 < j {
            assert(depth(o, i, j2 + 1) > 0);
        } else if j < j2 {
            assert(depth(o, i, j + 1) > 0);
        }
    }
    assert forall|i2: int| #[trigger] matches_at(o, i2, j) implies i2 == i by {
        if i2 < i {
            lemma_depth_split(o, i2, i, j + 1);
            assert(depth(o, i2, i) > 0);
        } else if i < i2 {
            lemma_depth_split(o, i, i2, j + 1);
            assert(depth(o, i, i2) > 0);
        }
    }
}

fn find_match(prog: &Vec<Insn>, i: usize) -> (r: Option<usize>)
    requires
        i < prog.len(),
        prog@[i as int].op == Op::FJump,
    ensures
        match r {
            Some(j) => matches_at(ops_of(prog@), i as int, j as int),
            None => forall|j: int| !matches_at(ops_of(prog@), i as int, j),
        },
{
    let ghost o = ops_of(prog@);
    let n = prog.len();
    let mut d: usize = 1;
    let mut j: usize = i + 1;
    assert(o[i as int] == Op::FJump);
    assert(depth(o, i as int, i as int) == 0);
    assert(depth(o, i as int, i + 1) == 1);
    while j < n
        invariant
            o == ops_of(prog@),
            o[i as int] == Op::FJump,
            n == prog.len(),
            i < j <= n,
            d == depth(o, i as int, j as int),
            1 <= d <= j - i,
            forall|k: int| i < k <= j ==> #[trigger] depth(o, i as int, k) > 0,
        decreases n - j,
    {
        let op = prog[j].op;
        assert(o[j as int] == op);
        assert(depth(o, i as int, j + 1) == d + delta(o[j as int]));
        if op == Op::FJump {
            d = d + 1;
        } else if op == Op::BJump {
            d = d - 1;
        }
        if d == 0 {
            assert(o.len() == n);
            assert(depth(o, i as int, j + 1) == 0);
            return Some(j);
        }
        j = j + 1;
    }
    assert forall|j2: int| !matches_at(o, i as int, j2) by {
        if matches_at(o, i as int, j2) {
            assert(depth(o, i as int, j2 + 1) > 0);
        }
    }
    None
}


fn link_brackets(prog: &mut Vec<Insn>)
    requires
        forall|k: int|
            0 <= k < old(prog).len() && (#[trigger] old(prog)@[k]).op.is_bracket()
                ==> old(prog)@[k].count == 0,
    ensures
        final(prog)@ == link(old(prog)@),
{
    let ghost p = prog@;
    let ghost o = ops_of(p);
    let n = prog.len();
    let mut i: usize = 0;
    while i < n
        invariant
            n == p.len(),
            prog@.len() == n,
            i <= n,
            ops_of(prog@) == o,
            o == ops_of(p),
            forall|k: int| 0 <= k < n ==> (#[trigger] prog@[k]).op == p[k].op,
            forall|k: int| 0 <= k < n && !p[k].op.is_bracket() ==> #[trigger] prog@[k] == p[k],
            forall|k: int| 0 <= k < i && p[k].op == Op::FJump ==> #[trigger] prog@[k] == link(p)[k],
            forall|k: int| i <= k < n && p[k].op == Op::FJump ==> (#[trigger] prog@[k]).count == 0,
            forall|k: int, j: int| 0 <= k < i && #[trigger] matches_at(o, k, j) ==> prog@[j].count == k,
            forall|j: int|
                0 <= j < n && p[j].op == Op::BJump && (forall|k: int| 0 <= k < i ==> !#[trigger] matches_at(o, k, j))
                    ==> (#[trigger] prog@[j]).count == 0,
        decreases n - i,
    {
        assert(o[i as int] == p[i as int].op);
        if prog[i].op == Op::FJump {
            match find_match(prog, i) {
                Some(j) => {
                    proof {
                        lemma_match_unique(o, i as int, j as int);
                        assert(o[j as int] == p[j as int].op);
                    }
                    prog[i] = Insn { op: Op::FJump, count: j };
                    prog[j] = Insn { op: Op::BJump, count: i };
                    proof {
                        assert(ops_of(prog@) =~= o);
                        assert forall|k: int, j2: int| 0 <= k < i && #[trigger] matches_at(o, k, j2)
                            implies j2 != j && j2 != i by {
                            lemma_match_unique(o, k, j2);
                        }
                    }
                },
                None => {},
            }
        }
        i = i + 1;
    }
    proof {
        assert forall|k: int| 0 <= k < n implies #[trigger] prog@[k] == link(p)[k] by {
            assert(o[k] == p[k].op);
            if p[k].op == Op::BJump {
                if exists|i0: int| matches_at(o, i0, k) {
                    let i0 = choose|i0: int| matches_at(o, i0, k);
                    lemma_match_unique(o, i0, k);
                }
            }
        }
        assert(prog@ =~= link(p));
    }
}

/// The bracket at `k` points at a partner of the other kind that points back:
/// a `[` at a later index, a `]` at an earlier one.
pub open spec fn paired_at(p: Seq<Insn>, k: int) -> bool {
    let t = p[k].count as int;
    if p[k].op == Op::FJump {
        k < t < p.len() && p[t].op == Op::BJump && p[t].count == k
    } else if p[k].op == Op::BJump {
        t < k && p[t].op == Op::FJump && p[t].count == k
    } else {
        true
    }
}

/// Every bracket of the program is paired with its partner.
pub open spec fn well_paired(p: Seq<Insn>) -> bool {
    forall|k: int| 0 <= k < p.len() ==> #[trigger] paired_at(p, k)
}

/// Every bracket's target is an index of the program.
pub open spec fn targets_in_range(p: Seq<Insn>) -> bool {
    forall|k: int|
        0 <= k < p.len() && (#[trigger] p[k]).op.is_bracket() ==> p[k].count < p.len()
}

/// After linking, a bracket is paired exactly when it has a partner, and
/// every target lies inside the program.
pub proof fn lemma_link_pairs(q: Seq<Insn>, k: int)
    requires
        0 <= k < q.len() <= usize::MAX,
    ensures
        paired_at(link(q), k) <==> !unmatched(ops_of(q), k),
        link(q)[k].op.is_bracket() ==> link(q)[k].count < q.len(),
{
    let o = ops_of(q);
    let l = link(q);
    assert(o[k] == q[k].op);
    if o[k] == Op::FJump {
        if exists|j: int| matches_at(o, k, j) {
            let j = choose|j: int| matches_at(o, k, j);
            lemma_match_unique(o, k, j);
            assert(o[j] == q[j].op);
        }
    } else if o[k] == Op::BJump {
        if exists|i: int| matches_at(o, i, k) {
            let i = choose|i: int| matches_at(o, i, k);
            lemma_match_unique(o, i, k);
            assert(o[i] == q[i].op);
        } else {
            assert(o[0] == q[0].op);
            if exists|j: int| matches_at(o, 0, j) {
                let j = choose|j: int| matches_at(o, 0, j);
                lemma_match_unique(o, 0, j);
            }
        }
    }
}

/// The brackets nest: no prefix closes more brackets than it opens, and the
/// whole sequence closes as many as it opens.
pub open spec fn nests(o: Seq<Op>) -> bool {
    &&& forall|m: int| 0 <= m <= o.len() ==> #[trigger] depth(o, 0, m) >= 0
    &&& depth(o, 0, o.len() as int) == 0
}

proof fn lemma_first_return(o: Seq<Op>, i: int, m: int) -> (j: int)
    requires
        0 <= i < m <= o.len(),
        o[i] == Op::FJump,
        depth(o, i, o.len() as int) <= 0,
        forall|k: int| i < k <= m ==> #[trigger] depth(o, i, k) > 0,
    ensures
        matches_at(o, i, j),
    decreases o.len() - m,
{
    assert(m < o.len());
    assert(depth(o, i, m + 1) == depth(o, i, m) + delta(o[m]));
    if depth(o, i, m + 1) == 0 {
        m
    } else {
        lemma_first_return(o, i, m + 1)
    }
}

proof fn lemma_last_opening(o: Seq<Op>, j: int, m: int) -> (i: int)
    requires
        0 <= m < j < o.len(),
        o[j] == Op::BJump,
        depth(o, 0, 0) == 0,
        depth(o, 0, j) >= 1,
        forall|k: int| m < k <= j ==> #[trigger] depth(o, 0, k) >= depth(o, 0, j),
    ensures
        matches_at(o, i, j),
    decreases m,
{
    let lvl = depth(o, 0, j) - 1;
    assert(depth(o, 0, m + 1) == depth(o, 0, m) + delta(o[m]));
    assert(depth(o, 0, j + 1) == lvl);
    if depth(o, 0, m) <= lvl {
        assert(depth(o, 0, m + 1) >= depth(o, 0, j));
        lemma_depth_split(o, 0, m, j + 1);
        assert forall|k: int| m < k <= j implies #[trigger] depth(o, m, k) > 0 by {
            lemma_depth_split(o, 0, m, k);
        }
        m
    } else {
        lemma_last_opening(o, j, m - 1)
    }
}

/// Brackets that nest all have partners.
pub proof fn lemma_nesting_is_balanced(o: Seq<Op>)
    requires
        nests(o),
    ensures
        balanced(o),
{
    assert forall|k: int| 0 <= k < o.len() implies !#[trigger] unmatched(o, k) by {
        if o[k] == Op::FJump {
            lemma_depth_split(o, 0, k, o.len() as int);
            assert(depth(o, 0, k) >= 0);
            assert(depth(o, k, k) == 0);
            assert(depth(o, k, k + 1) == 1);
            let j = lemma_first_return(o, k, k + 1);
            assert(matches_at(o, k, j));
        } else if o[k] == Op::BJump {
            assert(depth(o, 0, k + 1) == depth(o, 0, k) - 1);
            assert(depth(o, 0, k + 1) >= 0);
            assert(depth(o, 0, 0) == 0);
            let i = lemma_last_opening(o, k, k - 1);
            assert(matches_at(o, i, k));
        }
    }
}

/// A source whose brackets nest encodes to a program in which every `[`
/// points at a later `]` that points back at it, and every `]` at an earlier
/// `[` that points back at it.
pub proof fn lemma_nesting_source_is_paired(s: Seq<char>)
    requires
        s.len() <= usize::MAX,
        nests(ops_of(fold(s))),
    ensures
        well_paired(encoded(s)),
{
    lemma_nesting_is_balanced(ops_of(fold(s)));
    lemma_balanced_source_is_paired(s);
}

/// A source whose brackets all have partners encodes to a program in which
/// every bracket is paired with its partner.
pub proof fn lemma_balanced_source_is_paired(s: Seq<char>)
    requires
        s.len() <= usize::MAX,
        balanced(ops_of(fold(s))),
    ensures
        well_paired(encoded(s)),
{
    lemma_fold_shape(s);
    assert forall|k: int| 0 <= k < encoded(s).len() implies #[trigger] paired_at(encoded(s), k) by {
        lemma_link_pairs(fold(s), k);
        assert(!unmatched(ops_of(fold(s)), k));
    }
}

/// A run of `n` copies of one non-bracket operation character folds into a
/// single instruction of count `n`.
pub proof fn lemma_run_folds(c: char, n: nat)
    requires
        op_of(c).is_some(),
        !op_of(c).unwrap().is_bracket(),
        1 <= n <= usize::MAX,
    ensures
        encoded(Seq::new(n, |_i: int| c)) == seq![Insn { op: op_of(c).unwrap(), count: n as usize }],
{
    lemma_run_fold_only(c, n);
    let p = fold(Seq::new(n, |_i: int| c));
    assert(link(p) =~= p);
}

proof fn lemma_run_fold_only(c: char, n: nat)
    requires
        op_of(c).is_some(),
        !op_of(c).unwrap().is_bracket(),
        1 <= n <= usize::MAX,
    ensures
        fold(Seq::new(n, |_i: int| c)) == seq![Insn { op: op_of(c).unwrap(), count: n as usize }],
    decreases n,
{
    let s = Seq::new(n, |_i: int| c);
    if n == 1 {
        assert(s.drop_last() =~= Seq::<char>::empty());
        assert(fold(s.drop_last()) =~= Seq::<Insn>::empty());
        assert(fold(s) =~= seq![Insn { op: op_of(c).unwrap(), count: 1 }]);
    } else {
        lemma_run_fold_only(c, (n - 1) as nat);
        assert(s.drop_last() =~= Seq::new((n - 1) as nat, |_i: int| c));
        assert(fold(s) =~= seq![Insn { op: op_of(c).unwrap(), count: n as usize }]);
    }
}

/// Folds runs of the source into instructions and links each bracket to its
/// partner; a bracket without a partner keeps target 0.
pub fn parse(input: &str) -> (prog: Vec<Insn>)
    ensures
        prog@ == encoded(input@),
        targets_in_range(prog@),
{
    let mut prog = fold_runs(input);
    link_brackets(&mut prog);
    proof {
        assert forall|k: int|
            0 <= k < prog.len() && (#[trigger] prog@[k]).op.is_bracket() implies prog@[k].count
            < prog.len() by {
            lemma_link_pairs(fold(input@), k);
        }
    }
    prog
}

} // verus!

verus! {

/// Why a source text does not encode to a runnable program.
#[derive(PartialEq, Eq, Structural, Debug, Clone, Copy)]
pub enum EncodeError {
    /// The bracket instruction at this index has no partner.
    MalformedProgram { position: usize },
}

fn is_paired(prog: &Vec<Insn>, k: usize) -> (r: bool)
    requires
        k < prog.len(),
    ensures
        r == paired_at(prog@, k as int),
{
    let insn = prog[k];
    let t = insn.count;
    if insn.op == Op::FJump {
        k < t && t < prog.len() && prog[t].op == Op::BJump && prog[t].count == k
    } else if insn.op == Op::BJump {
        t < k && prog[t].op == Op::FJump && prog[t].count == k
    } else {
        true
    }
}

/// Encodes the source as `parse` does, and refuses it, naming the first
/// bracket without a partner, unless every bracket has one.
pub fn encode(source: &str) -> (r: Result<Vec<Insn>, EncodeError>)
    ensures
        match r {
            Ok(prog) => balanced(ops_of(fold(source@))) && prog@ == encoded(source@)
                && well_paired(prog@),
            Err(EncodeError::MalformedProgram { position }) => {
                &&& position < fold(source@).len()
                &&& unmatched(ops_of(fold(source@)), position as int)
                &&& forall|k: int| 0 <= k < position ==> !#[trigger] unmatched(ops_of(fold(source@)), k)
            },
        },
{
    let prog = parse(source);
    let ghost q = fold(source@);
    let n = prog.len();
    let mut k: usize = 0;
    while k < n
        invariant
            q == fold(source@),
            n == prog.len() == q.len(),
            prog@ == link(q),
            k <= n,
            forall|k2: int| 0 <= k2 < k ==> !#[trigger] unmatched(ops_of(q), k2),
            forall|k2: int| 0 <= k2 < k ==> #[trigger] paired_at(prog@, k2),
        decreases n - k,
    {
        proof {
            lemma_link_pairs(q, k as int);
        }
        if !is_paired(&prog, k) {
            return Err(EncodeError::MalformedProgram { position: k });
        }
        k = k + 1;
    }
    Ok(prog)
}

} // verus!
