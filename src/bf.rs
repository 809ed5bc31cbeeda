use vstd::prelude::*;

verus! {

/// The eight commands of the language.
#[derive(PartialEq, Eq, Structural, Debug, Clone, Copy)]
pub enum InsnKind {
    ADD,
    SUB,
    LEFT,
    RIGHT,
    READ,
    WRITE,
    OPEN,
    CLOSE,
}

/// One instruction: a kind and an operand. For the six repeatable kinds the
/// operand is a repeat count; for `OPEN` and `CLOSE` it is the index one past
/// the matching bracket.
#[derive(PartialEq, Eq, Structural, Debug, Clone, Copy)]
pub struct Insn {
    pub kind: InsnKind,
    pub operand: usize,
}

impl Insn {
    pub open spec fn new_spec(kind: InsnKind, operand: usize) -> Insn {
        Insn { kind, operand }
    }

    pub fn new(kind: InsnKind, operand: usize) -> (r: Insn)
        ensures
            r == Insn::new_spec(kind, operand),
    {
        Insn { kind: kind, operand: operand }
    }
}

/// The command that a character stands for, if any.
pub open spec fn command_of(c: char) -> Option<InsnKind> {
    if c == '+' {
        Some(InsnKind::ADD)
    } else if c == '-' {
        Some(InsnKind::SUB)
    } else if c == '<' {
        Some(InsnKind::LEFT)
    } else if c == '>' {
        Some(InsnKind::RIGHT)
    } else if c == ',' {
        Some(InsnKind::READ)
    } else if c == '.' {
        Some(InsnKind::WRITE)
    } else if c == '[' {
        Some(InsnKind::OPEN)
    } else if c == ']' {
        Some(InsnKind::CLOSE)
    } else {
        None
    }
}

/// The commands of a text, in order; every other character is dropped.
pub open spec fn lexed(s: Seq<char>) -> Seq<InsnKind>
    decreases s.len(),
{
    if s.len() == 0 {
        Seq::empty()
    } else {
        let rest = lexed(s.drop_last());
        match command_of(s.last()) {
            Some(k) => rest.push(k),
            None => rest,
        }
    }
}

fn classify(c: char) -> (r: Option<InsnKind>)
    ensures
        r == command_of(c),
{
    match c {
        '+' => Some(InsnKind::ADD),
        '-' => Some(InsnKind::SUB),
        '<' => Some(InsnKind::LEFT),
        '>' => Some(InsnKind::RIGHT),
        ',' => Some(InsnKind::READ),
        '.' => Some(InsnKind::WRITE),
        '[' => Some(InsnKind::OPEN),
        ']' => Some(InsnKind::CLOSE),
        _ => None,
    }
}

/// Turns source text into its command tokens, dropping every character that
/// is not one of the eight commands.
pub fn lex(code: &str) -> (r: Vec<InsnKind>)
    ensures
        r@ == lexed(code@),
{
    let mut result: Vec<InsnKind> = Vec::new();
    for c in it: code.chars()
        invariant
            it.seq() == code@,
            result@ == lexed(code@.take(it.index() as int)),
    {
        proof {
            assert(code@.take(it.index() + 1).drop_last() == code@.take(it.index() as int));
        }
        match classify(c) {
            Some(k) => result.push(k),
            None => {},
        }
    }
    proof {
        assert(code@.take(code@.len() as int) == code@);
    }
    result
}

/// Whether a kind is compressed into a counted instruction.
pub open spec fn repeatable(k: InsnKind) -> bool {
    k != InsnKind::OPEN && k != InsnKind::CLOSE
}

/// One past the last index of the maximal run of tokens equal to `t[i]`
/// that starts at `i`.
pub open spec fn run_end(t: Seq<InsnKind>, i: int) -> int
    recommends
        0 <= i < t.len(),
    decreases t.len() - i,
{
    if 0 <= i && i + 1 < t.len() && t[i + 1] == t[i] {
        run_end(t, i + 1)
    } else {
        i + 1
    }
}

/// The run-length compression of the tokens from index `i` on: each maximal
/// run of a repeatable kind becomes one instruction counting its length, and
/// each bracket becomes one instruction with the placeholder operand 1.
pub open spec fn compressed_from(t: Seq<InsnKind>, i: int) -> Seq<Insn>
    decreases t.len() - i,
    when 0 <= i
{
    if i >= t.len() {
        Seq::empty()
    } else if repeatable(t[i]) {
        let e = run_end(t, i);
        if i < e && e <= t.len() {
            seq![Insn { kind: t[i], operand: (e - i) as usize }] + compressed_from(t, e)
        } else {
            Seq::empty()
        }
    } else {
        seq![Insn { kind: t[i], operand: 1 }] + compressed_from(t, i + 1)
    }
}

/// The run-length compression of a whole token sequence.
pub open spec fn compressed(t: Seq<InsnKind>) -> Seq<Insn> {
    compressed_from(t, 0)
}

pub proof fn lemma_run_end_bounds(t: Seq<InsnKind>, i: int)
    requires
        0 <= i < t.len(),
    ensures
        i < run_end(t, i) <= t.len(),
        forall|k: int| i <= k < run_end(t, i) ==> t[k] == t[i],
    decreases t.len() - i,
{
    if i + 1 < t.len() && t[i + 1] == t[i] {
        lemma_run_end_bounds(t, i + 1);
    }
}

/// Compresses a token sequence: each maximal run of one of the six repeatable
/// kinds becomes one instruction whose operand is the run's length; each
/// bracket becomes an instruction of its own with the placeholder operand 1.
pub fn parse_tokens(tokens: &Vec<InsnKind>) -> (r: Vec<Insn>)
    ensures
        r@ == compressed(tokens@),
{
    let len = tokens.len();
    let mut result: Vec<Insn> = Vec::new();
    let mut index: usize = 0;
    while index < len
        invariant
            len == tokens@.len(),
            index <= len,
            result@ + compressed_from(tokens@, index as int) == compressed(tokens@),
        decreases len - index,
    {
        let token = tokens[index];
        let ghost t = tokens@;
        if token != InsnKind::OPEN && token != InsnKind::CLOSE {
            let mut count: usize = 1;
            while index + count < len && tokens[index + count] == token
                invariant
                    len == t.len(),
                    t == tokens@,
                    index < len,
                    1 <= count <= len - index,
                    token == t[index as int],
                    forall|k: int| index <= k < index + count ==> t[k] == token,
                    run_end(t, index as int) == run_end(t, index + count - 1),
                decreases len - index - count,
            {
                count += 1;
            }
            proof {
                lemma_run_end_bounds(t, index as int);
                assert(run_end(t, index as int) == index + count);
                assert(compressed_from(t, index as int) == seq![Insn::new_spec(token, count)]
                    + compressed_from(t, (index + count) as int));
                assert(result@.push(Insn::new_spec(token, count)) + compressed_from(t, (index + count) as int)
                    == result@ + compressed_from(t, index as int));
            }
            index += count;
            result.push(Insn::new(token, count));
        } else {
            proof {
                assert(result@.push(Insn::new_spec(token, 1)) + compressed_from(t, index + 1)
                    == result@ + compressed_from(t, index as int));
            }
            index += 1;
            result.push(Insn::new(token, 1));
        }
    }
    proof {
        assert(result@ + compressed_from(tokens@, index as int) == result@);
    }
    result
}

/// Construction failed: the brackets do not nest.
#[derive(PartialEq, Eq, Structural, Debug, Clone, Copy)]
pub enum StructuralError {
    /// A `]` at this instruction index has no `[` before it.
    UnmatchedClose(usize),
    /// A `[` at this instruction index has no `]` after it.
    UnmatchedOpen(usize),
}

/// How a kind changes the bracket depth.
pub open spec fn depth_change(k: InsnKind) -> int {
    if k == InsnKind::OPEN {
        1
    } else if k == InsnKind::CLOSE {
        -1
    } else {
        0
    }
}

/// Opening brackets minus closing brackets among the first `i` instructions.
pub open spec fn depth(p: Seq<Insn>, i: int) -> int
    decreases i,
{
    if i <= 0 || i > p.len() {
        0
    } else {
        depth(p, i - 1) + depth_change(p[i - 1].kind)
    }
}

/// The brackets nest: no prefix closes more than it opens, and the whole
/// program closes all that it opens.
pub open spec fn balanced(p: Seq<Insn>) -> bool {
    &&& forall|i: int| 0 <= i <= p.len() ==> depth(p, i) >= 0
    &&& depth(p, p.len() as int) == 0
}

/// `a` is an opening bracket and `b` the closing bracket that matches it.
pub open spec fn is_pair(p: Seq<Insn>, a: int, b: int) -> bool {
    &&& 0 <= a < b < p.len()
    &&& p[a].kind == InsnKind::OPEN
    &&& p[b].kind == InsnKind::CLOSE
    &&& depth(p, b + 1) == depth(p, a)
    &&& forall|k: int| a < k <= b ==> depth(p, k) > depth(p, a)
}

/// `i` is the first instruction after which more brackets have been closed
/// than opened.
pub open spec fn first_unmatched_close(p: Seq<Insn>, i: int) -> bool {
    &&& 0 <= i < p.len()
    &&& depth(p, i + 1) < 0
    &&& forall|j: int| 0 <= j <= i ==> depth(p, j) >= 0
}

/// No prefix closes more than it opens, and `i` is the last opening bracket
/// that is never closed.
pub open spec fn last_unmatched_open(p: Seq<Insn>, i: int) -> bool {
    &&& forall|j: int| 0 <= j <= p.len() ==> depth(p, j) >= 0
    &&& 0 <= i < p.len()
    &&& p[i].kind == InsnKind::OPEN
    &&& depth(p, p.len() as int) == depth(p, i) + 1
    &&& forall|m: int| i < m <= p.len() ==> depth(p, m) > depth(p, i)
}

/// `q` is `p` with every bracket's operand set to one past its partner's
/// index, and every other instruction left as it was.
pub open spec fn jumps_resolved(p: Seq<Insn>, q: Seq<Insn>) -> bool {
    &&& q.len() == p.len()
    &&& forall|i: int| 0 <= i < p.len() ==> #[trigger] q[i].kind == p[i].kind
    &&& forall|i: int| 0 <= i < p.len() && !(p[i].kind == InsnKind::OPEN
        || p[i].kind == InsnKind::CLOSE) ==> #[trigger] q[i] == p[i]
    &&& forall|a: int|
        0 <= a < p.len() && p[a].kind == InsnKind::OPEN ==> is_pair(p, a, #[trigger] q[a].operand - 1)
    &&& forall|b: int|
        0 <= b < p.len() && p[b].kind == InsnKind::CLOSE ==> is_pair(p, #[trigger] q[b].operand - 1, b)
}

/// Resolves the loop brackets in place: each `[` gets as operand the index one
/// past its matching `]`, and each `]` the index one past its matching `[`.
/// Fails, leaving the instructions untouched, when the brackets do not nest.
pub fn compute_jumps(insns: &mut Vec<Insn>) -> (r: Result<(), StructuralError>)
    ensures
        r is Ok <==> balanced(old(insns)@),
        r is Ok ==> jumps_resolved(old(insns)@, final(insns)@),
        r matches Err(StructuralError::UnmatchedClose(i)) ==> first_unmatched_close(old(insns)@, i as int),
        r matches Err(StructuralError::UnmatchedOpen(i)) ==> last_unmatched_open(old(insns)@, i as int),
        r is Err ==> final(insns)@ == old(insns)@,
{
    let n = insns.len();
    let ghost p = insns@;
    let mut stack: Vec<usize> = Vec::new();
    let mut targets: Vec<usize> = Vec::new();
    let mut k: usize = 0;
    while k < n
        invariant
            n == p.len(),
            p == insns@,
            k <= n,
            targets@.len() == k,
        decreases n - k,
    {
        targets.push(0);
        k += 1;
    }
    let mut i: usize = 0;
    while i < n
        invariant
            n == p.len(),
            p == insns@,
            i <= n,
            targets@.len() == n,
            stack@.len() == depth(p, i as int),
            forall|j: int| 0 <= j <= i ==> depth(p, j) >= 0,
            forall|j1: int, j2: int|
                0 <= j1 < j2 < stack@.len() ==> stack@[j1] < stack@[j2],
            forall|j: int|
                #![trigger stack@[j]]
                0 <= j < stack@.len() ==> {
                    let s = stack@[j] as int;
                    &&& s < i
                    &&& p[s].kind == InsnKind::OPEN
                    &&& depth(p, s) == j
                    &&& forall|m: int| s < m <= i ==> depth(p, m) > j
                },
            forall|a: int|
                0 <= a < i && p[a].kind == InsnKind::OPEN ==> (exists|j: int|
                    0 <= j < stack@.len() && stack@[j] == a) || is_pair(
                    p,
                    a,
                    targets@[a] - 1,
                ),
            forall|b: int|
                0 <= b < i && p[b].kind == InsnKind::CLOSE ==> is_pair(p, targets@[b] - 1, b),
        decreases n - i,
    {
        let kind = insns[i].kind;
        let ghost old_stack = stack@;
        let ghost old_targets = targets@;
        assert(depth(p, i + 1) == depth(p, i as int) + depth_change(p[i as int].kind));
        if kind == InsnKind::OPEN {
            stack.push(i);
            proof {
                assert forall|a: int|
                    0 <= a < i + 1 && p[a].kind == InsnKind::OPEN implies (exists|j: int|
                    0 <= j < stack@.len() && stack@[j] == a) || is_pair(p, a, targets@[a] - 1) by {
                    if a == i {
                        assert(stack@[old_stack.len() as int] == a);
                    } else if !is_pair(p, a, targets@[a] - 1) {
                        let j = choose|j: int| 0 <= j < old_stack.len() && old_stack[j] == a;
                        assert(stack@[j] == a);
                    }
                }
            }
        } else if kind == InsnKind::CLOSE {
            match stack.pop() {
                Some(s) => {
                    targets.set(s, i + 1);
                    targets.set(i, s + 1);
                    proof {
                        let top = stack@.len() as int;
                        assert(old_stack[top] == s);
                        assert(is_pair(p, s as int, i as int));
                        assert forall|a: int|
                            0 <= a < i + 1 && p[a].kind == InsnKind::OPEN implies (exists|j: int|
                            0 <= j < stack@.len() && stack@[j] == a) || is_pair(
                            p,
                            a,
                            targets@[a] - 1,
                        ) by {
                            if a != s && !is_pair(p, a, old_targets[a] - 1) {
                                let j = choose|j: int| 0 <= j < old_stack.len() && old_stack[j] == a;
                                assert(j != top);
                                assert(stack@[j] == a);
                            }
                        }
                        assert forall|b: int|
                            0 <= b < i + 1 && p[b].kind == InsnKind::CLOSE implies is_pair(
                            p,
                            targets@[b] - 1,
                            b,
                        ) by {
                            if b != i {
                                assert(targets@[b] == old_targets[b]);
                            }
                        }
                    }
                },
                None => {
                    assert(depth(p, i + 1) < 0);
                    return Err(StructuralError::UnmatchedClose(i));
                },
            }
        }
        i += 1;
    }
    if stack.len() > 0 {
        let top = stack[stack.len() - 1];
        proof {
            let j = stack@.len() - 1;
            assert(stack@[j] == top);
        }
        return Err(StructuralError::UnmatchedOpen(top));
    }
    let mut i: usize = 0;
    while i < n
        invariant
            n == p.len(),
            i <= n,
            targets@.len() == n,
            insns@.len() == n,
            forall|j: int| i <= j < n ==> insns@[j] == p[j],
            forall|j: int| 0 <= j < i ==> #[trigger] insns@[j].kind == p[j].kind,
            forall|j: int| 0 <= j < i && !(p[j].kind == InsnKind::OPEN
                || p[j].kind == InsnKind::CLOSE) ==> #[trigger] insns@[j] == p[j],
            forall|j: int| 0 <= j < i && (p[j].kind == InsnKind::OPEN
                || p[j].kind == InsnKind::CLOSE) ==> #[trigger] insns@[j].operand == targets@[j],
        decreases n - i,
    {
        let kind = insns[i].kind;
        if kind == InsnKind::OPEN || kind == InsnKind::CLOSE {
            let insn = Insn::new(kind, targets[i]);
            insns.set(i, insn);
        }
        i += 1;
    }
    Ok(())
}

/// The program that a source text compiles to, when its brackets nest.
pub open spec fn compiled(code: Seq<char>) -> Seq<Insn> {
    compressed(lexed(code))
}

/// Compiles source text: lexes it, compresses runs of repeatable commands and
/// resolves the jump targets of the loop brackets. Fails when the brackets
/// do not nest, in either direction.
pub fn parse(code: &str) -> (r: Result<Vec<Insn>, StructuralError>)
    ensures
        r is Ok <==> balanced(compiled(code@)),
        r matches Ok(v) ==> jumps_resolved(compiled(code@), v@),
        r matches Err(StructuralError::UnmatchedClose(i)) ==> first_unmatched_close(compiled(code@), i as int),
        r matches Err(StructuralError::UnmatchedOpen(i)) ==> last_unmatched_open(compiled(code@), i as int),
{
    let tokens = lex(code);
    let mut ir = parse_tokens(&tokens);
    match compute_jumps(&mut ir) {
        Ok(()) => Ok(ir),
        Err(e) => Err(e),
    }
}

} // verus!
