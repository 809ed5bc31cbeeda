use vstd::prelude::*;
use crate::bf::{
    Insn,
    InsnKind,
    compressed,
    compressed_from,
    depth,
    depth_change,
    is_pair,
    jumps_resolved,
    lemma_run_end_bounds,
    repeatable,
    run_end,
};

use crate::machine::{
    MachineModel,
    RunError,
    TAPE_LEN,
    cell_add,
    cell_sub,
    initial_model,
    last_read,
    model_wf,
    pos_after_reads,
    run_model,
    step_model,
};
use vstd::arithmetic::div_mod::{lemma_small_mod, lemma_add_mod_noop, lemma_sub_mod_noop, lemma_mod_twice};

verus! {

/// The program with one instruction of count 1 per token.
pub open spec fn unit_program(t: Seq<InsnKind>) -> Seq<Insn> {
    Seq::new(t.len(), |i: int| Insn { kind: t[i], operand: 1 })
}

/// Index `i` starts a compressed instruction (or is the end): it is the
/// first token of a maximal run, or a bracket, or follows one.
pub open spec fn starts_run(t: Seq<InsnKind>, i: int) -> bool {
    0 <= i <= t.len() && (i == 0 || i == t.len() || !repeatable(t[i]) || !repeatable(t[i - 1])
        || t[i] != t[i - 1])
}

/// How many compressed instructions start before token index `i`.
pub open spec fn comp_index(t: Seq<InsnKind>, i: int) -> int
    decreases i,
{
    if i <= 0 {
        0
    } else {
        comp_index(t, i - 1) + if i - 1 < t.len() && starts_run(t, i - 1) {
            1int
        } else {
            0int
        }
    }
}

/// The compressed instruction that starts at token index `i`.
pub open spec fn comp_insn(t: Seq<InsnKind>, i: int) -> Insn {
    if repeatable(t[i]) {
        Insn { kind: t[i], operand: (run_end(t, i) - i) as usize }
    } else {
        Insn { kind: t[i], operand: 1 }
    }
}

/// The token index after the compressed instruction that starts at `i`.
pub open spec fn next_start(t: Seq<InsnKind>, i: int) -> int {
    if repeatable(t[i]) {
        run_end(t, i)
    } else {
        i + 1
    }
}

proof fn lemma_run_end_next(t: Seq<InsnKind>, i: int)
    requires
        0 <= i < t.len(),
    ensures
        run_end(t, i) < t.len() ==> t[run_end(t, i)] != t[i],
    decreases t.len() - i,
{
    if i + 1 < t.len() && t[i + 1] == t[i] {
        lemma_run_end_next(t, i + 1);
    }
}

proof fn lemma_comp_index_monotone(t: Seq<InsnKind>, i: int, j: int)
    requires
        0 <= i <= j,
    ensures
        comp_index(t, i) <= comp_index(t, j),
    decreases j - i,
{
    if i < j {
        lemma_comp_index_monotone(t, i, j - 1);
    }
}

proof fn lemma_within_run(t: Seq<InsnKind>, i: int, k: int)
    requires
        starts_run(t, i),
        i < t.len(),
        i < k <= next_start(t, i),
    ensures
        comp_index(t, k) == comp_index(t, i) + 1,
        k < next_start(t, i) ==> !starts_run(t, k),
    decreases k - i,
{
    lemma_run_end_bounds(t, i);
    if k > i + 1 {
        lemma_within_run(t, i, k - 1);
    }
    if k < next_start(t, i) {
        assert(t[k] == t[i] && t[k - 1] == t[i]);
    }
}

proof fn lemma_next_start(t: Seq<InsnKind>, i: int)
    requires
        starts_run(t, i),
        i < t.len(),
    ensures
        i < next_start(t, i) <= t.len(),
        starts_run(t, next_start(t, i)),
        comp_index(t, next_start(t, i)) == comp_index(t, i) + 1,
        forall|k: int| i <= k < next_start(t, i) ==> t[k] == t[i],
{
    lemma_run_end_bounds(t, i);
    lemma_run_end_next(t, i);
    lemma_within_run(t, i, next_start(t, i));
}

proof fn lemma_compressed_from(t: Seq<InsnKind>, i: int)
    requires
        starts_run(t, i),
    ensures
        compressed_from(t, i).len() == comp_index(t, t.len() as int) - comp_index(t, i),
        forall|j: int|
            i <= j < t.len() && starts_run(t, j) ==> compressed_from(t, i)[comp_index(t, j)
                - comp_index(t, i)] == #[trigger] comp_insn(t, j),
    decreases t.len() - i,
{
    if i < t.len() {
        let e = next_start(t, i);
        lemma_next_start(t, i);
        lemma_run_end_bounds(t, i);
        lemma_compressed_from(t, e);
        assert(compressed_from(t, i) == seq![comp_insn(t, i)] + compressed_from(t, e));
        assert forall|j: int| i <= j < t.len() && starts_run(t, j) implies compressed_from(t, i)[comp_index(t, j)
            - comp_index(t, i)] == #[trigger] comp_insn(t, j) by {
            lemma_comp_index_monotone(t, j + 1, t.len() as int);
            if j > i {
                if j < e {
                    lemma_within_run(t, i, j);
                }
                lemma_comp_index_monotone(t, e, j);
                assert(compressed_from(t, i)[comp_index(t, j) - comp_index(t, i)]
                    == compressed_from(t, e)[comp_index(t, j) - comp_index(t, e)]);
            }
        }
    }
}

/// The structure of the compression: the instruction at the compressed index
/// of each start is the one that starts there.
proof fn lemma_compressed_layout(t: Seq<InsnKind>)
    ensures
        compressed(t).len() == comp_index(t, t.len() as int),
        forall|j: int|
            0 <= j < t.len() && starts_run(t, j) ==> compressed(t)[comp_index(t, j)] == #[trigger] comp_insn(t, j),
{
    lemma_compressed_from(t, 0);
}

proof fn lemma_depth_matches(t: Seq<InsnKind>, i: int)
    requires
        0 <= i <= t.len(),
    ensures
        depth(unit_program(t), i) == depth(compressed(t), comp_index(t, i)),
    decreases i,
{
    lemma_compressed_layout(t);
    if i > 0 {
        lemma_depth_matches(t, i - 1);
        lemma_comp_index_monotone(t, i, t.len() as int);
        lemma_comp_index_monotone(t, 0, i - 1);
        let u = unit_program(t);
        let c = compressed(t);
        assert(u[i - 1].kind == t[i - 1]);
        if starts_run(t, i - 1) {
            assert(c[comp_index(t, i - 1)] == comp_insn(t, i - 1));
        }
    }
}

proof fn lemma_start_of_each_index(t: Seq<InsnKind>, i: int, j: int)
    requires
        0 <= i <= t.len(),
        0 <= j < comp_index(t, i),
    ensures
        exists|k: int| 0 <= k < i && starts_run(t, k) && comp_index(t, k) == j,
    decreases i,
{
    if j < comp_index(t, i - 1) {
        lemma_start_of_each_index(t, i - 1, j);
        let k = choose|k: int| 0 <= k < i - 1 && starts_run(t, k) && comp_index(t, k) == j;
        assert(0 <= k < i && starts_run(t, k) && comp_index(t, k) == j);
    } else {
        assert(starts_run(t, i - 1) && comp_index(t, i - 1) == j);
    }
}

proof fn lemma_pair_maps(t: Seq<InsnKind>, a: int, b: int)
    requires
        is_pair(unit_program(t), a, b),
    ensures
        is_pair(compressed(t), comp_index(t, a), comp_index(t, b)),
        starts_run(t, a),
        starts_run(t, b),
        starts_run(t, b + 1),
        comp_index(t, b + 1) == comp_index(t, b) + 1,
{
    let u = unit_program(t);
    let c = compressed(t);
    let n = t.len() as int;
    lemma_compressed_layout(t);
    assert(u[a].kind == t[a] && u[b].kind == t[b]);
    assert(starts_run(t, a) && starts_run(t, b));
    lemma_next_start(t, a);
    lemma_next_start(t, b);
    assert(next_start(t, a) == a + 1);
    assert(next_start(t, b) == b + 1);
    lemma_comp_index_monotone(t, a + 1, b);
    lemma_comp_index_monotone(t, b + 1, n);
    assert(c[comp_index(t, a)] == comp_insn(t, a));
    assert(c[comp_index(t, b)] == comp_insn(t, b));
    lemma_depth_matches(t, a);
    lemma_depth_matches(t, b + 1);
    let ca = comp_index(t, a);
    let cb = comp_index(t, b);
    lemma_comp_index_monotone(t, 0, a);
    assert(comp_index(t, b + 1) == cb + 1);
    assert(comp_index(t, a + 1) == ca + 1);
    assert(depth(c, cb + 1) == depth(c, ca));
    assert forall|m: int| ca < m <= cb implies depth(c, m) > depth(c, ca) by {
        lemma_start_of_each_index(t, b + 1, m);
        let k = choose|k: int| 0 <= k < b + 1 && starts_run(t, k) && comp_index(t, k) == m;
        if k <= a {
            lemma_comp_index_monotone(t, k, a);
        }
        lemma_depth_matches(t, k);
    }
}

proof fn lemma_partner_unique_right(p: Seq<Insn>, a: int, b1: int, b2: int)
    requires
        is_pair(p, a, b1),
        is_pair(p, a, b2),
    ensures
        b1 == b2,
{
    if b1 < b2 {
        assert(depth(p, b1 + 1) > depth(p, a));
    } else if b2 < b1 {
        assert(depth(p, b2 + 1) > depth(p, a));
    }
}

proof fn lemma_partner_unique_left(p: Seq<Insn>, a1: int, a2: int, b: int)
    requires
        is_pair(p, a1, b),
        is_pair(p, a2, b),
    ensures
        a1 == a2,
{
    if a1 < a2 {
        assert(depth(p, a2) > depth(p, a1));
    } else if a2 < a1 {
        assert(depth(p, a1) > depth(p, a2));
    }
}

/// What an instruction of a repeatable kind `k` with count `n` does to the
/// state, leaving the instruction pointer alone; `None` where it would move
/// the data pointer off the tape.
pub open spec fn counted_effect(k: InsnKind, n: nat, m: MachineModel) -> Option<MachineModel> {
    let cell = m.tape[m.dp];
    if k == InsnKind::ADD {
        Some(MachineModel { tape: m.tape.update(m.dp, cell_add(cell, n as int)), ..m })
    } else if k == InsnKind::SUB {
        Some(MachineModel { tape: m.tape.update(m.dp, cell_sub(cell, n as int)), ..m })
    } else if k == InsnKind::LEFT {
        if m.dp - n >= 0 {
            Some(MachineModel { dp: m.dp - n, ..m })
        } else {
            None
        }
    } else if k == InsnKind::RIGHT {
        if m.dp + n < TAPE_LEN {
            Some(MachineModel { dp: m.dp + n, ..m })
        } else {
            None
        }
    } else if k == InsnKind::READ {
        Some(
            MachineModel {
                tape: m.tape.update(m.dp, last_read(m.input, m.in_pos, n as int, cell)),
                in_pos: pos_after_reads(m.input, m.in_pos, n as int),
                ..m
            },
        )
    } else if k == InsnKind::WRITE {
        Some(MachineModel { output: m.output + Seq::new(n, |j: int| cell), ..m })
    } else {
        Some(m)
    }
}

/// Two states agree on everything but the instruction pointer.
pub open spec fn same_data(x: MachineModel, y: MachineModel) -> bool {
    &&& x.tape == y.tape
    &&& x.dp == y.dp
    &&& x.input == y.input
    &&& x.in_pos == y.in_pos
    &&& x.output == y.output
}

proof fn lemma_step_is_effect(prog: Seq<Insn>, m: MachineModel)
    requires
        0 <= m.ip < prog.len(),
        repeatable(prog[m.ip].kind),
    ensures
        step_model(prog, m) == match counted_effect(prog[m.ip].kind, prog[m.ip].operand as nat, m) {
            Some(x) => Ok(MachineModel { ip: m.ip + 1, ..x }),
            None => Err(RunError::TapeBoundsExceeded(m.ip as usize)),
        },
{
    reveal(step_model);
    let cell = m.tape[m.dp];
    let n = prog[m.ip].operand as nat;
    assert(Seq::new(n, |j: int| cell) =~= Seq::new(n, |k: int| cell));
}

proof fn lemma_effect_wf(k: InsnKind, n: nat, m: MachineModel)
    requires
        model_wf(m),
    ensures
        counted_effect(k, n, m) matches Some(x) ==> model_wf(x) && x.ip == m.ip,
        counted_effect(k, n, m) is None ==> (k == InsnKind::LEFT || k == InsnKind::RIGHT),
        (k == InsnKind::LEFT || k == InsnKind::RIGHT) ==> (counted_effect(k, n, m) matches Some(x)
            ==> x.tape == m.tape && x.output == m.output && x.in_pos == m.in_pos && x.input == m.input),
{
}

proof fn lemma_effect_same_data(k: InsnKind, n: nat, m1: MachineModel, m2: MachineModel)
    requires
        same_data(m1, m2),
    ensures
        counted_effect(k, n, m1) is None <==> counted_effect(k, n, m2) is None,
        counted_effect(k, n, m1) matches Some(x1) ==> counted_effect(k, n, m2) matches Some(x2)
            && same_data(x1, x2),
{
}

proof fn lemma_effect_zero(k: InsnKind, m: MachineModel)
    requires
        model_wf(m),
    ensures
        counted_effect(k, 0, m) matches Some(x) && same_data(x, m),
{
    let c = m.tape[m.dp];
    lemma_small_mod(c as nat, 256);
    assert(m.tape.update(m.dp, c) =~= m.tape);
    assert(m.output + Seq::new(0, |j: int| c) =~= m.output);
}

proof fn lemma_effect_split(k: InsnKind, a: nat, b: nat, m: MachineModel)
    requires
        model_wf(m),
    ensures
        counted_effect(k, a + b, m) == match counted_effect(k, a, m) {
            Some(x) => counted_effect(k, b, x),
            None => None,
        },
{
    let c = m.tape[m.dp];
    if k == InsnKind::ADD {
        let x = c as int + a;
        lemma_add_mod_noop(x, b as int, 256);
        lemma_mod_twice(x, 256);
        lemma_small_mod((x % 256) as nat, 256);
        lemma_add_mod_noop(x % 256, b as int, 256);
        assert(m.tape.update(m.dp, cell_add(c, a as int)).update(
            m.dp,
            cell_add(cell_add(c, a as int), b as int),
        ) =~= m.tape.update(m.dp, cell_add(c, (a + b) as int)));
    } else if k == InsnKind::SUB {
        let x = c as int - a;
        lemma_sub_mod_noop(x, b as int, 256);
        lemma_mod_twice(x, 256);
        lemma_small_mod((x % 256) as nat, 256);
        lemma_sub_mod_noop(x % 256, b as int, 256);
        assert(m.tape.update(m.dp, cell_sub(c, a as int)).update(
            m.dp,
            cell_sub(cell_sub(c, a as int), b as int),
        ) =~= m.tape.update(m.dp, cell_sub(c, (a + b) as int)));
    } else if k == InsnKind::READ {
        let v = last_read(m.input, m.in_pos, a as int, c);
        let pos = pos_after_reads(m.input, m.in_pos, a as int);
        assert(m.tape.update(m.dp, v).update(m.dp, last_read(m.input, pos, b as int, v))
            =~= m.tape.update(m.dp, last_read(m.input, m.in_pos, (a + b) as int, c)));
    } else if k == InsnKind::WRITE {
        assert(m.output + Seq::new(a, |j: int| c) + Seq::new(b, |j: int| c) =~= m.output + Seq::new(
            a + b,
            |j: int| c,
        ));
    }
}

/// `u` is the one-instruction-per-token program of `t` and `c` its compressed
/// program, each with its jumps resolved.
pub open spec fn resolved_pair(t: Seq<InsnKind>, u: Seq<Insn>, c: Seq<Insn>) -> bool {
    &&& t.len() <= usize::MAX
    &&& jumps_resolved(unit_program(t), u)
    &&& jumps_resolved(compressed(t), c)
}

/// A run that halted without failing, in a state with the data of `m`.
pub open spec fn halted_with(rc: (MachineModel, Option<RunError>), len: int, m: MachineModel) -> bool {
    &&& rc.1 is None
    &&& rc.0.ip >= len
    &&& same_data(rc.0, m)
}

/// A run that failed with the tape, input position and output of `m`.
pub open spec fn failed_with(rc: (MachineModel, Option<RunError>), m: MachineModel) -> bool {
    &&& rc.1 is Some
    &&& rc.0.tape == m.tape
    &&& rc.0.output == m.output
    &&& rc.0.in_pos == m.in_pos
    &&& rc.0.input == m.input
}

/// When the run `ru` of a program of length `ulen` halts, some run of `c`
/// from `mc` halts with the same data; when it fails, some run of `c` fails
/// with the same tape, input position and output.
pub open spec fn outcome_matched(
    c: Seq<Insn>,
    mc: MachineModel,
    ru: (MachineModel, Option<RunError>),
    ulen: int,
) -> bool {
    &&& (ru.1 is None && ru.0.ip >= ulen) ==> exists|g: nat|
        halted_with(#[trigger] run_model(c, mc, g), c.len() as int, ru.0)
    &&& ru.1 is Some ==> exists|g: nat| failed_with(#[trigger] run_model(c, mc, g), ru.0)
}

/// The unit program stands `r` instructions into the run that starts at
/// token `b`, and the compressed program at that run's instruction, with the
/// data that the first `r` unit steps have produced.
pub open spec fn in_step(t: Seq<InsnKind>, mu: MachineModel, mc: MachineModel, r: nat) -> bool {
    let b = mu.ip - r;
    &&& model_wf(mu)
    &&& model_wf(mc)
    &&& starts_run(t, b)
    &&& mc.ip == comp_index(t, b)
    &&& r > 0 ==> b < t.len() && repeatable(t[b]) && b + r < run_end(t, b)
    &&& if b < t.len() && repeatable(t[b]) {
        counted_effect(t[b], r, mc) matches Some(x) && same_data(mu, x)
    } else {
        r == 0 && same_data(mu, mc)
    }
}

proof fn lemma_lift(c: Seq<Insn>, mc: MachineModel, mc1: MachineModel, ru: (MachineModel, Option<RunError>), ulen: int)
    requires
        0 <= mc.ip < c.len(),
        step_model(c, mc) == Ok::<MachineModel, RunError>(mc1),
        outcome_matched(c, mc1, ru, ulen),
    ensures
        outcome_matched(c, mc, ru, ulen),
{
    if ru.1 is None && ru.0.ip >= ulen {
        let g = choose|g: nat| halted_with(#[trigger] run_model(c, mc1, g), c.len() as int, ru.0);
        assert(run_model(c, mc, g + 1) == run_model(c, mc1, g));
        assert(halted_with(run_model(c, mc, g + 1), c.len() as int, ru.0));
    }
    if ru.1 is Some {
        let g = choose|g: nat| failed_with(#[trigger] run_model(c, mc1, g), ru.0);
        assert(run_model(c, mc, g + 1) == run_model(c, mc1, g));
        assert(failed_with(run_model(c, mc, g + 1), ru.0));
    }
}

proof fn lemma_bracket_step(t: Seq<InsnKind>, u: Seq<Insn>, c: Seq<Insn>, mu: MachineModel, mc: MachineModel)
    requires
        resolved_pair(t, u, c),
        in_step(t, mu, mc, 0),
        0 <= mu.ip < t.len(),
        !repeatable(t[mu.ip]),
    ensures
        step_model(u, mu) matches Ok(mu1) && step_model(c, mc) matches Ok(mc1) && in_step(t, mu1, mc1, 0)
            && 0 <= mc.ip < c.len(),
{
    reveal(step_model);
    lemma_compressed_layout(t);
    let n = t.len() as int;
    let b = mu.ip;
    let cb = comp_index(t, b);
    let u0 = unit_program(t);
    let c0 = compressed(t);
    lemma_next_start(t, b);
    lemma_comp_index_monotone(t, b + 1, n);
    assert(c0[cb] == comp_insn(t, b));
    assert(u[b].kind == u0[b].kind);
    assert(c[cb].kind == c0[cb].kind);
    let k = t[b];
    let cell = mu.tape[mu.dp];
    let jump = (k == InsnKind::OPEN && cell == 0) || (k == InsnKind::CLOSE && cell != 0);
    let iu: int = if jump { u[b].operand as int } else { b + 1 };
    let ic: int = if jump { c[cb].operand as int } else { cb + 1 };
    if jump && k == InsnKind::OPEN {
        let e = u[b].operand - 1;
        assert(is_pair(u0, b, e));
        lemma_pair_maps(t, b, e);
        assert(is_pair(c0, cb, c[cb].operand - 1));
        lemma_partner_unique_right(c0, cb, comp_index(t, e), c[cb].operand - 1);
    } else if jump && k == InsnKind::CLOSE {
        let a = u[b].operand - 1;
        assert(is_pair(u0, a, b));
        lemma_pair_maps(t, a, b);
        assert(is_pair(c0, c[cb].operand - 1, cb));
        lemma_partner_unique_left(c0, c[cb].operand - 1, comp_index(t, a), cb);
        lemma_next_start(t, a);
    }
    assert(starts_run(t, iu) && ic == comp_index(t, iu));
    let mu1 = MachineModel { ip: iu, ..mu };
    let mc1 = MachineModel { ip: ic, ..mc };
    assert(step_model(u, mu) == Ok::<MachineModel, RunError>(mu1));
    assert(step_model(c, mc) == Ok::<MachineModel, RunError>(mc1));
    if iu < n && repeatable(t[iu]) {
        lemma_effect_zero(t[iu], mc1);
    }
    assert(in_step(t, mu1, mc1, 0));
}

proof fn lemma_simulation(
    t: Seq<InsnKind>,
    u: Seq<Insn>,
    c: Seq<Insn>,
    mu: MachineModel,
    mc: MachineModel,
    r: nat,
    f: nat,
)
    requires
        resolved_pair(t, u, c),
        in_step(t, mu, mc, r),
    ensures
        outcome_matched(c, mc, run_model(u, mu, f), u.len() as int),
    decreases f,
{
    lemma_compressed_layout(t);
    let n = t.len() as int;
    let b = mu.ip - r;
    if f == 0 || mu.ip >= n {
        assert(run_model(u, mu, f) == (mu, None::<RunError>));
        if mu.ip >= n {
            if r > 0 {
                lemma_run_end_bounds(t, b);
            }
            assert(b == n);
            assert(run_model(c, mc, 0) == (mc, None::<RunError>));
            assert(halted_with(run_model(c, mc, 0), c.len() as int, mu));
        }
    } else if !repeatable(t[b]) {
        lemma_bracket_step(t, u, c, mu, mc);
        let mu1 = step_model(u, mu)->Ok_0;
        let mc1 = step_model(c, mc)->Ok_0;
        lemma_simulation(t, u, c, mu1, mc1, 0, (f - 1) as nat);
        assert(run_model(u, mu, f) == run_model(u, mu1, (f - 1) as nat));
        lemma_lift(c, mc, mc1, run_model(u, mu, f), u.len() as int);
    } else {
        lemma_run_step(t, u, c, mu, mc, r);
        match step_model(u, mu) {
            Err(e) => {
                assert(run_model(u, mu, f) == (mu, Some(e)));
                assert(failed_with(run_model(c, mc, 1), mu));
            },
            Ok(mu1) => {
                assert(run_model(u, mu, f) == run_model(u, mu1, (f - 1) as nat));
                if in_step(t, mu1, mc, r + 1) {
                    lemma_simulation(t, u, c, mu1, mc, r + 1, (f - 1) as nat);
                } else {
                    let mc1 = step_model(c, mc)->Ok_0;
                    lemma_simulation(t, u, c, mu1, mc1, 0, (f - 1) as nat);
                    lemma_lift(c, mc, mc1, run_model(u, mu, f), u.len() as int);
                }
            },
        }
    }
}

proof fn lemma_run_step(t: Seq<InsnKind>, u: Seq<Insn>, c: Seq<Insn>, mu: MachineModel, mc: MachineModel, r: nat)
    requires
        resolved_pair(t, u, c),
        in_step(t, mu, mc, r),
        0 <= mu.ip < t.len(),
        repeatable(t[mu.ip - r]),
    ensures
        0 <= mc.ip < c.len(),
        step_model(u, mu) is Err ==> step_model(c, mc) is Err && failed_with(run_model(c, mc, 1), mu),
        step_model(u, mu) matches Ok(mu1) ==> mu1.ip == mu.ip + 1,
        step_model(u, mu) matches Ok(mu1) ==> in_step(t, mu1, mc, r + 1) || (step_model(c, mc) matches Ok(mc1)
            && in_step(t, mu1, mc1, 0)),
{
    lemma_compressed_layout(t);
    let n = t.len() as int;
    let b = mu.ip - r;
    let k = t[b];
    let cb = comp_index(t, b);
    let e = run_end(t, b);
    let l = (e - b) as nat;
    let u0 = unit_program(t);
    let c0 = compressed(t);
    lemma_run_end_bounds(t, b);
    lemma_next_start(t, b);
    lemma_comp_index_monotone(t, e, n);
    assert(c0[cb] == comp_insn(t, b));
    assert(c[cb] == c0[cb]);
    assert(u0[mu.ip] == Insn { kind: k, operand: 1 });
    assert(u[mu.ip] == u0[mu.ip]);
    lemma_step_is_effect(u, mu);
    lemma_step_is_effect(c, mc);
    let x = counted_effect(k, r, mc)->Some_0;
    lemma_effect_wf(k, r, mc);
    lemma_effect_split(k, r, 1, mc);
    lemma_effect_split(k, r + 1, (l - (r + 1)) as nat, mc);
    lemma_effect_same_data(k, 1, mu, x);
    lemma_effect_wf(k, 1, mu);
    match counted_effect(k, 1, mu) {
        None => {
            assert(run_model(c, mc, 1) == (mc, Some(RunError::TapeBoundsExceeded(mc.ip as usize))));
        },
        Some(y1) => {
            let mu1 = MachineModel { ip: mu.ip + 1, ..y1 };
            let x1 = counted_effect(k, r + 1, mc)->Some_0;
            if r + 1 < l {
                assert(in_step(t, mu1, mc, r + 1));
            } else {
                lemma_effect_wf(k, l, mc);
                let mc1 = MachineModel { ip: cb + 1, ..x1 };
                assert(step_model(c, mc) == Ok::<MachineModel, RunError>(mc1));
                if e < n && repeatable(t[e]) {
                    lemma_effect_zero(t[e], mc1);
                }
                assert(in_step(t, mu1, mc1, 0));
            }
        },
    }
}

proof fn lemma_simulation_back(
    t: Seq<InsnKind>,
    u: Seq<Insn>,
    c: Seq<Insn>,
    mu: MachineModel,
    mc: MachineModel,
    r: nat,
    g: nat,
)
    requires
        resolved_pair(t, u, c),
        in_step(t, mu, mc, r),
    ensures
        outcome_matched(u, mu, run_model(c, mc, g), c.len() as int),
    decreases g, run_end(t, mu.ip - r) - mu.ip,
{
    lemma_compressed_layout(t);
    let n = t.len() as int;
    let b = mu.ip - r;
    if b < n {
        lemma_next_start(t, b);
        lemma_comp_index_monotone(t, next_start(t, b), n);
        lemma_run_end_bounds(t, b);
    }
    if g == 0 || mc.ip >= c.len() {
        assert(run_model(c, mc, g) == (mc, None::<RunError>));
        if mc.ip >= c.len() {
            assert(b == n);
            assert(run_model(u, mu, 0) == (mu, None::<RunError>));
            assert(halted_with(run_model(u, mu, 0), u.len() as int, mc));
        }
    } else if !repeatable(t[b]) {
        lemma_bracket_step(t, u, c, mu, mc);
        let mu1 = step_model(u, mu)->Ok_0;
        let mc1 = step_model(c, mc)->Ok_0;
        lemma_simulation_back(t, u, c, mu1, mc1, 0, (g - 1) as nat);
        assert(run_model(c, mc, g) == run_model(c, mc1, (g - 1) as nat));
        lemma_lift(u, mu, mu1, run_model(c, mc, g), c.len() as int);
    } else {
        lemma_run_step(t, u, c, mu, mc, r);
        match step_model(u, mu) {
            Err(e) => {
                let ec = step_model(c, mc)->Err_0;
                assert(run_model(c, mc, g) == (mc, Some(ec)));
                assert(run_model(c, mc, 1) == (mc, Some(ec)));
                assert(run_model(u, mu, 1) == (mu, Some(e)));
                assert(failed_with(run_model(u, mu, 1), mc));
            },
            Ok(mu1) => {
                if in_step(t, mu1, mc, r + 1) {
                    lemma_simulation_back(t, u, c, mu1, mc, r + 1, g);
                } else {
                    let mc1 = step_model(c, mc)->Ok_0;
                    assert(run_model(c, mc, g) == run_model(c, mc1, (g - 1) as nat));
                    lemma_simulation_back(t, u, c, mu1, mc1, 0, (g - 1) as nat);
                }
                lemma_lift(u, mu, mu1, run_model(c, mc, g), c.len() as int);
            },
        }
    }
}

/// Compression preserves behaviour: take a token sequence, the program with
/// one instruction of count 1 per token and the compressed program, each with
/// its jumps resolved, and one input. Whenever either program halts, the
/// other halts too, with the same tape, data pointer, input position and
/// output. Whenever either fails, the other fails too, with the same tape,
/// input position and output.
pub proof fn lemma_compression_preserves_behaviour(
    t: Seq<InsnKind>,
    u: Seq<Insn>,
    c: Seq<Insn>,
    input: Seq<u8>,
    fuel: nat,
)
    requires
        resolved_pair(t, u, c),
    ensures
        outcome_matched(c, initial_model(input), run_model(u, initial_model(input), fuel), u.len() as int),
        outcome_matched(u, initial_model(input), run_model(c, initial_model(input), fuel), c.len() as int),
{
    let m = initial_model(input);
    if 0 < t.len() && repeatable(t[0]) {
        lemma_effect_zero(t[0], m);
    }
    assert(in_step(t, m, m, 0));
    lemma_simulation(t, u, c, m, m, 0, fuel);
    lemma_simulation_back(t, u, c, m, m, 0, fuel);
}

} // verus!
