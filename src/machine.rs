use vstd::prelude::*;
use vstd::arithmetic::div_mod::{
    lemma_add_mod_noop_right,
    lemma_sub_mod_noop_right,
    lemma_mod_add_multiples_vanish,
    lemma_mod_sub_multiples_vanish,
    lemma_add_mod_noop,
    lemma_sub_mod_noop,
    lemma_mod_twice,
    lemma_small_mod,
};
use crate::bf::{Insn, InsnKind};

verus! {

/// The number of cells on the tape.
pub const TAPE_LEN: usize = 30000;

/// Execution failed.
#[derive(PartialEq, Eq, Structural, Debug, Clone, Copy)]
pub enum RunError {
    /// The instruction at this index would move the data pointer off the tape.
    TapeBoundsExceeded(usize),
}

/// A cell after adding `n`, modulo 256.
pub open spec fn cell_add(c: u8, n: int) -> u8 {
    ((c as int + n) % 256) as u8
}

/// A cell after subtracting `n`, modulo 256.
pub open spec fn cell_sub(c: u8, n: int) -> u8 {
    ((c as int - n) % 256) as u8
}

/// Adds `n` to a cell, wrapping around modulo 256.
pub fn add_cell(c: u8, n: usize) -> (r: u8)
    ensures
        r == cell_add(c, n as int),
{
    proof {
        lemma_add_mod_noop_right(c as int, n as int, 256);
    }
    ((c as usize + n % 256) % 256) as u8
}

/// Subtracts `n` from a cell, wrapping around modulo 256.
pub fn sub_cell(c: u8, n: usize) -> (r: u8)
    ensures
        r == cell_sub(c, n as int),
{
    proof {
        lemma_sub_mod_noop_right(c as int, n as int, 256);
        lemma_mod_add_multiples_vanish(c as int - (n % 256) as int, 256);
    }
    ((c as usize + 256 - n % 256) % 256) as u8
}

/// The abstract state of a run.
pub ghost struct MachineModel {
    pub tape: Seq<u8>,
    pub dp: int,
    pub ip: int,
    pub input: Seq<u8>,
    pub in_pos: int,
    pub output: Seq<u8>,
}

/// What `n` reads from `input` at `pos` leave in the cell: each read
/// overwrites the previous one, and a read past the end gives 0.
pub open spec fn last_read(input: Seq<u8>, pos: int, n: int, cell: u8) -> u8 {
    if n <= 0 {
        cell
    } else if pos + n - 1 < input.len() {
        input[pos + n - 1]
    } else {
        0
    }
}

/// The input position after `n` reads from `pos`.
pub open spec fn pos_after_reads(input: Seq<u8>, pos: int, n: int) -> int {
    if pos + n < input.len() {
        pos + n
    } else {
        input.len() as int
    }
}

/// The state after executing the instruction at `m.ip`, or the failure that
/// it causes.
#[verifier::opaque]
pub open spec fn step_model(prog: Seq<Insn>, m: MachineModel) -> Result<MachineModel, RunError> {
    let insn = prog[m.ip];
    let n = insn.operand as int;
    let cell = m.tape[m.dp];
    let next = MachineModel { ip: m.ip + 1, ..m };
    match insn.kind {
        InsnKind::ADD => Ok(MachineModel { tape: m.tape.update(m.dp, cell_add(cell, n)), ..next }),
        InsnKind::SUB => Ok(MachineModel { tape: m.tape.update(m.dp, cell_sub(cell, n)), ..next }),
        InsnKind::LEFT => if m.dp - n >= 0 {
            Ok(MachineModel { dp: m.dp - n, ..next })
        } else {
            Err(RunError::TapeBoundsExceeded(m.ip as usize))
        },
        InsnKind::RIGHT => if m.dp + n < TAPE_LEN {
            Ok(MachineModel { dp: m.dp + n, ..next })
        } else {
            Err(RunError::TapeBoundsExceeded(m.ip as usize))
        },
        InsnKind::READ => Ok(
            MachineModel {
                tape: m.tape.update(m.dp, last_read(m.input, m.in_pos, n, cell)),
                in_pos: pos_after_reads(m.input, m.in_pos, n),
                ..next
            },
        ),
        InsnKind::WRITE => Ok(
            MachineModel { output: m.output + Seq::new(n as nat, |k: int| cell), ..next },
        ),
        InsnKind::OPEN => if cell == 0 {
            Ok(MachineModel { ip: n, ..m })
        } else {
            Ok(next)
        },
        InsnKind::CLOSE => if cell != 0 {
            Ok(MachineModel { ip: n, ..m })
        } else {
            Ok(next)
        },
    }
}

/// The state after at most `fuel` steps from `m`, stopping early at a halt,
/// together with the failure that stopped it, if one did. A failing step
/// leaves the state as it was before that step.
pub open spec fn run_model(prog: Seq<Insn>, m: MachineModel, fuel: nat) -> (MachineModel, Option<RunError>)
    decreases fuel,
{
    if fuel == 0 || m.ip >= prog.len() {
        (m, None)
    } else {
        match step_model(prog, m) {
            Ok(next) => run_model(prog, next, (fuel - 1) as nat),
            Err(e) => (m, Some(e)),
        }
    }
}

/// The cell after adding each count in turn.
pub open spec fn add_all(c: u8, counts: Seq<nat>) -> u8
    decreases counts.len(),
{
    if counts.len() == 0 {
        c
    } else {
        cell_add(add_all(c, counts.drop_last()), counts.last() as int)
    }
}

/// The cell after subtracting each count in turn.
pub open spec fn sub_all(c: u8, counts: Seq<nat>) -> u8
    decreases counts.len(),
{
    if counts.len() == 0 {
        c
    } else {
        cell_sub(sub_all(c, counts.drop_last()), counts.last() as int)
    }
}

/// The sum of a sequence of counts.
pub open spec fn count_sum(counts: Seq<nat>) -> nat
    decreases counts.len(),
{
    if counts.len() == 0 {
        0
    } else {
        count_sum(counts.drop_last()) + counts.last()
    }
}

proof fn lemma_add_all_is_one_add(c: u8, counts: Seq<nat>)
    ensures
        add_all(c, counts) == cell_add(c, count_sum(counts) as int),
    decreases counts.len(),
{
    if counts.len() > 0 {
        let rest = counts.drop_last();
        lemma_add_all_is_one_add(c, rest);
        let x = c as int + count_sum(rest) as int;
        lemma_add_mod_noop(x, counts.last() as int, 256);
        lemma_mod_twice(x, 256);
        lemma_small_mod((x % 256) as nat, 256);
        lemma_small_mod((counts.last() % 256) as nat, 256);
    }
}

proof fn lemma_sub_all_is_one_sub(c: u8, counts: Seq<nat>)
    ensures
        sub_all(c, counts) == cell_sub(c, count_sum(counts) as int),
    decreases counts.len(),
{
    if counts.len() > 0 {
        let rest = counts.drop_last();
        lemma_sub_all_is_one_sub(c, rest);
        let x = c as int - count_sum(rest) as int;
        lemma_sub_mod_noop(x, counts.last() as int, 256);
        lemma_mod_twice(x, 256);
        lemma_small_mod((x % 256) as nat, 256);
        lemma_small_mod((counts.last() % 256) as nat, 256);
    }
}

/// Adding counts that sum to 256 to a cell, in any grouping, gives the cell
/// back unchanged.
pub proof fn lemma_add_wraps_around(c: u8, counts: Seq<nat>)
    requires
        count_sum(counts) == 256,
    ensures
        add_all(c, counts) == c,
{
    lemma_add_all_is_one_add(c, counts);
    lemma_mod_add_multiples_vanish(c as int, 256);
    lemma_small_mod(c as nat, 256);
}

/// Subtracting counts that sum to 256 from a cell, in any grouping, gives the
/// cell back unchanged.
pub proof fn lemma_sub_wraps_around(c: u8, counts: Seq<nat>)
    requires
        count_sum(counts) == 256,
    ensures
        sub_all(c, counts) == c,
{
    lemma_sub_all_is_one_sub(c, counts);
    lemma_mod_sub_multiples_vanish(c as int, 256);
    lemma_small_mod(c as nat, 256);
}

/// A state of execution: the tape, the data and instruction pointers, the
/// input with the position of the next byte to read, and the output so far.
pub struct Machine {
    tape: Vec<u8>,
    dp: usize,
    ip: usize,
    input: Vec<u8>,
    in_pos: usize,
    output: Vec<u8>,
}

impl View for Machine {
    type V = MachineModel;

    closed spec fn view(&self) -> MachineModel {
        MachineModel {
            tape: self.tape@,
            dp: self.dp as int,
            ip: self.ip as int,
            input: self.input@,
            in_pos: self.in_pos as int,
            output: self.output@,
        }
    }
}

/// A well-formed state: the tape has its fixed length, the data pointer is on
/// it and the input position is within the input.
pub open spec fn model_wf(m: MachineModel) -> bool {
    &&& m.tape.len() == TAPE_LEN
    &&& 0 <= m.dp < TAPE_LEN
    &&& 0 <= m.ip
    &&& 0 <= m.in_pos <= m.input.len()
}

/// The state in which a run over `input` starts.
pub open spec fn initial_model(input: Seq<u8>) -> MachineModel {
    MachineModel {
        tape: Seq::new(TAPE_LEN as nat, |i: int| 0u8),
        dp: 0,
        ip: 0,
        input: input,
        in_pos: 0,
        output: Seq::empty(),
    }
}

impl Machine {
    pub open spec fn wf(&self) -> bool {
        model_wf(self@)
    }

    /// A fresh machine: all cells zero, both pointers at 0, nothing read or
    /// written yet.
    pub fn new(input: Vec<u8>) -> (r: Machine)
        ensures
            r.wf(),
            r@ == initial_model(input@),
    {
        let mut tape: Vec<u8> = Vec::new();
        let mut k: usize = 0;
        while k < TAPE_LEN
            invariant
                k <= TAPE_LEN,
                tape@ == Seq::new(k as nat, |i: int| 0u8),
            decreases TAPE_LEN - k,
        {
            tape.push(0);
            k += 1;
        }
        Machine { tape, dp: 0, ip: 0, input, in_pos: 0, output: Vec::new() }
    }

    /// The value of cell `i`.
    pub fn cell(&self, i: usize) -> (r: u8)
        requires
            self.wf(),
            i < TAPE_LEN,
        ensures
            r == self@.tape[i as int],
    {
        self.tape[i]
    }

    /// The data pointer.
    pub fn data_pointer(&self) -> (r: usize)
        ensures
            r == self@.dp,
    {
        self.dp
    }

    /// The instruction pointer.
    pub fn instruction_pointer(&self) -> (r: usize)
        ensures
            r == self@.ip,
    {
        self.ip
    }

    /// The bytes written so far.
    pub fn output(&self) -> (r: &Vec<u8>)
        ensures
            r@ == self@.output,
    {
        &self.output
    }

    /// Whether the run has halted: the instruction pointer is past the end.
    pub fn is_halted(&self, program: &Vec<Insn>) -> (r: bool)
        ensures
            r == (self@.ip >= program@.len()),
    {
        self.ip >= program.len()
    }

    /// Executes up to `max_steps` instructions, stopping early when the run
    /// halts or fails. Returns whether it has halted; on failure the state is
    /// the one before the failing instruction.
    pub fn run_steps(&mut self, program: &Vec<Insn>, max_steps: usize) -> (r: Result<bool, RunError>)
        requires
            old(self).wf(),
        ensures
            final(self).wf(),
            final(self)@ == run_model(program@, old(self)@, max_steps as nat).0,
            run_model(program@, old(self)@, max_steps as nat).1 matches Some(e) ==> r == Err::<
                bool,
                RunError,
            >(e),
            run_model(program@, old(self)@, max_steps as nat).1 is None ==> r == Ok::<
                bool,
                RunError,
            >(final(self)@.ip >= program@.len()),
    {
        let mut left: usize = max_steps;
        while left > 0 && self.ip < program.len()
            invariant
                self.wf(),
                run_model(program@, self@, left as nat) == run_model(
                    program@,
                    old(self)@,
                    max_steps as nat,
                ),
            decreases left,
        {
            match self.step(program) {
                Ok(()) => {},
                Err(e) => {
                    return Err(e);
                },
            }
            left = left - 1;
        }
        Ok(self.ip >= program.len())
    }

    /// Executes the instruction at the instruction pointer. On failure the
    /// state is left as it was.
    pub fn step(&mut self, program: &Vec<Insn>) -> (r: Result<(), RunError>)
        requires
            old(self).wf(),
            old(self)@.ip < program@.len(),
        ensures
            final(self).wf(),
            step_model(program@, old(self)@) matches Ok(m) ==> r is Ok && final(self)@ == m,
            step_model(program@, old(self)@) matches Err(e) ==> r == Err::<(), RunError>(e)
                && final(self)@ == old(self)@,
    {
        proof {
            reveal(step_model);
        }
        let len = program.len();
        let insn = program[self.ip];
        let next_ip = self.ip + 1;
        let n = insn.operand;
        let dp = self.dp;
        let cell = self.tape[dp];
        match insn.kind {
            InsnKind::ADD => {
                self.tape.set(dp, add_cell(cell, n));
                self.ip = next_ip;
            },
            InsnKind::SUB => {
                self.tape.set(dp, sub_cell(cell, n));
                self.ip = next_ip;
            },
            InsnKind::LEFT => {
                if n > dp {
                    return Err(RunError::TapeBoundsExceeded(self.ip));
                }
                self.dp = dp - n;
                self.ip = next_ip;
            },
            InsnKind::RIGHT => {
                if n >= TAPE_LEN - dp {
                    return Err(RunError::TapeBoundsExceeded(self.ip));
                }
                self.dp = dp + n;
                self.ip = next_ip;
            },
            InsnKind::READ => {
                let mut value = cell;
                let mut k: usize = 0;
                let ghost pos0 = self.in_pos as int;
                let ghost s0 = self@;
                while k < n
                    invariant
                        self.wf(),
                        self@ == (MachineModel { in_pos: self@.in_pos, ..s0 }),
                        dp == self.dp,
                        self.in_pos as int == pos_after_reads(self.input@, pos0, k as int),
                        value == last_read(self.input@, pos0, k as int, cell),
                        k <= n,
                        pos0 <= self.input@.len(),
                    decreases n - k,
                {
                    if self.in_pos < self.input.len() {
                        value = self.input[self.in_pos];
                        self.in_pos = self.in_pos + 1;
                    } else {
                        value = 0;
                    }
                    k += 1;
                }
                self.tape.set(dp, value);
                self.ip = next_ip;
            },
            InsnKind::WRITE => {
                let mut k: usize = 0;
                let ghost out0 = self.output@;
                let ghost s0 = self@;
                while k < n
                    invariant
                        self.wf(),
                        self@ == (MachineModel { output: self@.output, ..s0 }),
                        dp == self.dp,
                        self.output@ == out0 + Seq::new(k as nat, |j: int| cell),
                        k <= n,
                    decreases n - k,
                {
                    self.output.push(cell);
                    k += 1;
                    proof {
                        assert(self.output@ =~= out0 + Seq::new(k as nat, |j: int| cell));
                    }
                }
                self.ip = next_ip;
            },
            InsnKind::OPEN => {
                if cell == 0 {
                    self.ip = n;
                } else {
                    self.ip = next_ip;
                }
            },
            InsnKind::CLOSE => {
                if cell != 0 {
                    self.ip = n;
                } else {
                    self.ip = next_ip;
                }
            },
        }
        proof {
            let m = step_model(program@, old(self)@);
            assert(m matches Ok(mm) && self@ =~= mm);
        }
        Ok(())
    }
}

} // verus!
