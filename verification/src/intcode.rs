//! The integer byte-code interpreter.
//!
//! Memory is a logically infinite, zero-filled tape of signed 64-bit cells:
//! a read past the stored prefix yields 0, and a write past it first grows
//! the prefix with zeros up to and including the addressed cell.  Each
//! instruction word selects an opcode with its low two decimal digits and an
//! addressing mode for each parameter with the following digits.  One
//! invocation of the interpreter runs from a caller-supplied execution state
//! and input batch until the program halts, asks for input that the batch no
//! longer holds, or faults.
//!
//! Two semantic choices are fixed here.  Arithmetic is two's-complement
//! 64-bit: add and multiply wrap on overflow.  And a malformed opcode,
//! addressing mode or instruction word does not kill the process: it ends
//! the invocation with a structured [`Fault`], distinct from a halt and
//! from a suspension.
//!
//! The meaning of a single instruction is given by the specification
//! function [`step`] over ghost machine configurations; the executable
//! interpreter is proved to follow it exactly, one instruction at a time.

use vstd::prelude::*;

verus! {

/// An unrecoverable failure of the current invocation.  A fault carries no
/// partial result: the run stops at the offending instruction.
#[derive(Clone, Copy, Debug, PartialEq, Eq, Structural)]
pub enum Fault {
    /// The low two digits of the instruction word name no operation.
    DecodeFault,
    /// An addressing mode outside {0, 1, 2} on a read, immediate mode used
    /// as a write target, or mode digits beyond the third parameter.
    ModeFault,
    /// A negative value where an instruction word was expected.
    ProgramFault,
    /// An effective address or jump target that is negative, a write
    /// address beyond what this machine can store, or a relative base
    /// adjusted out of the signed 64-bit range.
    AddressFault,
}

/// A paused machine: program counter, relative base, and the memory tape at
/// the point of suspension.  Resuming consumes the state and produces a new
/// one, so no two runs ever share a tape.
#[derive(Clone, Debug)]
pub struct State {
    pub pc: u64,
    pub relative_base: i64,
    pub mem: Vec<i64>,
}

/// The outcome of one interpreter invocation.  Both variants carry the
/// machine state at the end of the run — for `Halted` it is kept so that a
/// caller can inspect the final tape — together with every value the program
/// output since the invocation began.  Output never accumulates across
/// invocations: each call starts from an empty output sequence.
pub enum RunResult {
    WaitingForInput(State, Vec<i64>),
    Halted(State, Vec<i64>),
}

/// The phase a ghost machine configuration is in.  Every status other than
/// `Running` is terminal: `step` leaves such a configuration unchanged.
pub enum Status {
    Running,
    AwaitingInput,
    Halted,
    Faulted(Fault),
}

/// A ghost machine configuration: the whole truth about one invocation at
/// one instant, including the input batch with its read cursor and the
/// outputs produced so far.
pub ghost struct Config {
    pub pc: nat,
    pub rbase: int,
    pub mem: Seq<i64>,
    pub inputs: Seq<i64>,
    pub in_idx: nat,
    pub outputs: Seq<i64>,
    pub status: Status,
}

/// What a cell of the logically infinite tape holds: the stored prefix where
/// there is one, and zero everywhere beyond it.
pub open spec fn mem_read(m: Seq<i64>, a: int) -> i64 {
    if 0 <= a < m.len() {
        m[a]
    } else {
        0
    }
}

/// The tape after storing `v` at cell `a`: the stored prefix is first grown
/// with zeros up to and including `a` where needed.
pub open spec fn mem_write(m: Seq<i64>, a: int, v: i64) -> Seq<i64>
    recommends
        0 <= a,
{
    let grown = if a < m.len() {
        m
    } else {
        m + Seq::new((a + 1 - m.len()) as nat, |i: int| 0i64)
    };
    grown.update(a, v)
}

/// The opcode: the low two decimal digits of the instruction word.
pub open spec fn opcode_of(w: i64) -> int {
    (w as int) % 100
}

/// The addressing mode of the first parameter.
pub open spec fn mode1_of(w: i64) -> int {
    ((w as int) / 100) % 10
}

/// The addressing mode of the second parameter.
pub open spec fn mode2_of(w: i64) -> int {
    ((w as int) / 1000) % 10
}

/// The addressing mode of the third parameter.
pub open spec fn mode3_of(w: i64) -> int {
    ((w as int) / 10000) % 10
}

/// The opcodes the decoder knows.
pub open spec fn supported_opcode(op: int) -> bool {
    op == 1 || op == 2 || op == 3 || op == 4 || op == 5 || op == 6 || op == 7 || op == 8 || op == 9
        || op == 99
}

/// The operand a parameter stands for.  Position mode dereferences the
/// literal, immediate mode is the literal itself, relative mode dereferences
/// the literal offset by the relative base.  A dereference must land on a
/// representable non-negative address; the base itself may be negative.
pub open spec fn read_operand(m: Seq<i64>, rbase: int, lit: i64, mode: int) -> Result<i64, Fault> {
    if mode == 0 {
        if lit < 0 {
            Result::Err(Fault::AddressFault)
        } else {
            Result::Ok(mem_read(m, lit as int))
        }
    } else if mode == 1 {
        Result::Ok(lit)
    } else if mode == 2 {
        if rbase + lit < 0 || rbase + lit > i64::MAX {
            Result::Err(Fault::AddressFault)
        } else {
            Result::Ok(mem_read(m, rbase + lit))
        }
    } else {
        Result::Err(Fault::ModeFault)
    }
}

/// The address a parameter writes to.  Immediate mode cannot name a write
/// target; the resolved address must be non-negative and must name a cell
/// the running machine can store — at most `usize::MAX`, so that the tape
/// can actually grow to reach it.
pub open spec fn write_target(rbase: int, lit: i64, mode: int) -> Result<int, Fault> {
    if mode == 0 {
        if lit < 0 || lit >= usize::MAX {
            Result::Err(Fault::AddressFault)
        } else {
            Result::Ok(lit as int)
        }
    } else if mode == 2 {
        if rbase + lit < 0 || rbase + lit > i64::MAX || rbase + lit >= usize::MAX {
            Result::Err(Fault::AddressFault)
        } else {
            Result::Ok(rbase + lit)
        }
    } else {
        Result::Err(Fault::ModeFault)
    }
}

impl Config {
    /// The same configuration, stopped by fault `f`.
    pub open spec fn fail(self, f: Fault) -> Config {
        Config { status: Status::Faulted(f), ..self }
    }

    /// Bounds every reachable configuration keeps: the stored tape never
    /// grows past the addressable range, the program counter stays within a
    /// step of it, and the input cursor never passes the batch.
    pub open spec fn wf(self) -> bool {
        &&& self.pc <= i64::MAX + 4
        &&& self.mem.len() <= i64::MAX + 1
        &&& self.in_idx <= self.inputs.len()
    }
}

/// One instruction of the machine.  A configuration whose status is not
/// `Running` is terminal and maps to itself.
pub open spec fn step(c: Config) -> Config {
    if !(c.status is Running) {
        c
    } else {
        let w = mem_read(c.mem, c.pc as int);
        if w < 0 {
            c.fail(Fault::ProgramFault)
        } else if w >= 100000 {
            c.fail(Fault::ModeFault)
        } else {
            let op = opcode_of(w);
            let p1 = mem_read(c.mem, c.pc as int + 1);
            let p2 = mem_read(c.mem, c.pc as int + 2);
            let p3 = mem_read(c.mem, c.pc as int + 3);
            if op == 99 {
                Config { status: Status::Halted, ..c }
            } else if op == 1 || op == 2 {
                match read_operand(c.mem, c.rbase, p1, mode1_of(w)) {
                    Result::Err(f) => c.fail(f),
                    Result::Ok(a) => match read_operand(c.mem, c.rbase, p2, mode2_of(w)) {
                        Result::Err(f) => c.fail(f),
                        Result::Ok(b) => match write_target(c.rbase, p3, mode3_of(w)) {
                            Result::Err(f) => c.fail(f),
                            Result::Ok(t) => (Config {
                                mem: mem_write(
                                    c.mem,
                                    t,
                                    if op == 1 {
                                        a.wrapping_add(b)
                                    } else {
                                        a.wrapping_mul(b)
                                    },
                                ),
                                pc: (c.pc + 4) as nat,
                                ..c
                            }),
                        },
                    },
                }
            } else if op == 3 {
                if c.in_idx < c.inputs.len() {
                    match write_target(c.rbase, p1, mode1_of(w)) {
                        Result::Err(f) => c.fail(f),
                        Result::Ok(t) => (Config {
                            mem: mem_write(c.mem, t, c.inputs[c.in_idx as int]),
                            in_idx: c.in_idx + 1,
                            pc: (c.pc + 2) as nat,
                            ..c
                        }),
                    }
                } else {
                    Config { status: Status::AwaitingInput, ..c }
                }
            } else if op == 4 {
                match read_operand(c.mem, c.rbase, p1, mode1_of(w)) {
                    Result::Err(f) => c.fail(f),
                    Result::Ok(v) => (Config {
                        outputs: c.outputs.push(v),
                        pc: (c.pc + 2) as nat,
                        ..c
                    }),
                }
            } else if op == 5 || op == 6 {
                match read_operand(c.mem, c.rbase, p1, mode1_of(w)) {
                    Result::Err(f) => c.fail(f),
                    Result::Ok(t) => {
                        if (op == 5 && t != 0) || (op == 6 && t == 0) {
                            match read_operand(c.mem, c.rbase, p2, mode2_of(w)) {
                                Result::Err(f) => c.fail(f),
                                Result::Ok(dest) => {
                                    if dest < 0 {
                                        c.fail(Fault::AddressFault)
                                    } else {
                                        Config { pc: dest as nat, ..c }
                                    }
                                },
                            }
                        } else {
                            Config { pc: (c.pc + 3) as nat, ..c }
                        }
                    },
                }
            } else if op == 7 || op == 8 {
                match read_operand(c.mem, c.rbase, p1, mode1_of(w)) {
                    Result::Err(f) => c.fail(f),
                    Result::Ok(a) => match read_operand(c.mem, c.rbase, p2, mode2_of(w)) {
                        Result::Err(f) => c.fail(f),
                        Result::Ok(b) => match write_target(c.rbase, p3, mode3_of(w)) {
                            Result::Err(f) => c.fail(f),
                            Result::Ok(t) => (Config {
                                mem: mem_write(
                                    c.mem,
                                    t,
                                    if (op == 7 && a < b) || (op == 8 && a == b) {
                                        1i64
                                    } else {
                                        0i64
                                    },
                                ),
                                pc: (c.pc + 4) as nat,
                                ..c
                            }),
                        },
                    },
                }
            } else if op == 9 {
                match read_operand(c.mem, c.rbase, p1, mode1_of(w)) {
                    Result::Err(f) => c.fail(f),
                    Result::Ok(v) => {
                        if c.rbase + v < i64::MIN || c.rbase + v > i64::MAX {
                            c.fail(Fault::AddressFault)
                        } else {
                            Config { rbase: c.rbase + v, pc: (c.pc + 2) as nat, ..c }
                        }
                    },
                }
            } else {
                c.fail(Fault::DecodeFault)
            }
        }
    }
}

/// The configuration after `n` instructions.
pub open spec fn run_to(c: Config, n: nat) -> Config
    decreases n,
{
    if n == 0 {
        c
    } else {
        step(run_to(c, (n - 1) as nat))
    }
}

/// A configuration the machine never leaves.
pub open spec fn is_terminal(c: Config) -> bool {
    !(c.status is Running)
}

impl State {
    /// The machine-limit bounds a state must keep so that an invocation can
    /// run without address arithmetic leaving the 64-bit range.  A fresh
    /// state keeps them, and every state the interpreter hands back does.
    pub open spec fn wf(self) -> bool {
        &&& self.pc <= i64::MAX + 4
        &&& self.mem@.len() <= i64::MAX + 1
    }

    /// The configuration an invocation of this state with batch `inputs`
    /// starts from.
    pub open spec fn cfg(self, inputs: Seq<i64>) -> Config {
        Config {
            pc: self.pc as nat,
            rbase: self.relative_base as int,
            mem: self.mem@,
            inputs,
            in_idx: 0,
            outputs: Seq::empty(),
            status: Status::Running,
        }
    }

    /// A fresh machine over a copy of `mem`: program counter and relative
    /// base both zero.
    pub fn new_with_mem(mem: &[i64]) -> (s: State)
        requires
            mem@.len() <= i64::MAX + 1,
        ensures
            s.pc == 0,
            s.relative_base == 0,
            s.mem@ == mem@,
            s.wf(),
    {
        State { pc: 0, relative_base: 0, mem: vstd::slice::slice_to_vec(mem) }
    }
}

impl RunResult {
    /// The outputs carried by either variant.
    pub open spec fn outputs_of(self) -> Seq<i64> {
        match self {
            RunResult::WaitingForInput(_, o) => o@,
            RunResult::Halted(_, o) => o@,
        }
    }

    /// The first value the program output in this invocation.
    pub fn get_first_output(&self) -> (r: i64)
        requires
            self.outputs_of().len() > 0,
        ensures
            r == self.outputs_of()[0],
    {
        match self {
            RunResult::WaitingForInput(_, outputs) => outputs[0],
            RunResult::Halted(_, outputs) => outputs[0],
        }
    }
}

/// Whether an execution state together with an output batch reports the
/// configuration `c` faithfully.
pub open spec fn corresponds(c: Config, st: State, outs: Vec<i64>) -> bool {
    &&& st.pc as nat == c.pc
    &&& st.relative_base as int == c.rbase
    &&& st.mem@ == c.mem
    &&& outs@ == c.outputs
}

/// Whether one invocation's return value reports the terminal configuration
/// `c` faithfully: halt and suspension hand back the machine and its
/// outputs, a fault carries no partial result.
pub open spec fn outcome_matches(c: Config, r: Result<RunResult, Fault>) -> bool {
    match r {
        Result::Ok(RunResult::Halted(st, outs)) => c.status is Halted && corresponds(c, st, outs),
        Result::Ok(RunResult::WaitingForInput(st, outs)) => c.status is AwaitingInput
            && corresponds(c, st, outs),
        Result::Err(f) => c.status == Status::Faulted(f),
    }
}

/// The contract of one interpreter invocation given at most `fuel`
/// instructions: either the machine reaches a terminal configuration within
/// the budget and the return value reports exactly that configuration, or it
/// is still running after `fuel` instructions and nothing is returned.
pub open spec fn run_outcome(c0: Config, fuel: nat, r: Option<Result<RunResult, Fault>>) -> bool {
    match r {
        Option::None => !is_terminal(run_to(c0, fuel)),
        Option::Some(out) => exists|n: nat|
            n <= fuel && is_terminal(#[trigger] run_to(c0, n)) && outcome_matches(
                run_to(c0, n),
                out,
            ),
    }
}

/// Unfolding one instruction off the end of a run.
pub proof fn lemma_run_to_succ(c: Config, n: nat)
    ensures
        run_to(c, (n + 1) as nat) == step(run_to(c, n)),
{
    assert(run_to(c, (n + 1) as nat) == step(run_to(c, ((n + 1) - 1) as nat)));
}

/// A single instruction keeps every configuration within its bounds.
pub proof fn lemma_step_wf(c: Config)
    requires
        c.wf(),
    ensures
        step(c).wf(),
{
    let w = mem_read(c.mem, c.pc as int);
    assert(w != 0 ==> c.pc < c.mem.len());
}

/// What a cell of the tape holds, executably.
fn mem_get(mem: &Vec<i64>, a: u64) -> (r: i64)
    ensures
        r == mem_read(mem@, a as int),
{
    if a < mem.len() as u64 {
        mem[a as usize]
    } else {
        0
    }
}

/// The decoder: the low two digits select the opcode, the following digits
/// the addressing modes of up to three parameters, missing digits defaulting
/// to position mode.  A negative word is no instruction, and mode digits
/// past the third parameter name no supported shape.
fn parse_inst(code: i64) -> (r: Result<(u8, u8, u8, u8), Fault>)
    ensures
        code < 0 ==> r == Result::<(u8, u8, u8, u8), Fault>::Err(Fault::ProgramFault),
        code >= 100000 ==> r == Result::<(u8, u8, u8, u8), Fault>::Err(Fault::ModeFault),
        0 <= code < 100000 ==> (r matches Result::Ok(t) && t.0 as int == opcode_of(code)
            && t.1 as int == mode1_of(code) && t.2 as int == mode2_of(code) && t.3 as int
            == mode3_of(code)),
{
    if code < 0 {
        return Result::Err(Fault::ProgramFault);
    }
    if code >= 100000 {
        return Result::Err(Fault::ModeFault);
    }
    let c = code as u64;
    let opcode = (c % 100) as u8;
    let m1 = ((c / 100) % 10) as u8;
    let m2 = ((c / 1000) % 10) as u8;
    let m3 = ((c / 10000) % 10) as u8;
    Result::Ok((opcode, m1, m2, m3))
}

/// Resolve a parameter to the operand it stands for.
fn read_param(mem: &Vec<i64>, rbase: i64, lit: i64, mode: u8) -> (r: Result<i64, Fault>)
    ensures
        r == read_operand(mem@, rbase as int, lit, mode as int),
{
    if mode == 0 {
        if lit < 0 {
            Result::Err(Fault::AddressFault)
        } else {
            Result::Ok(mem_get(mem, lit as u64))
        }
    } else if mode == 1 {
        Result::Ok(lit)
    } else if mode == 2 {
        let a: i128 = rbase as i128 + lit as i128;
        if a < 0 || a > i64::MAX as i128 {
            Result::Err(Fault::AddressFault)
        } else {
            Result::Ok(mem_get(mem, a as u64))
        }
    } else {
        Result::Err(Fault::ModeFault)
    }
}

/// Resolve a parameter to the address it writes to.
fn read_address(rbase: i64, lit: i64, mode: u8) -> (r: Result<u64, Fault>)
    ensures
        (r matches Result::Ok(t) ==> write_target(rbase as int, lit, mode as int)
            == Result::<int, Fault>::Ok(t as int) && t <= i64::MAX as u64 && t < usize::MAX as u64),
        (r matches Result::Err(f) ==> write_target(rbase as int, lit, mode as int)
            == Result::<int, Fault>::Err(f)),
{
    if mode == 0 {
        if lit < 0 || lit as u64 >= usize::MAX as u64 {
            Result::Err(Fault::AddressFault)
        } else {
            Result::Ok(lit as u64)
        }
    } else if mode == 2 {
        let a: i128 = rbase as i128 + lit as i128;
        if a < 0 || a > i64::MAX as i128 || a >= usize::MAX as i128 {
            Result::Err(Fault::AddressFault)
        } else {
            Result::Ok(a as u64)
        }
    } else {
        Result::Err(Fault::ModeFault)
    }
}

/// Store `value` at `address`, growing the stored tape with zeros first
/// where the address lies beyond it.  Growing never fails: any representable
/// address can be written.
fn write_address(mem: &mut Vec<i64>, address: u64, value: i64)
    requires
        address < usize::MAX as u64,
        address <= i64::MAX as u64,
    ensures
        final(mem)@ == mem_write(old(mem)@, address as int, value),
{
    let a = address as usize;
    if a >= mem.len() {
        mem.resize(a + 1, 0);
    }
    mem.set(a, value);
    proof {
        assert(mem@ =~= mem_write(old(mem)@, address as int, value));
    }
}

/// One invocation of the interpreter: run from `state` with the input batch
/// `inputs` until the program halts, asks for input beyond the batch, or
/// faults — but for at most `max_steps` instructions, so that every call
/// returns.  The return value reports the terminal configuration of the
/// ghost machine exactly; `None` says the budget ran out first, with the
/// machine still running.  The interpreter never mutates `state`: it runs on
/// a copy of the tape.
pub fn run_intcode(state: &State, inputs: Vec<i64>, max_steps: u64) -> (r: Option<
    Result<RunResult, Fault>,
>)
    requires
        state.wf(),
    ensures
        run_outcome(state.cfg(inputs@), max_steps as nat, r),
        (r matches Option::Some(Result::Ok(RunResult::WaitingForInput(st, o))) ==> st.wf()),
        (r matches Option::Some(Result::Ok(RunResult::Halted(st, o))) ==> st.wf()),
{
    let ghost c0 = state.cfg(inputs@);
    let mut pc: u64 = state.pc;
    let mut relative_base: i64 = state.relative_base;
    let mut mem: Vec<i64> = vstd::slice::slice_to_vec(state.mem.as_slice());
    let mut input_idx: usize = 0;
    let mut outputs: Vec<i64> = Vec::new();
    let mut steps: u64 = 0;

    while steps < max_steps
        invariant
            steps <= max_steps,
            c0 == state.cfg(inputs@),
            run_to(c0, steps as nat).wf(),
            run_to(c0, steps as nat) == (Config {
                pc: pc as nat,
                rbase: relative_base as int,
                mem: mem@,
                inputs: inputs@,
                in_idx: input_idx as nat,
                outputs: outputs@,
                status: Status::Running,
            }),
        decreases max_steps - steps,
    {
        proof {
            lemma_run_to_succ(c0, steps as nat);
            lemma_step_wf(run_to(c0, steps as nat));
        }
        let ghost cur = run_to(c0, steps as nat);
        let ghost next = run_to(c0, (steps + 1) as nat);
        let w = mem_get(&mem, pc);
        match parse_inst(w) {
            Result::Err(f) => {
                return Option::Some(Result::Err(f));
            },
            Result::Ok((op, m1, m2, m3)) => {
                if op == 99 {
                    return Option::Some(
                        Result::Ok(RunResult::Halted(State { pc, relative_base, mem }, outputs)),
                    );
                } else if op == 1 || op == 2 || op == 7 || op == 8 {
                    assert(pc < mem@.len());
                    let lit1 = mem_get(&mem, pc + 1);
                    let lit2 = mem_get(&mem, pc + 2);
                    let lit3 = mem_get(&mem, pc + 3);
                    let a = match read_param(&mem, relative_base, lit1, m1) {
                        Result::Ok(v) => v,
                        Result::Err(f) => {
                            return Option::Some(Result::Err(f));
                        },
                    };
                    let b = match read_param(&mem, relative_base, lit2, m2) {
                        Result::Ok(v) => v,
                        Result::Err(f) => {
                            return Option::Some(Result::Err(f));
                        },
                    };
                    let t = match read_address(relative_base, lit3, m3) {
                        Result::Ok(t) => t,
                        Result::Err(f) => {
                            return Option::Some(Result::Err(f));
                        },
                    };
                    let value = if op == 1 {
                        a.wrapping_add(b)
                    } else if op == 2 {
                        a.wrapping_mul(b)
                    } else if op == 7 {
                        if a < b {
                            1i64
                        } else {
                            0i64
                        }
                    } else {
                        if a == b {
                            1i64
                        } else {
                            0i64
                        }
                    };
                    write_address(&mut mem, t, value);
                    pc = pc + 4;
                } else if op == 3 {
                    assert(pc < mem@.len());
                    if input_idx < inputs.len() {
                        let lit1 = mem_get(&mem, pc + 1);
                        let t = match read_address(relative_base, lit1, m1) {
                            Result::Ok(t) => t,
                            Result::Err(f) => {
                                return Option::Some(Result::Err(f));
                            },
                        };
                        write_address(&mut mem, t, inputs[input_idx]);
                        input_idx = input_idx + 1;
                        pc = pc + 2;
                    } else {
                        return Option::Some(
                            Result::Ok(
                                RunResult::WaitingForInput(
                                    State { pc, relative_base, mem },
                                    outputs,
                                ),
                            ),
                        );
                    }
                } else if op == 4 {
                    assert(pc < mem@.len());
                    let lit1 = mem_get(&mem, pc + 1);
                    let v = match read_param(&mem, relative_base, lit1, m1) {
                        Result::Ok(v) => v,
                        Result::Err(f) => {
                            return Option::Some(Result::Err(f));
                        },
                    };
                    outputs.push(v);
                    pc = pc + 2;
                } else if op == 5 || op == 6 {
                    assert(pc < mem@.len());
                    let lit1 = mem_get(&mem, pc + 1);
                    let cond = match read_param(&mem, relative_base, lit1, m1) {
                        Result::Ok(v) => v,
                        Result::Err(f) => {
                            return Option::Some(Result::Err(f));
                        },
                    };
                    let taken = if op == 5 {
                        cond != 0
                    } else {
                        cond == 0
                    };
                    if taken {
                        let lit2 = mem_get(&mem, pc + 2);
                        let dest = match read_param(&mem, relative_base, lit2, m2) {
                            Result::Ok(v) => v,
                            Result::Err(f) => {
                                return Option::Some(Result::Err(f));
                            },
                        };
                        if dest < 0 {
                            return Option::Some(Result::Err(Fault::AddressFault));
                        }
                        pc = dest as u64;
                    } else {
                        pc = pc + 3;
                    }
                } else if op == 9 {
                    assert(pc < mem@.len());
                    let lit1 = mem_get(&mem, pc + 1);
                    let off = match read_param(&mem, relative_base, lit1, m1) {
                        Result::Ok(v) => v,
                        Result::Err(f) => {
                            return Option::Some(Result::Err(f));
                        },
                    };
                    let nb: i128 = relative_base as i128 + off as i128;
                    if nb < i64::MIN as i128 || nb > i64::MAX as i128 {
                        return Option::Some(Result::Err(Fault::AddressFault));
                    }
                    relative_base = nb as i64;
                    pc = pc + 2;
                } else {
                    return Option::Some(Result::Err(Fault::DecodeFault));
                }
            },
        }
        steps = steps + 1;
    }
    Option::None
}

/// A terminal configuration never changes again: running longer returns the
/// same configuration.
pub proof fn lemma_terminal_stays(c: Config, n: nat, m: nat)
    requires
        is_terminal(run_to(c, n)),
        n <= m,
    ensures
        run_to(c, m) == run_to(c, n),
    decreases m,
{
    if m > n {
        lemma_terminal_stays(c, n, (m - 1) as nat);
        lemma_run_to_succ(c, (m - 1) as nat);
    }
}

/// The machine is deterministic: an invocation has at most one terminal
/// configuration, whatever instruction budgets two runs are given.  Together
/// with the interpreter's contract this pins each invocation's result down
/// to a single value.
pub proof fn lemma_terminal_unique(c: Config, n: nat, m: nat)
    requires
        is_terminal(run_to(c, n)),
        is_terminal(run_to(c, m)),
    ensures
        run_to(c, n) == run_to(c, m),
{
    if n <= m {
        lemma_terminal_stays(c, n, m);
    } else {
        lemma_terminal_stays(c, m, n);
    }
}

/// Running `a + b` instructions is running `a`, then `b`.
pub proof fn lemma_run_to_add(c: Config, a: nat, b: nat)
    ensures
        run_to(c, (a + b) as nat) == run_to(run_to(c, a), b),
    decreases b,
{
    if b > 0 {
        lemma_run_to_add(c, a, (b - 1) as nat);
        lemma_run_to_succ(c, ((a + b) - 1) as nat);
        lemma_run_to_succ(run_to(c, a), (b - 1) as nat);
    }
}

/// Writing never fails for want of room: storing at any non-negative
/// address — also one at or beyond the stored prefix — yields a tape that
/// reads the stored value there, while every other cell reads as before; in
/// particular an extended cell that was not the target still reads zero.
pub proof fn lemma_zero_extension(m: Seq<i64>, a: int, v: i64)
    requires
        0 <= a,
    ensures
        mem_read(mem_write(m, a, v), a) == v,
        forall|i: int| 0 <= i && i != a ==> mem_read(mem_write(m, a, v), i) == mem_read(m, i),
{
}

/// A negative relative base is not itself a fault: a relative-mode operand
/// resolves whenever the effective address it yields is non-negative at the
/// moment of use, whatever the sign of the base.
pub proof fn lemma_negative_base_reads(m: Seq<i64>, rbase: int, lit: i64)
    requires
        0 <= rbase + lit <= i64::MAX,
    ensures
        read_operand(m, rbase, lit, 2) == Result::<i64, Fault>::Ok(mem_read(m, rbase + lit)),
{
}

/// The base-adjust instruction may drive the relative base negative and the
/// machine keeps running: only an actual dereference demands a non-negative
/// resolved address.
pub proof fn lemma_base_may_go_negative(c: Config, v: i64)
    requires
        c.status is Running,
        0 <= mem_read(c.mem, c.pc as int) < 100000,
        opcode_of(mem_read(c.mem, c.pc as int)) == 9,
        read_operand(
            c.mem,
            c.rbase,
            mem_read(c.mem, c.pc as int + 1),
            mode1_of(mem_read(c.mem, c.pc as int)),
        ) == Result::<i64, Fault>::Ok(v),
        i64::MIN <= c.rbase + v <= i64::MAX,
    ensures
        step(c).status is Running,
        step(c).rbase == c.rbase + v,
{
}

/// A word whose low two digits name no operation stops the machine with a
/// decode fault: a cell holding 50, say, is refused outright, never executed
/// as if it were the jump 5.
pub proof fn lemma_unsupported_opcode_faults(c: Config)
    requires
        c.status is Running,
        0 <= mem_read(c.mem, c.pc as int) < 100000,
        !supported_opcode(opcode_of(mem_read(c.mem, c.pc as int))),
    ensures
        step(c) == c.fail(Fault::DecodeFault),
{
}

/// The part of the input batch a configuration has not consumed yet.
pub open spec fn rem_inputs(c: Config) -> Seq<i64> {
    c.inputs.skip(c.in_idx as int)
}

/// Two configurations that agree on everything the machine can still
/// observe: the same machine proper, the same unconsumed inputs, and
/// outputs that differ only by the fixed prefix `o` already produced on the
/// first side.
pub open spec fn similar(a: Config, b: Config, o: Seq<i64>) -> bool {
    &&& a.status == b.status
    &&& a.pc == b.pc
    &&& a.rbase == b.rbase
    &&& a.mem == b.mem
    &&& a.in_idx <= a.inputs.len()
    &&& b.in_idx <= b.inputs.len()
    &&& rem_inputs(a) == rem_inputs(b)
    &&& a.outputs == o + b.outputs
}

/// `similar` is a bisimulation: one instruction keeps similar
/// configurations similar.
pub proof fn lemma_step_similar(a: Config, b: Config, o: Seq<i64>)
    requires
        similar(a, b, o),
    ensures
        similar(step(a), step(b), o),
{
    assert(rem_inputs(a).len() == a.inputs.len() - a.in_idx);
    assert(rem_inputs(b).len() == b.inputs.len() - b.in_idx);
    if a.status is Running {
        let w = mem_read(a.mem, a.pc as int);
        if 0 <= w < 100000 {
            let op = opcode_of(w);
            if op == 3 && a.in_idx < a.inputs.len() {
                assert(a.inputs[a.in_idx as int] == rem_inputs(a)[0]);
                assert(b.inputs[b.in_idx as int] == rem_inputs(b)[0]);
                match write_target(a.rbase, mem_read(a.mem, a.pc as int + 1), mode1_of(w)) {
                    Result::Ok(_) => {
                        assert(rem_inputs(step(a)) =~= rem_inputs(a).skip(1));
                        assert(rem_inputs(step(b)) =~= rem_inputs(b).skip(1));
                    },
                    Result::Err(_) => {},
                }
            }
            if op == 4 {
                let p1 = mem_read(a.mem, a.pc as int + 1);
                match read_operand(a.mem, a.rbase, p1, mode1_of(w)) {
                    Result::Ok(v) => {
                        assert((o + b.outputs).push(v) =~= o + b.outputs.push(v));
                    },
                    Result::Err(_) => {},
                }
            }
        }
    }
}

/// Whole runs keep similar configurations similar.
pub proof fn lemma_run_similar(a: Config, b: Config, o: Seq<i64>, n: nat)
    requires
        similar(a, b, o),
    ensures
        similar(run_to(a, n), run_to(b, n), o),
    decreases n,
{
    if n > 0 {
        lemma_run_similar(a, b, o, (n - 1) as nat);
        lemma_step_similar(run_to(a, (n - 1) as nat), run_to(b, (n - 1) as nat), o);
        lemma_run_to_succ(a, (n - 1) as nat);
        lemma_run_to_succ(b, (n - 1) as nat);
    }
}

/// The same invocation with more input appended to the batch.
pub open spec fn extend_inputs(c: Config, extra: Seq<i64>) -> Config {
    Config { inputs: c.inputs + extra, ..c }
}

/// The input cursor never passes the batch.
pub proof fn lemma_run_cursor(c: Config, n: nat)
    requires
        c.in_idx <= c.inputs.len(),
    ensures
        run_to(c, n).in_idx <= run_to(c, n).inputs.len(),
        run_to(c, n).inputs == c.inputs,
    decreases n,
{
    if n > 0 {
        lemma_run_cursor(c, (n - 1) as nat);
        lemma_run_to_succ(c, (n - 1) as nat);
    }
}

/// As long as an instruction does not suspend the machine, it cannot see
/// input beyond the cursor, so appending to the batch commutes with it.
pub proof fn lemma_step_extend(c: Config, extra: Seq<i64>)
    requires
        c.in_idx <= c.inputs.len(),
        !(step(c).status is AwaitingInput),
    ensures
        step(extend_inputs(c, extra)) == extend_inputs(step(c), extra),
{
    let e = extend_inputs(c, extra);
    if c.status is Running {
        let w = mem_read(c.mem, c.pc as int);
        if 0 <= w < 100000 && opcode_of(w) == 3 {
            assert(c.in_idx < c.inputs.len());
            assert(e.inputs[c.in_idx as int] == c.inputs[c.in_idx as int]);
        }
    }
}

/// Appending to the batch commutes with any run that never suspends.
pub proof fn lemma_run_extend(c: Config, extra: Seq<i64>, n: nat)
    requires
        c.in_idx <= c.inputs.len(),
        forall|k: nat| 1 <= k <= n ==> !(#[trigger] run_to(c, k).status is AwaitingInput),
    ensures
        run_to(extend_inputs(c, extra), n) == extend_inputs(run_to(c, n), extra),
    decreases n,
{
    if n > 0 {
        lemma_run_extend(c, extra, (n - 1) as nat);
        lemma_run_cursor(c, (n - 1) as nat);
        lemma_run_to_succ(c, (n - 1) as nat);
        lemma_step_extend(run_to(c, (n - 1) as nat), extra);
        lemma_run_to_succ(extend_inputs(c, extra), (n - 1) as nat);
    }
}

/// The first moment a run becomes terminal.
pub proof fn find_first_terminal(c: Config, n: nat) -> (k: nat)
    requires
        is_terminal(run_to(c, n)),
    ensures
        k <= n,
        is_terminal(run_to(c, k)),
        run_to(c, k) == run_to(c, n),
        forall|j: nat| j < k ==> !is_terminal(#[trigger] run_to(c, j)),
    decreases n,
{
    if n == 0 {
        0
    } else if is_terminal(run_to(c, (n - 1) as nat)) {
        let k = find_first_terminal(c, (n - 1) as nat);
        lemma_terminal_stays(c, (n - 1) as nat, n);
        k
    } else {
        assert forall|j: nat| j < n implies !is_terminal(#[trigger] run_to(c, j)) by {
            if is_terminal(run_to(c, j)) {
                lemma_terminal_stays(c, j, (n - 1) as nat);
            }
        }
        n
    }
}

/// The configuration a suspended machine resumes into with a fresh batch:
/// the machine proper as it paused, the cursor at the start of the new
/// batch, and — as in every invocation — an empty output accumulator.
pub open spec fn resume_cfg(c: Config, inputs: Seq<i64>) -> Config {
    Config {
        pc: c.pc,
        rbase: c.rbase,
        mem: c.mem,
        inputs,
        in_idx: 0,
        outputs: Seq::empty(),
        status: Status::Running,
    }
}

/// A suspended state the interpreter hands back resumes into exactly the
/// configuration the suspend/resume law speaks of.
pub proof fn lemma_resume_state(c: Config, st: State, outs: Vec<i64>, inputs: Seq<i64>)
    requires
        corresponds(c, st, outs),
    ensures
        st.cfg(inputs) == resume_cfg(c, inputs),
{
}

/// Suspend/resume equivalence.  Run a machine with an exhausted batch until
/// it asks for input, then resume the paused configuration with a fresh
/// batch and run to a halt: the two invocations together output exactly
/// what a single invocation outputs when given all of that input from the
/// start.  A caller that concatenates the outputs of the two calls of
/// `run_intcode` therefore sees the single-call sequence.
pub proof fn lemma_suspend_resume(c0: Config, inputs: Seq<i64>, n: nat, m: nat)
    requires
        c0.status is Running,
        c0.in_idx <= c0.inputs.len(),
        rem_inputs(c0) == Seq::<i64>::empty(),
        run_to(c0, n).status is AwaitingInput,
        run_to(resume_cfg(run_to(c0, n), inputs), m).status is Halted,
    ensures
        exists|k: nat|
            #![trigger run_to(extend_inputs(c0, inputs), k)]
            run_to(extend_inputs(c0, inputs), k).status is Halted && run_to(
                extend_inputs(c0, inputs),
                k,
            ).outputs == run_to(c0, n).outputs + run_to(
                resume_cfg(run_to(c0, n), inputs),
                m,
            ).outputs,
{
    let d = run_to(c0, n);
    let k0 = find_first_terminal(c0, n);
    assert(k0 >= 1);
    let kp = (k0 - 1) as nat;
    let dprev = run_to(c0, kp);
    lemma_run_to_succ(c0, kp);
    lemma_run_cursor(c0, kp);

    let e0 = extend_inputs(c0, inputs);
    assert forall|k: nat| 1 <= k <= kp implies !(#[trigger] run_to(c0, k).status
        is AwaitingInput) by {
        assert(!is_terminal(run_to(c0, k)));
    }
    lemma_run_extend(c0, inputs, kp);
    let e = run_to(e0, kp);
    assert(e == extend_inputs(dprev, inputs));

    // the machine pauses with its batch used up, so the appended input is
    // exactly what the extended run still has to read
    assert(dprev.in_idx == dprev.inputs.len());
    assert(rem_inputs(e) =~= inputs);

    let r0 = resume_cfg(d, inputs);
    assert(rem_inputs(r0) =~= inputs);
    assert(d.outputs + Seq::<i64>::empty() =~= d.outputs);
    assert(similar(e, r0, d.outputs));
    lemma_run_similar(e, r0, d.outputs, m);
    lemma_run_to_add(e0, kp, m);
    let rend = run_to(r0, m);
    assert(run_to(e0, (kp + m) as nat).status is Halted);
    assert(run_to(e0, (kp + m) as nat).outputs == d.outputs + rend.outputs);
}

} // verus!
