//! The execution engine: the operation set, the two runtime stacks, runtime
//! errors, and the step and run semantics.
//!
//! A program is a flat sequence of `(Operation, Location)` pairs, executed
//! under an explicit program counter starting at 0. Each step either yields
//! the next counter value, halts the machine, or fails with a runtime error.
//! The counter value `u64::MAX` is the sentinel that signals successful
//! termination.
//!
//! Pointer-sized values (`push-long` immediates and `call` targets) travel
//! over the operand stack in a fixed little-endian order, while the sized
//! print operations decode big-endian; the asymmetry is deliberate, as the
//! 8-byte order is internal addressing only and never shows in printed
//! numbers.

use crate::text::{dec_str, Location, LocationModel};
use vstd::bytes::{spec_u64_from_le_bytes, spec_u64_to_le_bytes, u64_from_le_bytes, u64_to_le_bytes};
use vstd::prelude::*;
use vstd::slice::{slice_subrange, slice_to_vec};
use vstd::string::*;

verus! {

/// What went wrong while executing an operation.
///
/// `DivisionByZero` makes a zero divisor of `div-u8` an explicit runtime
/// fault rather than leaving the behaviour to the host arithmetic.
#[derive(Debug, Clone, Copy, PartialEq, Eq, Structural)]
pub enum StackErrorType {
    InsufficientElements { expected: usize, found: usize },
    NowhereToReturn,
    NonZeroExit { code: u8 },
    DivisionByZero,
}

/// The diagnostic text of a runtime error kind.
pub open spec fn stack_error_type_str(t: StackErrorType) -> Seq<char> {
    match t {
        StackErrorType::InsufficientElements { expected, found } => {
            "Insufficient elements on the stack, expected "@ + dec_str(expected as int)
                + ", but found "@ + dec_str(found as int)
        },
        StackErrorType::NowhereToReturn => "Nowhere to return"@,
        StackErrorType::NonZeroExit { code } => "Exited with nonzero exit code "@ + dec_str(
            code as int,
        ),
        StackErrorType::DivisionByZero => "Division by zero"@,
    }
}

impl StackErrorType {
    /// Renders this error kind as its diagnostic text.
    pub fn message(&self) -> (s: String)
        ensures
            s@ == stack_error_type_str(*self),
    {
        match self {
            StackErrorType::InsufficientElements { expected, found } => {
                let mut s = String::from_str("Insufficient elements on the stack, expected ");
                let e = u64_to_dec_usize(*expected);
                s.append(e.as_str());
                s.append(", but found ");
                let f = u64_to_dec_usize(*found);
                s.append(f.as_str());
                proof {
                    assert(s@ =~= stack_error_type_str(*self));
                }
                s
            },
            StackErrorType::NowhereToReturn => String::from_str("Nowhere to return"),
            StackErrorType::NonZeroExit { code } => {
                let mut s = String::from_str("Exited with nonzero exit code ");
                let c = crate::text::u64_to_dec(*code as u64);
                s.append(c.as_str());
                proof {
                    assert(s@ =~= stack_error_type_str(*self));
                }
                s
            },
            StackErrorType::DivisionByZero => String::from_str("Division by zero"),
        }
    }
}

fn u64_to_dec_usize(n: usize) -> (s: String)
    ensures
        s@ == dec_str(n as int),
{
    crate::text::u64_to_dec(n as u64)
}

/// Mathematical model of a [`StackError`].
pub ghost struct StackErrorModel {
    pub typ: StackErrorType,
    pub location: LocationModel,
}

/// A runtime error together with the location of the operation that failed.
#[derive(Debug)]
pub struct StackError {
    pub typ: StackErrorType,
    pub location: Location,
}

impl View for StackError {
    type V = StackErrorModel;

    open spec fn view(&self) -> StackErrorModel {
        StackErrorModel { typ: self.typ, location: self.location@ }
    }
}

/// The diagnostic line of a runtime error: `location: Error: message`.
pub open spec fn stack_error_str(e: StackErrorModel) -> Seq<char> {
    crate::text::location_str(e.location) + ": Error: "@ + stack_error_type_str(e.typ)
}

impl StackError {
    /// Renders the full diagnostic line for this error.
    pub fn message(&self) -> (s: String)
        ensures
            s@ == stack_error_str(self@),
    {
        let mut s = self.location.message();
        s.append(": Error: ");
        let t = self.typ.message();
        s.append(t.as_str());
        proof {
            assert(s@ =~= stack_error_str(self@));
        }
        s
    }
}

/// One operation of the closed instruction set.
#[derive(Debug, Clone, Copy, PartialEq, Eq, Structural)]
pub enum Operation {
    /// Push one immediate byte.
    PushByte(u8),
    /// Push the 8-byte encoding of an unsigned 64-bit value (also the form a
    /// resolved label reference takes).
    PushLong(u64),
    /// Pop an 8-byte target, save the next index on the return stack, jump.
    Call,
    /// Pop the return stack and jump there.
    Return,
    AddU8,
    SubU8,
    MulU8,
    DivU8,
    /// Pop one byte and print it as a character.
    PrintAscii,
    PrintU8,
    PrintU16,
    PrintU32,
    PrintU64,
    /// Print the whole machine state.
    Debug,
    /// No effect (label declarations parse to this).
    Noop,
    /// Pop at most one byte; terminate on 0 or an empty stack, fail otherwise.
    Exit,
}

/// The runtime state: the byte-addressable operand stack and the
/// return-address stack.
#[derive(Debug)]
pub struct Stack {
    pub data: Vec<u8>,
    pub ret: Vec<u64>,
}

impl Default for Stack {
    /// Both stacks start empty.
    fn default() -> (r: Stack)
        ensures
            r.data@ == Seq::<u8>::empty(),
            r.ret@ == Seq::<u64>::empty(),
    {
        Stack { data: Vec::new(), ret: Vec::new() }
    }
}

/// Mathematical model of one [`Output`] item.
pub ghost enum OutputModel {
    Char(u8),
    Num(u64),
    Dump { data: Seq<u8>, ret: Seq<u64> },
}

/// One item of program output, as data: a character, a decimal number, or a
/// dump of the machine state. Each item stands for one printed line.
#[derive(Debug, Clone, PartialEq, Eq)]
pub enum Output {
    /// `put-char`: one byte printed as a character.
    Char(u8),
    /// `print-u8` .. `print-u64`: a decimal value.
    Num(u64),
    /// `debug`: a snapshot of both stacks.
    Dump { data: Vec<u8>, ret: Vec<u64> },
}

impl View for Output {
    type V = OutputModel;

    open spec fn view(&self) -> OutputModel {
        match self {
            Output::Char(b) => OutputModel::Char(*b),
            Output::Num(n) => OutputModel::Num(*n),
            Output::Dump { data, ret } => OutputModel::Dump { data: data@, ret: ret@ },
        }
    }
}

/// The models of a sequence of output items.
pub open spec fn outs_view(s: Seq<Output>) -> Seq<OutputModel> {
    s.map_values(|o: Output| o@)
}

/// The models of a parsed program.
pub open spec fn prog_view(v: Seq<(Operation, Location)>) -> Seq<(Operation, LocationModel)> {
    v.map_values(|p: (Operation, Location)| (p.0, p.1@))
}

/// 256 to the `k`th power: the number of byte strings of length `k`.
pub open spec fn pow256(k: nat) -> nat
    decreases k,
{
    if k == 0 {
        1
    } else {
        256 * pow256((k - 1) as nat)
    }
}

proof fn lemma_pow256_mono(a: nat, b: nat)
    requires
        a <= b,
    ensures
        pow256(a) <= pow256(b),
    decreases b,
{
    if a < b {
        lemma_pow256_mono(a, (b - 1) as nat);
    }
}

/// The big-endian value of a byte string: the last byte is least
/// significant.
pub open spec fn be_val(s: Seq<u8>) -> nat
    decreases s.len(),
{
    if s.len() == 0 {
        0
    } else {
        be_val(s.drop_last()) * 256 + (s.last() as nat)
    }
}

/// Decodes the bytes of `data` from position `from` to the end as one
/// big-endian unsigned value.
fn decode_be(data: &Vec<u8>, from: usize) -> (v: u64)
    requires
        from <= data@.len(),
        data@.len() - from <= 8,
    ensures
        v == be_val(data@.skip(from as int)),
{
    let n = data.len();
    let mut acc: u64 = 0;
    let mut i = from;
    proof {
        assert(data@.subrange(from as int, from as int) =~= Seq::<u8>::empty());
    }
    while i < n
        invariant
            from <= i <= n,
            n == data@.len(),
            n - from <= 8,
            acc == be_val(data@.subrange(from as int, i as int)),
            acc < pow256((i - from) as nat),
        decreases n - i,
    {
        proof {
            lemma_pow256_mono((i - from) as nat, 7);
            assert(pow256(7) == 0x100000000000000) by {
                reveal_with_fuel(pow256, 8);
            }
        }
        let b = data[i];
        acc = acc * 256 + (b as u64);
        proof {
            let pre = data@.subrange(from as int, i as int);
            let cur = data@.subrange(from as int, i as int + 1);
            assert(cur.drop_last() =~= pre);
            assert(cur.last() == data@[i as int]);
        }
        i = i + 1;
    }
    proof {
        assert(data@.subrange(from as int, n as int) =~= data@.skip(from as int));
    }
    acc
}

/// What one step of the machine does, as a value: continue at a new
/// program counter with new stacks and emitted output, halt, or fail.
pub ghost enum StepModel {
    Next { idx: int, data: Seq<u8>, ret: Seq<u64>, out: Seq<OutputModel> },
    Halt { data: Seq<u8>, ret: Seq<u64> },
    Fail { err: StackErrorType, data: Seq<u8>, ret: Seq<u64> },
}

/// The result byte of a binary arithmetic operation: the deeper byte `a` is
/// the left operand, the top byte `b` the right one; addition, subtraction
/// and multiplication wrap modulo 256.
pub open spec fn binop_val(op: Operation, a: u8, b: u8) -> u8 {
    match op {
        Operation::AddU8 => ((a as int + b as int) % 256) as u8,
        Operation::SubU8 => ((a as int - b as int + 256) % 256) as u8,
        Operation::MulU8 => ((a as int * b as int) % 256) as u8,
        Operation::DivU8 => (a as int / b as int) as u8,
        _ => 0,
    }
}

/// The step of a sized print: pop `w` big-endian bytes and emit their value.
pub open spec fn print_step(w: int, data: Seq<u8>, ret: Seq<u64>, idx: int) -> StepModel {
    if data.len() < w {
        StepModel::Fail {
            err: StackErrorType::InsufficientElements {
                expected: w as usize,
                found: data.len() as usize,
            },
            data,
            ret,
        }
    } else {
        StepModel::Next {
            idx: idx + 1,
            data: data.take(data.len() - w),
            ret,
            out: seq![OutputModel::Num(be_val(data.skip(data.len() - w)) as u64)],
        }
    }
}

/// The byte width a sized print operation pops.
pub open spec fn print_width(op: Operation) -> int {
    match op {
        Operation::PrintU8 => 1,
        Operation::PrintU16 => 2,
        Operation::PrintU32 => 4,
        Operation::PrintU64 => 8,
        _ => 0,
    }
}

/// The semantics of one operation on the machine state at counter `idx`.
pub open spec fn spec_step(op: Operation, data: Seq<u8>, ret: Seq<u64>, idx: int) -> StepModel {
    match op {
        Operation::PushByte(b) => StepModel::Next {
            idx: idx + 1,
            data: data.push(b),
            ret,
            out: Seq::empty(),
        },
        Operation::PushLong(v) => StepModel::Next {
            idx: idx + 1,
            data: data + spec_u64_to_le_bytes(v),
            ret,
            out: Seq::empty(),
        },
        Operation::Call => {
            if data.len() < 8 {
                StepModel::Fail {
                    err: StackErrorType::InsufficientElements {
                        expected: 8,
                        found: data.len() as usize,
                    },
                    data,
                    ret,
                }
            } else {
                StepModel::Next {
                    idx: spec_u64_from_le_bytes(data.skip(data.len() - 8)) as int,
                    data: data.take(data.len() - 8),
                    ret: ret.push((idx + 1) as u64),
                    out: Seq::empty(),
                }
            }
        },
        Operation::Return => {
            if ret.len() == 0 {
                StepModel::Fail { err: StackErrorType::NowhereToReturn, data, ret }
            } else {
                StepModel::Next { idx: ret.last() as int, data, ret: ret.drop_last(), out: Seq::empty() }
            }
        },
        Operation::AddU8 | Operation::SubU8 | Operation::MulU8 | Operation::DivU8 => {
            if data.len() < 2 {
                StepModel::Fail {
                    err: StackErrorType::InsufficientElements {
                        expected: 2,
                        found: data.len() as usize,
                    },
                    data,
                    ret,
                }
            } else if op is DivU8 && data.last() == 0 {
                StepModel::Fail { err: StackErrorType::DivisionByZero, data, ret }
            } else {
                StepModel::Next {
                    idx: idx + 1,
                    data: data.take(data.len() - 2).push(
                        binop_val(op, data[data.len() - 2], data.last()),
                    ),
                    ret,
                    out: Seq::empty(),
                }
            }
        },
        Operation::PrintAscii => {
            if data.len() == 0 {
                StepModel::Fail {
                    err: StackErrorType::InsufficientElements { expected: 1, found: 0 },
                    data,
                    ret,
                }
            } else {
                StepModel::Next {
                    idx: idx + 1,
                    data: data.drop_last(),
                    ret,
                    out: seq![OutputModel::Char(data.last())],
                }
            }
        },
        Operation::PrintU8 => print_step(1, data, ret, idx),
        Operation::PrintU16 => print_step(2, data, ret, idx),
        Operation::PrintU32 => print_step(4, data, ret, idx),
        Operation::PrintU64 => print_step(8, data, ret, idx),
        Operation::Debug => StepModel::Next {
            idx: idx + 1,
            data,
            ret,
            out: seq![OutputModel::Dump { data, ret }],
        },
        Operation::Noop => StepModel::Next { idx: idx + 1, data, ret, out: Seq::empty() },
        Operation::Exit => {
            if data.len() == 0 {
                StepModel::Halt { data, ret }
            } else if data.last() == 0 {
                StepModel::Halt { data: data.drop_last(), ret }
            } else {
                StepModel::Fail {
                    err: StackErrorType::NonZeroExit { code: data.last() },
                    data: data.drop_last(),
                    ret,
                }
            }
        },
    }
}

/// Whether the returned counter matches the step: the next index on
/// `Next`, the sentinel on `Halt`, and the right error at the right
/// location on `Fail`.
pub open spec fn step_result_ok(m: StepModel, r: Result<u64, StackError>, loc: LocationModel) -> bool {
    match m {
        StepModel::Next { idx, .. } => r matches Ok(n) && n as int == idx,
        StepModel::Halt { .. } => r matches Ok(n) && n == u64::MAX,
        StepModel::Fail { err, .. } => r matches Err(e) && e.typ == err && e.location@ == loc,
    }
}

/// Whether the stacks after a step match the step's model.
pub open spec fn step_stacks(m: StepModel, post: Stack) -> bool {
    match m {
        StepModel::Next { data, ret, .. } => post.data@ == data && post.ret@ == ret,
        StepModel::Halt { data, ret } => post.data@ == data && post.ret@ == ret,
        StepModel::Fail { data, ret, .. } => post.data@ == data && post.ret@ == ret,
    }
}

/// What a step emits: output only on `Next`.
pub open spec fn step_out(m: StepModel) -> Seq<OutputModel> {
    match m {
        StepModel::Next { out, .. } => out,
        _ => Seq::empty(),
    }
}

fn push_out(out: &mut Vec<Output>, o: Output)
    ensures
        outs_view(final(out)@) == outs_view(old(out)@) + seq![o@],
{
    let ghost old_out = out@;
    out.push(o);
    proof {
        assert(out@ == old_out.push(out@.last()));
        assert(outs_view(out@).len() == out@.len());
        assert(outs_view(old_out).len() == old_out.len());
        assert forall|k: int| 0 <= k < out@.len() implies outs_view(out@)[k] == (outs_view(old_out)
            + seq![out@.last()@])[k] by {
            assert(outs_view(out@)[k] == out@[k]@);
            if k < out@.len() - 1 {
                assert(out@[k] == old_out[k]);
                assert(outs_view(old_out)[k] == old_out[k]@);
            }
        }
        assert(outs_view(out@) =~= outs_view(old_out) + seq![out@.last()@]);
    }
}

fn exec_binop(op: &Operation, stack: &mut Stack, idx: u64, location: &Location) -> (r: Result<
    u64,
    StackError,
>)
    requires
        idx < u64::MAX,
        *op is AddU8 || *op is SubU8 || *op is MulU8 || *op is DivU8,
    ensures
        ({
            let m = spec_step(*op, old(stack).data@, old(stack).ret@, idx as int);
            step_result_ok(m, r, location@) && step_stacks(m, *final(stack)) && step_out(m)
                == Seq::<OutputModel>::empty()
        }),
{
    let n = stack.data.len();
    if n < 2 {
        return Err(
            StackError {
                typ: StackErrorType::InsufficientElements { expected: 2, found: n },
                location: location.dup(),
            },
        );
    }
    let b = stack.data[n - 1];
    let a = stack.data[n - 2];
    let res: u8 = match *op {
        Operation::AddU8 => (((a as u16) + (b as u16)) % 256) as u8,
        Operation::SubU8 => ((((a as u16) + 256) - (b as u16)) % 256) as u8,
        Operation::MulU8 => {
            proof {
                assert((a as int) * (b as int) <= 255 * 255) by (nonlinear_arith)
                    requires
                        a <= 255,
                        b <= 255,
                ;
                assert((a as int) * (b as int) >= 0) by (nonlinear_arith)
                    requires
                        0 <= a,
                        0 <= b,
                ;
            }
            (((a as u32) * (b as u32)) % 256) as u8
        },
        Operation::DivU8 => {
            if b == 0 {
                return Err(
                    StackError { typ: StackErrorType::DivisionByZero, location: location.dup() },
                );
            }
            a / b
        },
        _ => {
            proof {
                assert(false);
            }
            0
        },
    };
    let ghost pre = stack.data@;
    stack.data.truncate(n - 2);
    stack.data.push(res);
    proof {
        assert(pre.subrange(0, n - 2) =~= pre.take(n - 2));
        assert(res == binop_val(*op, pre[n - 2], pre[n - 1]));
    }
    Ok(idx + 1)
}

fn exec_print(
    op: &Operation,
    width: usize,
    stack: &mut Stack,
    idx: u64,
    location: &Location,
    out: &mut Vec<Output>,
) -> (r: Result<u64, StackError>)
    requires
        idx < u64::MAX,
        1 <= width <= 8,
        print_width(*op) == width as int,
        *op is PrintU8 || *op is PrintU16 || *op is PrintU32 || *op is PrintU64,
    ensures
        ({
            let m = spec_step(*op, old(stack).data@, old(stack).ret@, idx as int);
            step_result_ok(m, r, location@) && step_stacks(m, *final(stack)) && outs_view(
                final(out)@,
            ) == outs_view(old(out)@) + step_out(m)
        }),
{
    let n = stack.data.len();
    if n < width {
        proof {
            assert(outs_view(out@) + Seq::<OutputModel>::empty() =~= outs_view(out@));
        }
        return Err(
            StackError {
                typ: StackErrorType::InsufficientElements { expected: width, found: n },
                location: location.dup(),
            },
        );
    }
    let v = decode_be(&stack.data, n - width);
    stack.data.truncate(n - width);
    push_out(out, Output::Num(v));
    proof {
        assert(old(stack).data@.subrange(0, n - width) =~= old(stack).data@.take(n - width));
        assert(OutputModel::Num(v) == OutputModel::Num(
            be_val(old(stack).data@.skip(n - width)) as u64,
        ));
    }
    Ok(idx + 1)
}

/// A machine state mid-run: the two stacks, the program counter, and the
/// output emitted so far.
pub ghost struct MState {
    pub data: Seq<u8>,
    pub ret: Seq<u64>,
    pub idx: int,
    pub out: Seq<OutputModel>,
}

/// The state a run starts in: both stacks empty, counter 0, nothing
/// emitted.
pub open spec fn init_state() -> MState {
    MState { data: Seq::empty(), ret: Seq::empty(), idx: 0, out: Seq::empty() }
}

/// The outcome of running a program for a bounded number of steps: either
/// still running in some state, or finished with the output and the
/// result.
pub ghost enum RunModel {
    Running(MState),
    Done { out: Seq<OutputModel>, res: Result<(), StackErrorModel> },
}

/// Runs `prog` from `st` for at most `fuel` steps. The run is done when
/// the counter leaves the program (successful termination, including the
/// sentinel), when `exit` halts, or when a step fails.
pub open spec fn spec_run(
    prog: Seq<(Operation, LocationModel)>,
    st: MState,
    fuel: nat,
) -> RunModel
    decreases fuel,
{
    if !(0 <= st.idx < prog.len()) {
        RunModel::Done { out: st.out, res: Ok(()) }
    } else if fuel == 0 {
        RunModel::Running(st)
    } else {
        match spec_step(prog[st.idx].0, st.data, st.ret, st.idx) {
            StepModel::Next { idx, data, ret, out } => spec_run(
                prog,
                MState { data, ret, idx, out: st.out + out },
                (fuel - 1) as nat,
            ),
            StepModel::Halt { .. } => RunModel::Done { out: st.out, res: Ok(()) },
            StepModel::Fail { err, .. } => RunModel::Done {
                out: st.out,
                res: Err(StackErrorModel { typ: err, location: prog[st.idx].1 }),
            },
        }
    }
}

/// Runs that are still going compose: spending `f` steps and then `g` more
/// is the same as spending `f + g` at once.
proof fn lemma_run_compose(prog: Seq<(Operation, LocationModel)>, st: MState, f: nat, g: nat)
    ensures
        spec_run(prog, st, f) matches RunModel::Running(mid) ==> spec_run(prog, st, (f + g) as nat)
            == spec_run(prog, mid, g),
    decreases f,
{
    if spec_run(prog, st, f) matches RunModel::Running(mid) {
        if 0 <= st.idx < prog.len() && f > 0 {
            match spec_step(prog[st.idx].0, st.data, st.ret, st.idx) {
                StepModel::Next { idx, data, ret, out } => {
                    let st2 = MState { data, ret, idx, out: st.out + out };
                    lemma_run_compose(prog, st2, (f - 1) as nat, g);
                },
                StepModel::Halt { .. } => {},
                StepModel::Fail { .. } => {},
            }
        }
    }
}

/// A run that has finished keeps its outcome under any additional fuel.
proof fn lemma_run_done_stable(prog: Seq<(Operation, LocationModel)>, st: MState, f: nat, g: nat)
    ensures
        spec_run(prog, st, f) matches RunModel::Done { out, res } ==> spec_run(
            prog,
            st,
            (f + g) as nat,
        ) == spec_run(prog, st, f),
    decreases f,
{
    if spec_run(prog, st, f) matches RunModel::Done { .. } {
        if 0 <= st.idx < prog.len() && f > 0 {
            match spec_step(prog[st.idx].0, st.data, st.ret, st.idx) {
                StepModel::Next { idx, data, ret, out } => {
                    let st2 = MState { data, ret, idx, out: st.out + out };
                    lemma_run_done_stable(prog, st2, (f - 1) as nat, g);
                },
                StepModel::Halt { .. } => {},
                StepModel::Fail { .. } => {},
            }
        }
    }
}

/// How a bounded run ended.
#[derive(Debug)]
pub enum RunResult {
    /// The program terminated successfully.
    Success,
    /// A step failed with this runtime error.
    Failed(StackError),
    /// The step budget ran out before the program ended.
    OutOfFuel,
}

/// Executes a parsed program from the initial state for at most `fuel`
/// steps, collecting all output. The result is exactly what the step
/// semantics [`spec_run`] gives for that budget.
pub fn run(program: &Vec<(Operation, Location)>, fuel: u64) -> (r: (Vec<Output>, RunResult))
    ensures
        match spec_run(prog_view(program@), init_state(), fuel as nat) {
            RunModel::Done { out, res } => outs_view(r.0@) == out && match res {
                Ok(()) => r.1 is Success,
                Err(em) => r.1 matches RunResult::Failed(e) && e@ == em,
            },
            RunModel::Running(st) => r.1 is OutOfFuel && outs_view(r.0@) == st.out,
        },
{
    let ghost prog = prog_view(program@);
    let mut stack = Stack::default();
    let mut out: Vec<Output> = Vec::new();
    let mut idx: u64 = 0;
    let plen = program.len();
    let mut remaining = fuel;
    proof {
        assert(outs_view(out@) =~= Seq::<OutputModel>::empty());
        assert(prog.len() == program@.len());
    }
    while idx < (plen as u64) && remaining > 0
        invariant
            prog == prog_view(program@),
            plen == program@.len(),
            prog.len() == program@.len(),
            remaining <= fuel,
            spec_run(prog, init_state(), (fuel - remaining) as nat) == (if 0 <= (idx as int)
                < prog.len() {
                RunModel::Running(
                    MState {
                        data: stack.data@,
                        ret: stack.ret@,
                        idx: idx as int,
                        out: outs_view(out@),
                    },
                )
            } else {
                RunModel::Done { out: outs_view(out@), res: Ok(()) }
            }),
        decreases remaining,
    {
        let i = idx as usize;
        let o = program[i].0;
        let ghost consumed = (fuel - remaining) as nat;
        let ghost pre = MState {
            data: stack.data@,
            ret: stack.ret@,
            idx: idx as int,
            out: outs_view(out@),
        };
        let ghost m = spec_step(o, stack.data@, stack.ret@, idx as int);
        proof {
            assert(prog[idx as int] == (program@[i as int].0, program@[i as int].1@));
            lemma_run_compose(prog, init_state(), consumed, 1);
            assert(spec_run(prog, init_state(), (consumed + 1) as nat) == spec_run(prog, pre, 1));
            reveal_with_fuel(spec_run, 3);
        }
        let res = o.op(&mut stack, idx, &program[i].1, &mut out);
        match res {
            Ok(nxt) => {
                proof {
                    match m {
                        StepModel::Next { idx: mi, data, ret, out: mo } => {
                            assert(spec_run(prog, pre, 1) == spec_run(
                                prog,
                                MState { data, ret, idx: mi, out: pre.out + mo },
                                0,
                            ));
                            assert(outs_view(out@) == pre.out + mo);
                        },
                        StepModel::Halt { .. } => {
                            assert(nxt == u64::MAX);
                            assert(!(0 <= (nxt as int) < prog.len()));
                        },
                        StepModel::Fail { .. } => {
                            assert(false);
                        },
                    }
                }
                idx = nxt;
                remaining = remaining - 1;
            },
            Err(e) => {
                proof {
                    assert(m matches StepModel::Fail { .. });
                    assert(e@ == StackErrorModel {
                        typ: m->Fail_err,
                        location: prog[idx as int].1,
                    });
                    assert(spec_run(prog, init_state(), (consumed + 1) as nat) == (RunModel::Done {
                        out: outs_view(out@),
                        res: Err(e@),
                    }));
                    lemma_run_done_stable(
                        prog,
                        init_state(),
                        (consumed + 1) as nat,
                        (remaining - 1) as nat,
                    );
                    assert(spec_run(prog, init_state(), fuel as nat) == (RunModel::Done {
                        out: outs_view(out@),
                        res: Err(e@),
                    }));
                }
                return (out, RunResult::Failed(e));
            },
        }
    }
    if idx < (plen as u64) {
        return (out, RunResult::OutOfFuel);
    }
    proof {
        lemma_run_done_stable(prog, init_state(), (fuel - remaining) as nat, remaining as nat);
        assert(spec_run(prog, init_state(), fuel as nat) == (RunModel::Done {
            out: outs_view(out@),
            res: Ok(()),
        }));
    }
    (out, RunResult::Success)
}

impl Operation {
    /// Executes this operation on the machine state at counter `idx`.
    /// Returns the next counter (the sentinel `u64::MAX` on successful
    /// termination), or the runtime error carrying `location`; what the
    /// operation prints is appended to `out`.
    pub fn op(&self, stack: &mut Stack, idx: u64, location: &Location, out: &mut Vec<Output>) -> (r:
        Result<u64, StackError>)
        requires
            idx < u64::MAX,
        ensures
            ({
                let m = spec_step(*self, old(stack).data@, old(stack).ret@, idx as int);
                step_result_ok(m, r, location@) && step_stacks(m, *final(stack)) && outs_view(
                    final(out)@,
                ) == outs_view(old(out)@) + step_out(m)
            }),
    {
        let ghost m = spec_step(*self, stack.data@, stack.ret@, idx as int);
        match *self {
            Operation::PushByte(bv) => {
                stack.data.push(bv);
                proof {
                    assert(outs_view(out@) + step_out(m) =~= outs_view(out@));
                }
                Ok(idx + 1)
            },
            Operation::PushLong(v) => {
                let mut bytes = u64_to_le_bytes(v);
                stack.data.append(&mut bytes);
                proof {
                    assert(outs_view(out@) + step_out(m) =~= outs_view(out@));
                }
                Ok(idx + 1)
            },
            Operation::Call => {
                let n = stack.data.len();
                if n < 8 {
                    proof {
                        assert(outs_view(out@) + step_out(m) =~= outs_view(out@));
                    }
                    return Err(
                        StackError {
                            typ: StackErrorType::InsufficientElements { expected: 8, found: n },
                            location: location.dup(),
                        },
                    );
                }
                let target = u64_from_le_bytes(slice_subrange(stack.data.as_slice(), n - 8, n));
                stack.data.truncate(n - 8);
                stack.ret.push(idx + 1);
                proof {
                    assert(old(stack).data@.subrange(n - 8, n as int) =~= old(stack).data@.skip(
                        n - 8,
                    ));
                    assert(old(stack).data@.subrange(0, n - 8) =~= old(stack).data@.take(n - 8));
                    assert(outs_view(out@) + step_out(m) =~= outs_view(out@));
                }
                Ok(target)
            },
            Operation::Return => {
                match stack.ret.pop() {
                    Some(t) => {
                        proof {
                            assert(old(stack).ret@.subrange(0, old(stack).ret@.len() - 1)
                                =~= old(stack).ret@.drop_last());
                            assert(outs_view(out@) + step_out(m) =~= outs_view(out@));
                        }
                        Ok(t)
                    },
                    None => {
                        proof {
                            assert(outs_view(out@) + step_out(m) =~= outs_view(out@));
                        }
                        Err(
                            StackError {
                                typ: StackErrorType::NowhereToReturn,
                                location: location.dup(),
                            },
                        )
                    },
                }
            },
            Operation::AddU8 | Operation::SubU8 | Operation::MulU8 | Operation::DivU8 => {
                let r = exec_binop(self, stack, idx, location);
                proof {
                    assert(outs_view(out@) + step_out(m) =~= outs_view(out@));
                }
                r
            },
            Operation::PrintAscii => {
                match stack.data.pop() {
                    Some(c) => {
                        proof {
                            assert(old(stack).data@.subrange(0, old(stack).data@.len() - 1)
                                =~= old(stack).data@.drop_last());
                        }
                        push_out(out, Output::Char(c));
                        Ok(idx + 1)
                    },
                    None => {
                        proof {
                            assert(outs_view(out@) + step_out(m) =~= outs_view(out@));
                        }
                        Err(
                            StackError {
                                typ: StackErrorType::InsufficientElements { expected: 1, found: 0 },
                                location: location.dup(),
                            },
                        )
                    },
                }
            },
            Operation::PrintU8 => exec_print(self, 1, stack, idx, location, out),
            Operation::PrintU16 => exec_print(self, 2, stack, idx, location, out),
            Operation::PrintU32 => exec_print(self, 4, stack, idx, location, out),
            Operation::PrintU64 => exec_print(self, 8, stack, idx, location, out),
            Operation::Debug => {
                let d = slice_to_vec(stack.data.as_slice());
                let rs = slice_to_vec(stack.ret.as_slice());
                push_out(out, Output::Dump { data: d, ret: rs });
                Ok(idx + 1)
            },
            Operation::Noop => {
                proof {
                    assert(outs_view(out@) + step_out(m) =~= outs_view(out@));
                }
                Ok(idx + 1)
            },
            Operation::Exit => {
                match stack.data.pop() {
                    None => {
                        proof {
                            assert(outs_view(out@) + step_out(m) =~= outs_view(out@));
                        }
                        Ok(u64::MAX)
                    },
                    Some(0) => {
                        proof {
                            assert(old(stack).data@.subrange(0, old(stack).data@.len() - 1)
                                =~= old(stack).data@.drop_last());
                            assert(outs_view(out@) + step_out(m) =~= outs_view(out@));
                        }
                        Ok(u64::MAX)
                    },
                    Some(code) => {
                        proof {
                            assert(old(stack).data@.subrange(0, old(stack).data@.len() - 1)
                                =~= old(stack).data@.drop_last());
                            assert(outs_view(out@) + step_out(m) =~= outs_view(out@));
                        }
                        Err(
                            StackError {
                                typ: StackErrorType::NonZeroExit { code },
                                location: location.dup(),
                            },
                        )
                    },
                }
            },
        }
    }
}

} // verus!
