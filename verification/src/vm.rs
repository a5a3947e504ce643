//! The virtual machine: runs the code of a chunk on a stack of values.
//!
//! The machine negates, compares and tests numbers itself. It does no
//! arithmetic: at `Add`, `Subtract`, `Multiply` and `Divide` on two numbers
//! it waits, and a host computes the result from the two operands.
//! `interpret` and `run_with` take the host as a function and call it;
//! `run`, `pending`, `supply` and `resume` leave the call to their caller,
//! and `step` runs one instruction at a time.
use vstd::prelude::*;
use vstd::std_specs::cmp::PartialEqSpec;
use vstd::string::StringExecFns;
use crate::chunk::{
    Chunk, ChunkView, OpCode, Shape, is_program, lemma_walk_loads_on, opcode_of, walk,
};
use crate::compiler::{Compiler, Diagnostic, DiagnosticView, Ice, compilation, initial};
use crate::scanner::source_bytes;
use crate::text::{decimal, decimal_text};
use crate::value::{Value, bits_less, bits_negated, negated, number_lt, values_equal};

verus! {

/// Why a source gave no value: its compilation reported errors, or its run
/// ended with a runtime error.
#[derive(Debug, PartialEq, Eq, Clone, Copy, Structural)]
pub enum InterpretError {
    CompileError,
    RuntimeError,
}

/// The arithmetic that a machine waits for.
#[derive(Debug, PartialEq, Eq, Clone, Copy, Structural)]
pub struct Arithmetic {
    /// `Add`, `Subtract`, `Multiply` or `Divide`.
    pub op: OpCode,
    /// The bit pattern of the left operand.
    pub left: u64,
    /// The bit pattern of the right operand.
    pub right: u64,
}

/// What a runtime error reports.
pub struct RuntimeReportView {
    pub message: Seq<char>,
    pub line: u32,
}

/// The report of a runtime error: its message, and the source line of the
/// instruction that failed.
#[derive(Debug)]
pub struct RuntimeReport {
    pub message: String,
    pub line: u32,
}

impl View for RuntimeReport {
    type V = RuntimeReportView;

    open spec fn view(&self) -> RuntimeReportView {
        RuntimeReportView { message: self.message@, line: self.line }
    }
}

/// The line of text that tells where a runtime error was: `[line 3] in
/// script`.
pub open spec fn script_line_text(line: u32) -> Seq<char> {
    "[line "@ + decimal_text(line as nat) + "] in script"@
}

impl RuntimeReport {
    /// The line of text that tells where the error was; it follows the
    /// message.
    pub fn render_line(&self) -> (text: String)
        ensures
            text@ == script_line_text(self.line),
    {
        let mut text = "[line ".to_owned();
        text.append(decimal(self.line as usize).as_str());
        text.append("] in script");
        text
    }
}

// ---------------------------------------------------------------------------
// What running means
// ---------------------------------------------------------------------------

/// Where a machine stands in its chunk: the offset of the next instruction,
/// and the stack.
pub struct Machine {
    pub ip: int,
    pub stack: Seq<Value>,
}

/// What one instruction does.
pub enum Effect {
    /// The machine goes on in this state.
    Next(Machine),
    /// `Return`: the program ends with this value.
    Done(Value),
    /// A runtime error, reported with the line of the instruction.
    Failed(RuntimeReportView),
    /// Arithmetic on two numbers: the machine waits for the result.
    Waiting(Arithmetic),
    /// The chunk is no program: the machine cannot go on.
    Stuck,
}

impl Machine {
    /// The value on top of the stack.
    pub open spec fn top(self) -> Value {
        self.stack[self.stack.len() - 1]
    }

    /// The value below the top of the stack.
    pub open spec fn below(self) -> Value {
        self.stack[self.stack.len() - 2]
    }

    /// The machine behind an instruction of `width` bytes that has pushed
    /// `value`.
    pub open spec fn pushed(self, width: int, value: Value) -> Machine {
        Machine { ip: self.ip + width, stack: self.stack.push(value) }
    }

    /// The machine behind an instruction of one byte that has put `value`
    /// in the place of the top of the stack.
    pub open spec fn replaced(self, value: Value) -> Machine {
        Machine { ip: self.ip + 1, stack: self.stack.drop_last().push(value) }
    }

    /// The machine behind an instruction of one byte that has taken two
    /// values and pushed `value`.
    pub open spec fn combined(self, value: Value) -> Machine {
        Machine { ip: self.ip + 1, stack: self.stack.drop_last().drop_last().push(value) }
    }
}

/// The report of a runtime error at the instruction at `ip`.
pub open spec fn failure(chunk: ChunkView, ip: int, message: Seq<char>) -> Effect {
    Effect::Failed(RuntimeReportView { message, line: chunk.lines[ip] })
}

/// What the instruction at `m.ip` does to the machine `m`.
pub open spec fn effect(chunk: ChunkView, m: Machine) -> Effect {
    if m.ip < 0 || m.ip >= chunk.code.len() || m.ip >= chunk.lines.len() {
        Effect::Stuck
    } else {
        match opcode_of(chunk.code[m.ip]) {
            None => Effect::Stuck,
            Some(OpCode::Return) => if m.stack.len() >= 1 {
                Effect::Done(m.top())
            } else {
                Effect::Stuck
            },
            Some(OpCode::Constant) => if m.ip + 1 < chunk.code.len() && chunk.code[m.ip + 1]
                < chunk.constants.len() {
                Effect::Next(m.pushed(2, chunk.constants[chunk.code[m.ip + 1] as int]))
            } else {
                Effect::Stuck
            },
            Some(OpCode::Nil) => Effect::Next(m.pushed(1, Value::Nil)),
            Some(OpCode::True) => Effect::Next(m.pushed(1, Value::Bool(true))),
            Some(OpCode::False) => Effect::Next(m.pushed(1, Value::Bool(false))),
            Some(OpCode::Negate) => if m.stack.len() < 1 {
                Effect::Stuck
            } else {
                match m.top() {
                    Value::Number(n) => Effect::Next(m.replaced(Value::Number(negated(n)))),
                    _ => failure(chunk, m.ip, "Operand must be a number."@),
                }
            },
            Some(OpCode::Not) => if m.stack.len() < 1 {
                Effect::Stuck
            } else {
                Effect::Next(m.replaced(Value::Bool(m.top().spec_is_falsey())))
            },
            Some(OpCode::Equal) => if m.stack.len() < 2 {
                Effect::Stuck
            } else {
                Effect::Next(m.combined(Value::Bool(values_equal(m.below(), m.top()))))
            },
            Some(op) => if m.stack.len() < 2 {
                Effect::Stuck
            } else {
                match (m.below(), m.top()) {
                    (Value::Number(a), Value::Number(b)) => if op == OpCode::Greater {
                        Effect::Next(m.combined(Value::Bool(number_lt(b, a))))
                    } else if op == OpCode::Less {
                        Effect::Next(m.combined(Value::Bool(number_lt(a, b))))
                    } else {
                        Effect::Waiting(Arithmetic { op, left: a, right: b })
                    },
                    _ => failure(chunk, m.ip, "Operands must be numbers."@),
                }
            },
        }
    }
}

/// Runs the machine from `m` until an instruction does something else than
/// to go on: tells what that is, and where the machine stands then.
pub open spec fn run_from(chunk: ChunkView, m: Machine) -> (Effect, Machine)
    decreases chunk.code.len() - m.ip,
{
    match effect(chunk, m) {
        Effect::Next(next) => run_from(chunk, next),
        other => (other, m),
    }
}

/// The machine that goes on from `m`, where it waited, with the result of
/// the arithmetic.
pub open spec fn resumed(m: Machine, result: u64) -> Machine {
    m.combined(Value::Number(result))
}

/// Whether the machine can run from offset `ip` with `depth` values on the
/// stack, to a `Return` or a runtime error, without ever being stuck.
pub open spec fn safe_from(chunk: ChunkView, ip: int, depth: nat) -> bool
    decreases chunk.code.len() - ip,
{
    &&& 0 <= ip < chunk.code.len()
    &&& chunk.code.len() == chunk.lines.len()
    &&& match opcode_of(chunk.code[ip]) {
        None => false,
        Some(OpCode::Return) => depth >= 1,
        Some(OpCode::Constant) => ip + 1 < chunk.code.len() && chunk.code[ip + 1]
            < chunk.constants.len() && safe_from(chunk, ip + 2, depth + 1),
        Some(OpCode::Nil) | Some(OpCode::True) | Some(OpCode::False) => safe_from(
            chunk,
            ip + 1,
            depth + 1,
        ),
        Some(OpCode::Negate) | Some(OpCode::Not) => depth >= 1 && safe_from(chunk, ip + 1, depth),
        Some(_) => depth >= 2 && safe_from(chunk, ip + 1, (depth - 1) as nat),
    }
}

/// A walk through the code of a program, from wherever it has come to, is a
/// safe run of the machine.
proof fn lemma_walk_is_safe(chunk: ChunkView, ip: int, depth: nat, loaded: nat)
    requires
        chunk.code.len() > 0,
        chunk.code.len() == chunk.lines.len(),
        chunk.code.last() == OpCode::Return.spec_byte(),
        0 <= ip < chunk.code.len(),
        walk(chunk.code.drop_last(), ip, depth, loaded) == Some(
            Shape { depth: 1, loaded: chunk.constants.len() },
        ),
    ensures
        safe_from(chunk, ip, depth),
    decreases chunk.code.len() - ip,
{
    let body = chunk.code.drop_last();
    if ip < body.len() {
        assert(body[ip] == chunk.code[ip]);
        match opcode_of(body[ip]) {
            None => {},
            Some(OpCode::Return) => {},
            Some(OpCode::Constant) => {
                assert(body[ip + 1] == chunk.code[ip + 1]);
                lemma_walk_loads_on(body, ip + 2, depth + 1, loaded + 1);
                lemma_walk_is_safe(chunk, ip + 2, depth + 1, loaded + 1);
            },
            Some(OpCode::Nil) | Some(OpCode::True) | Some(OpCode::False) => {
                lemma_walk_is_safe(chunk, ip + 1, depth + 1, loaded);
            },
            Some(OpCode::Negate) | Some(OpCode::Not) => {
                lemma_walk_is_safe(chunk, ip + 1, depth, loaded);
            },
            Some(_) => {
                lemma_walk_is_safe(chunk, ip + 1, (depth - 1) as nat, loaded);
            },
        }
    }
}

/// A program runs safely from its start, on an empty stack.
pub proof fn lemma_program_is_safe(chunk: ChunkView)
    requires
        is_program(chunk),
    ensures
        safe_from(chunk, 0, 0),
{
    lemma_walk_is_safe(chunk, 0, 0, 0);
}

/// `Equal` takes two values and pushes whether they are equal as values
/// are: by `==` on `Value`.
pub proof fn lemma_equal_is_equality_of_values(chunk: ChunkView, m: Machine)
    requires
        0 <= m.ip < chunk.code.len(),
        chunk.code.len() == chunk.lines.len(),
        opcode_of(chunk.code[m.ip]) == Some(OpCode::Equal),
        m.stack.len() >= 2,
    ensures
        effect(chunk, m) == Effect::Next(
            Machine {
                ip: m.ip + 1,
                stack: m.stack.drop_last().drop_last().push(
                    Value::Bool(m.below().eq_spec(&m.top())),
                ),
            },
        ),
{
}

/// A run that starts where the machine can run safely ends inside the code,
/// not before its start, and on something else than being stuck: the
/// program's value, a runtime error, or arithmetic to wait for, behind which
/// the machine can run safely again.
pub proof fn lemma_run_goes_forward(chunk: ChunkView, m: Machine)
    requires
        safe_from(chunk, m.ip, m.stack.len()),
    ensures
        m.ip <= run_from(chunk, m).1.ip < chunk.code.len(),
        safe_from(chunk, run_from(chunk, m).1.ip, run_from(chunk, m).1.stack.len()),
        run_from(chunk, m).0 is Done || run_from(chunk, m).0 is Failed || run_from(chunk, m).0
            is Waiting,
        effect(chunk, run_from(chunk, m).1) == run_from(chunk, m).0,
    decreases chunk.code.len() - m.ip,
{
    lemma_safe_step(chunk, m);
    match effect(chunk, m) {
        Effect::Next(next) => {
            lemma_run_goes_forward(chunk, next);
        },
        _ => {},
    }
}

/// The machine is never stuck where it can run safely, and what it goes on
/// to is safe again.
pub proof fn lemma_safe_step(chunk: ChunkView, m: Machine)
    requires
        safe_from(chunk, m.ip, m.stack.len()),
    ensures
        effect(chunk, m) != Effect::Stuck,
        match effect(chunk, m) {
            Effect::Next(next) => m.ip < next.ip && safe_from(chunk, next.ip, next.stack.len()),
            Effect::Waiting(_) => safe_from(chunk, m.ip + 1, (m.stack.len() - 1) as nat),
            _ => true,
        },
{
}

// ---------------------------------------------------------------------------
// The machine
// ---------------------------------------------------------------------------

/// What a machine tells after one instruction.
#[derive(Debug, Clone, Copy)]
pub enum Signal {
    /// The machine can go on.
    Continue,
    /// The program has ended with this value.
    Finished(Value),
    /// A runtime error has ended the run: the report is with the machine.
    Failed,
    /// The machine waits for the result of `pending`.
    Waiting,
}

/// What a machine holds.
pub struct VMView {
    pub chunk: ChunkView,
    pub machine: Machine,
    /// The errors that the last compilation reported.
    pub diagnostics: Seq<DiagnosticView>,
    /// The runtime error of the last run, if it ended with one.
    pub report: Option<RuntimeReportView>,
}

/// The virtual machine: a chunk, the offset of the next instruction in it,
/// and the stack.
pub struct VM {
    chunk: Chunk,
    ip: usize,
    stack: Vec<Value>,
    diagnostics: Vec<Diagnostic>,
    report: Option<RuntimeReport>,
}

impl View for VM {
    type V = VMView;

    closed spec fn view(&self) -> VMView {
        VMView {
            chunk: self.chunk@,
            machine: Machine { ip: self.ip as int, stack: self.stack@ },
            diagnostics: Seq::new(self.diagnostics@.len(), |i: int| self.diagnostics@[i]@),
            report: match self.report {
                Some(report) => Some(report@),
                None => None,
            },
        }
    }
}

/// What a run from `m` gives to the caller of the machine: the value of the
/// program, a runtime error, or nothing yet where the machine waits.
pub open spec fn outcome(chunk: ChunkView, m: Machine) -> Result<Option<Value>, InterpretError> {
    match run_from(chunk, m).0 {
        Effect::Done(value) => Ok(Some(value)),
        Effect::Waiting(_) => Ok(None),
        _ => Err(InterpretError::RuntimeError),
    }
}

/// Where a run from `m` leaves the machine: behind the `Return` that has
/// taken the program's value from the stack; behind the instruction that
/// failed, with an empty stack; or at the arithmetic that it waits for, with
/// the stack as it is.
pub open spec fn machine_after(chunk: ChunkView, m: Machine) -> Machine {
    let (effect, end) = run_from(chunk, m);
    match effect {
        Effect::Done(_) => Machine { ip: end.ip + 1, stack: end.stack.drop_last() },
        Effect::Failed(_) => Machine { ip: end.ip + 1, stack: Seq::empty() },
        _ => end,
    }
}

/// The report that a run from `m` leaves: that of its runtime error, or
/// what was there.
pub open spec fn report_after(
    chunk: ChunkView,
    m: Machine,
    before: Option<RuntimeReportView>,
) -> Option<RuntimeReportView> {
    match run_from(chunk, m).0 {
        Effect::Failed(report) => Some(report),
        _ => before,
    }
}

/// Runs the machine from `m` to the end of the program, with a host that
/// gives the result of each arithmetic instruction that the machine waits
/// at: tells how the run ends.
pub open spec fn run_with(chunk: ChunkView, m: Machine, host: spec_fn(Arithmetic) -> u64) -> Effect
    decreases chunk.code.len() - m.ip,
{
    match effect(chunk, m) {
        Effect::Next(next) => run_with(chunk, next, host),
        Effect::Waiting(wanted) => run_with(chunk, resumed(m, host(wanted)), host),
        other => other,
    }
}

/// A run with a host is a run of the machine to where it waits, the result
/// of the host, and a run with the host from there.
pub proof fn lemma_run_with_host(chunk: ChunkView, m: Machine, host: spec_fn(Arithmetic) -> u64)
    ensures
        run_with(chunk, m, host) == match run_from(chunk, m).0 {
            Effect::Waiting(wanted) => run_with(
                chunk,
                resumed(run_from(chunk, m).1, host(wanted)),
                host,
            ),
            other => other,
        },
    decreases chunk.code.len() - m.ip,
{
    match effect(chunk, m) {
        Effect::Next(next) => {
            lemma_run_with_host(chunk, next, host);
        },
        _ => {},
    }
}

/// Whether a host does the arithmetic as `arithmetic` says: whatever it
/// gives for an instruction is the result that `arithmetic` has for it.
pub open spec fn answers<F: Fn(Arithmetic) -> u64>(
    host: &F,
    arithmetic: spec_fn(Arithmetic) -> u64,
) -> bool {
    forall|wanted: Arithmetic, result: u64| #[trigger]
        host.ensures((wanted,), result) ==> result == arithmetic(wanted)
}

/// What a run to the end gives to the caller of the machine: the value of
/// the program, or a runtime error.
pub open spec fn ended(end: Effect) -> Result<Option<Value>, InterpretError> {
    match end {
        Effect::Done(value) => Ok(Some(value)),
        _ => Err(InterpretError::RuntimeError),
    }
}

impl VM {
    /// Whether the machine can run: it stands in a chunk where it will
    /// never be stuck.
    pub open spec fn ready(&self) -> bool {
        safe_from(self@.chunk, self@.machine.ip, self@.machine.stack.len())
    }

    /// Whether the machine waits for the result of an arithmetic
    /// instruction.
    pub open spec fn waiting(&self) -> bool {
        self.ready() && effect(self@.chunk, self@.machine) is Waiting
    }

    /// A machine with an empty chunk, which has run nothing yet.
    pub fn new() -> (r: Self)
        ensures
            r@.chunk.code.len() == 0,
            r@.machine == (Machine { ip: 0, stack: Seq::empty() }),
            r@.diagnostics.len() == 0,
            r@.report is None,
    {
        Self { chunk: Chunk::new(), ip: 0, stack: Vec::new(), diagnostics: Vec::new(), report: None }
    }

    /// Compiles `source` and runs it to its end. `numbers` holds the values
    /// of the number literals of the source, in their order, as bit patterns;
    /// `host` does the arithmetic: it is called with each arithmetic
    /// instruction on two numbers that the machine comes to, and gives the bit
    /// pattern of the result.
    ///
    /// Gives the value of the program, or the kind of error that has ended
    /// it. The reports of a compile error are in `diagnostics`, that of a
    /// runtime error in `report`. The inputs on which the compilation fails by
    /// an error of its own are left out: `try_interpret` takes them.
    pub fn interpret<F: Fn(Arithmetic) -> u64>(
        &mut self,
        source: String,
        numbers: &Vec<u64>,
        host: &F,
    ) -> (r: Result<Option<Value>, InterpretError>)
        requires
            source_bytes(source@).len() < usize::MAX,
            compilation(initial(source_bytes(source@)), numbers@).parser.ice is None,
            forall|wanted: Arithmetic| host.requires((wanted,)),
        ensures
            ({
                let compiled = compilation(initial(source_bytes(source@)), numbers@);
                let start = Machine { ip: 0, stack: Seq::empty() };
                &&& final(self)@.diagnostics == compiled.parser.diagnostics
                &&& r != Ok::<Option<Value>, InterpretError>(None)
                &&& if compiled.parser.had_error {
                    &&& r == Err::<Option<Value>, InterpretError>(InterpretError::CompileError)
                    &&& final(self)@.chunk == old(self)@.chunk
                    &&& final(self)@.machine == old(self)@.machine
                    &&& final(self)@.report == old(self)@.report
                } else {
                    &&& final(self)@.chunk == compiled.chunk
                    &&& r != Err::<Option<Value>, InterpretError>(InterpretError::CompileError)
                    &&& r is Ok ==> final(self)@.report is None
                    &&& r is Err ==> final(self)@.report is Some
                    &&& r is Err ==> final(self)@.machine.stack.len() == 0
                    &&& forall|arithmetic: spec_fn(Arithmetic) -> u64| #[trigger]
                        answers(host, arithmetic) ==> r == ended(
                            run_with(compiled.chunk, start, arithmetic),
                        ) && (r is Err ==> run_with(compiled.chunk, start, arithmetic)
                            == Effect::Failed(final(self)@.report->0))
                }
            }),
    {
        match self.try_interpret(source, numbers, host) {
            Ok(result) => result,
            Err(_) => Err(InterpretError::CompileError),
        }
    }

    /// Compiles `source` and runs it to its end, as `interpret` does, on
    /// every input: where the compilation fails by an error of its own, that
    /// error is returned, and the machine is as it was.
    pub fn try_interpret<F: Fn(Arithmetic) -> u64>(
        &mut self,
        source: String,
        numbers: &Vec<u64>,
        host: &F,
    ) -> (r: Result<Result<Option<Value>, InterpretError>, Ice>)
        requires
            source_bytes(source@).len() < usize::MAX,
            forall|wanted: Arithmetic| host.requires((wanted,)),
        ensures
            ({
                let compiled = compilation(initial(source_bytes(source@)), numbers@);
                let start = Machine { ip: 0, stack: Seq::empty() };
                match compiled.parser.ice {
                    Some(ice) => r == Err::<Result<Option<Value>, InterpretError>, Ice>(ice)
                        && final(self)@ == old(self)@,
                    None => {
                        &&& r is Ok
                        &&& final(self)@.diagnostics == compiled.parser.diagnostics
                        &&& r->Ok_0 != Ok::<Option<Value>, InterpretError>(None)
                        &&& if compiled.parser.had_error {
                            &&& r->Ok_0 == Err::<Option<Value>, InterpretError>(
                                InterpretError::CompileError,
                            )
                            &&& final(self)@.chunk == old(self)@.chunk
                            &&& final(self)@.machine == old(self)@.machine
                            &&& final(self)@.report == old(self)@.report
                        } else {
                            &&& final(self)@.chunk == compiled.chunk
                            &&& r->Ok_0 != Err::<Option<Value>, InterpretError>(
                                InterpretError::CompileError,
                            )
                            &&& r->Ok_0 is Ok ==> final(self)@.report is None
                            &&& r->Ok_0 is Err ==> final(self)@.report is Some
                            &&& r->Ok_0 is Err ==> final(self)@.machine.stack.len() == 0
                            &&& forall|arithmetic: spec_fn(Arithmetic) -> u64| #[trigger]
                                answers(host, arithmetic) ==> r->Ok_0 == ended(
                                    run_with(compiled.chunk, start, arithmetic),
                                ) && (r->Ok_0 is Err ==> run_with(
                                    compiled.chunk,
                                    start,
                                    arithmetic,
                                ) == Effect::Failed(final(self)@.report->0))
                        }
                    },
                }
            }),
    {
        match self.try_load(source, numbers) {
            Err(ice) => Err(ice),
            Ok(Err(error)) => Ok(Err(error)),
            Ok(Ok(_)) => Ok(self.run_with(host)),
        }
    }

    /// Runs the machine to the end of the program: whenever it waits, `host`
    /// does the arithmetic. Gives the value of the program, or
    /// `RuntimeError` where a runtime error has ended it: the stack is empty
    /// then, and the report is with the machine.
    pub fn run_with<F: Fn(Arithmetic) -> u64>(&mut self, host: &F) -> (r: Result<
        Option<Value>,
        InterpretError,
    >)
        requires
            old(self).ready(),
            forall|wanted: Arithmetic| host.requires((wanted,)),
        ensures
            final(self)@.chunk == old(self)@.chunk,
            final(self)@.diagnostics == old(self)@.diagnostics,
            r is Ok ==> r->Ok_0 is Some && final(self)@.report == old(self)@.report,
            r is Err ==> r->Err_0 == InterpretError::RuntimeError && final(self)@.report is Some
                && final(self)@.machine.stack.len() == 0,
            forall|arithmetic: spec_fn(Arithmetic) -> u64| #[trigger]
                answers(host, arithmetic) ==> r == ended(
                    run_with(old(self)@.chunk, old(self)@.machine, arithmetic),
                ) && (r is Err ==> run_with(old(self)@.chunk, old(self)@.machine, arithmetic)
                    == Effect::Failed(final(self)@.report->0)),
    {
        let ghost chunk = self@.chunk;
        let ghost start = self@.machine;
        loop
            invariant
                self.ready(),
                chunk == old(self)@.chunk,
                start == old(self)@.machine,
                self@.chunk == chunk,
                self@.diagnostics == old(self)@.diagnostics,
                self@.report == old(self)@.report,
                forall|wanted: Arithmetic| host.requires((wanted,)),
                forall|arithmetic: spec_fn(Arithmetic) -> u64| #[trigger]
                    answers(host, arithmetic) ==> run_with(chunk, self@.machine, arithmetic)
                        == run_with(chunk, start, arithmetic),
            decreases chunk.code.len() - self@.machine.ip,
        {
            let ghost before = self@.machine;
            proof {
                lemma_run_goes_forward(chunk, before);
                assert forall|arithmetic: spec_fn(Arithmetic) -> u64| #[trigger]
                    answers(host, arithmetic) implies run_with(chunk, start, arithmetic)
                    == match run_from(chunk, before).0 {
                    Effect::Waiting(wanted) => run_with(
                        chunk,
                        resumed(run_from(chunk, before).1, arithmetic(wanted)),
                        arithmetic,
                    ),
                    other => other,
                } by {
                    lemma_run_with_host(chunk, before, arithmetic);
                }
            }
            match self.run() {
                Ok(Some(value)) => {
                    return Ok(Some(value));
                },
                Err(error) => {
                    return Err(error);
                },
                Ok(None) => {
                    let wanted = self.pending().unwrap();
                    let result = host(wanted);
                    self.supply(result);
                },
            }
        }
    }

    /// Compiles `source` and takes the chunk, without running it: the
    /// machine stands at its start, with an empty stack and no report, and
    /// can run. Where the source has errors, the machine keeps what it has and
    /// takes the reports only; where the compilation fails by an error of its
    /// own, that error is returned and the machine is as it was.
    pub fn try_load(&mut self, source: String, numbers: &Vec<u64>) -> (r: Result<
        Result<(), InterpretError>,
        Ice,
    >)
        requires
            source_bytes(source@).len() < usize::MAX,
        ensures
            ({
                let compiled = compilation(initial(source_bytes(source@)), numbers@);
                match compiled.parser.ice {
                    Some(ice) => r == Err::<Result<(), InterpretError>, Ice>(ice) && final(self)@
                        == old(self)@,
                    None => {
                        &&& final(self)@.diagnostics == compiled.parser.diagnostics
                        &&& if compiled.parser.had_error {
                            &&& r == Ok::<Result<(), InterpretError>, Ice>(
                                Err(InterpretError::CompileError),
                            )
                            &&& final(self)@.chunk == old(self)@.chunk
                            &&& final(self)@.machine == old(self)@.machine
                            &&& final(self)@.report == old(self)@.report
                        } else {
                            &&& r == Ok::<Result<(), InterpretError>, Ice>(Ok(()))
                            &&& final(self)@.chunk == compiled.chunk
                            &&& final(self)@.machine == (Machine { ip: 0, stack: Seq::empty() })
                            &&& final(self)@.report is None
                            &&& is_program(final(self)@.chunk)
                            &&& final(self).ready()
                        }
                    },
                }
            }),
    {
        let mut compiler = Compiler::new(source);
        let compiled = compiler.try_compile(numbers);
        match compiled {
            Err(ice) => Err(ice),
            Ok(Err(_)) => {
                self.diagnostics = compiler.into_diagnostics();
                Ok(Err(InterpretError::CompileError))
            },
            Ok(Ok(chunk)) => {
                proof {
                    lemma_program_is_safe(chunk@);
                }
                self.diagnostics = compiler.into_diagnostics();
                self.chunk = chunk;
                self.ip = 0;
                self.reset_stack();
                self.report = None;
                Ok(Ok(()))
            },
        }
    }

    /// The arithmetic that the machine waits for, if it waits.
    pub fn pending(&self) -> (r: Option<Arithmetic>)
        ensures
            r == match effect(self@.chunk, self@.machine) {
                Effect::Waiting(arithmetic) => Some(arithmetic),
                _ => None::<Arithmetic>,
            },
    {
        let depth = self.stack.len();
        if self.ip >= self.chunk.code_len() || depth < 2 {
            return None;
        }
        match OpCode::try_from(self.chunk.get_code(self.ip)) {
            Ok(op) => match op {
                OpCode::Add | OpCode::Subtract | OpCode::Multiply | OpCode::Divide => {
                    match (self.stack[depth - 2], self.stack[depth - 1]) {
                        (Value::Number(left), Value::Number(right)) => Some(
                            Arithmetic { op, left, right },
                        ),
                        _ => None,
                    }
                },
                _ => None,
            },
            Err(_) => None,
        }
    }

    /// Goes on where the machine waited: takes the two operands from the
    /// stack, pushes the number `result` in their place, and runs on behind
    /// the instruction.
    pub fn resume(&mut self, result: u64) -> (r: Result<Option<Value>, InterpretError>)
        requires
            old(self).waiting(),
        ensures
            ({
                let chunk = old(self)@.chunk;
                let start = resumed(old(self)@.machine, result);
                &&& r == outcome(chunk, start)
                &&& final(self)@.chunk == chunk
                &&& final(self)@.diagnostics == old(self)@.diagnostics
                &&& final(self)@.machine == machine_after(chunk, start)
                &&& final(self)@.report == report_after(chunk, start, old(self)@.report)
                &&& r == Ok::<Option<Value>, InterpretError>(None) ==> final(self).waiting()
            }),
    {
        self.supply(result);
        self.run()
    }

    /// Ends the instruction at which the machine waited: takes the two
    /// operands from the stack and pushes the number `result` in their place.
    /// The machine stands behind the instruction, and can run.
    pub fn supply(&mut self, result: u64)
        requires
            old(self).waiting(),
        ensures
            final(self)@ == (VMView {
                machine: resumed(old(self)@.machine, result),
                ..old(self)@
            }),
            final(self).ready(),
    {
        proof {
            lemma_safe_step(self@.chunk, self@.machine);
        }
        let _ = self.chunk.code_len();
        let _ = self.pop_stack();
        let _ = self.pop_stack();
        self.push_stack(Value::Number(result));
        self.ip += 1;
        assert(self@.machine.stack =~= resumed(old(self)@.machine, result).stack);
    }

    /// The errors that the last compilation reported, in order.
    pub fn diagnostics(&self) -> (r: &Vec<Diagnostic>)
        ensures
            r@.len() == self@.diagnostics.len(),
            forall|i: int| 0 <= i < r@.len() ==> (#[trigger] r@[i])@ == self@.diagnostics[i],
    {
        &self.diagnostics
    }

    /// The report of the runtime error that has ended the last run, if one
    /// has.
    pub fn report(&self) -> (r: &Option<RuntimeReport>)
        ensures
            match *r {
                Some(report) => self@.report == Some(report@),
                None => self@.report is None,
            },
    {
        &self.report
    }

    /// The chunk that the machine runs.
    pub fn chunk(&self) -> (r: &Chunk)
        ensures
            r@ == self@.chunk,
    {
        &self.chunk
    }

    /// The offset of the next instruction.
    pub fn ip(&self) -> (r: usize)
        ensures
            r == self@.machine.ip,
    {
        self.ip
    }

    /// The stack, from the bottom up.
    pub fn stack(&self) -> (r: &Vec<Value>)
        ensures
            r@ == self@.machine.stack,
    {
        &self.stack
    }

    fn pop_stack(&mut self) -> (value: Value)
        requires
            old(self)@.machine.stack.len() > 0,
        ensures
            value == old(self)@.machine.top(),
            final(self)@ == (VMView {
                machine: Machine {
                    stack: old(self)@.machine.stack.drop_last(),
                    ..old(self)@.machine
                },
                ..old(self)@
            }),
    {
        self.stack.pop().unwrap()
    }

    fn push_stack(&mut self, value: Value)
        ensures
            final(self)@ == (VMView {
                machine: Machine { stack: old(self)@.machine.stack.push(value), ..old(self)@.machine },
                ..old(self)@
            }),
    {
        self.stack.push(value);
    }

    /// Runs until the program ends, fails or waits.
    pub fn run(&mut self) -> (r: Result<Option<Value>, InterpretError>)
        requires
            old(self).ready(),
        ensures
            r == outcome(old(self)@.chunk, old(self)@.machine),
            final(self)@.chunk == old(self)@.chunk,
            final(self)@.diagnostics == old(self)@.diagnostics,
            final(self)@.machine == machine_after(old(self)@.chunk, old(self)@.machine),
            final(self)@.report == report_after(
                old(self)@.chunk,
                old(self)@.machine,
                old(self)@.report,
            ),
            r == Ok::<Option<Value>, InterpretError>(None) ==> final(self).waiting(),
    {
        loop
            invariant
                self.ready(),
                self@.chunk == old(self)@.chunk,
                self@.diagnostics == old(self)@.diagnostics,
                self@.report == old(self)@.report,
                run_from(self@.chunk, self@.machine) == run_from(
                    old(self)@.chunk,
                    old(self)@.machine,
                ),
            decreases self@.chunk.code.len() - self@.machine.ip,
        {
            proof {
                lemma_safe_step(self@.chunk, self@.machine);
            }
            match self.step() {
                Signal::Continue => {},
                Signal::Finished(value) => {
                    return Ok(Some(value));
                },
                Signal::Failed => {
                    return Err(InterpretError::RuntimeError);
                },
                Signal::Waiting => {
                    return Ok(None);
                },
            }
        }
    }

    /// Runs one instruction: what it does is `effect`. At an arithmetic
    /// instruction on two numbers the machine stays where it is, and waits.
    /// A runtime error empties the stack and leaves its report.
    pub fn step(&mut self) -> (signal: Signal)
        requires
            old(self).ready(),
        ensures
            final(self)@.chunk == old(self)@.chunk,
            final(self)@.diagnostics == old(self)@.diagnostics,
            match effect(old(self)@.chunk, old(self)@.machine) {
                Effect::Next(next) => {
                    &&& signal == Signal::Continue
                    &&& final(self)@.machine == next
                    &&& final(self)@.report == old(self)@.report
                    &&& final(self).ready()
                },
                Effect::Done(value) => {
                    &&& signal == Signal::Finished(value)
                    &&& final(self)@.machine == (Machine {
                        ip: old(self)@.machine.ip + 1,
                        stack: old(self)@.machine.stack.drop_last(),
                    })
                    &&& final(self)@.report == old(self)@.report
                },
                Effect::Failed(report) => {
                    &&& signal == Signal::Failed
                    &&& final(self)@.machine == (Machine {
                        ip: old(self)@.machine.ip + 1,
                        stack: Seq::empty(),
                    })
                    &&& final(self)@.report == Some(report)
                },
                Effect::Waiting(_) => {
                    &&& signal == Signal::Waiting
                    &&& final(self)@ == old(self)@
                },
                Effect::Stuck => false,
            },
    {
        proof {
            lemma_safe_step(self@.chunk, self@.machine);
        }
        let at = self.ip;
        let _ = self.chunk.code_len();
        let instruction = self.chunk.get_code(at);
        let instruction = OpCode::try_from(instruction).unwrap();

        match instruction {
            OpCode::Return => {
                self.ip += 1;
                let value = self.pop_stack();
                Signal::Finished(value)
            },
            OpCode::Constant => {
                let index = self.chunk.get_code(at + 1);
                let constant = self.chunk.constants().get(index as usize);
                self.ip += 2;
                self.push_stack(constant);
                Signal::Continue
            },
            OpCode::Negate => {
                self.ip += 1;
                match self.pop_stack() {
                    Value::Number(num) => {
                        self.push_stack(Value::Number(bits_negated(num)));
                        Signal::Continue
                    },
                    _ => {
                        self.runtime_error("Operand must be a number.");
                        Signal::Failed
                    },
                }
            },
            OpCode::Add | OpCode::Subtract | OpCode::Multiply | OpCode::Divide => {
                let depth = self.stack.len();
                match (self.stack[depth - 2], self.stack[depth - 1]) {
                    (Value::Number(_), Value::Number(_)) => Signal::Waiting,
                    _ => {
                        self.ip += 1;
                        self.runtime_error("Operands must be numbers.");
                        Signal::Failed
                    },
                }
            },
            OpCode::Greater | OpCode::Less => {
                self.ip += 1;
                let b = self.pop_stack();
                let a = self.pop_stack();

                match (a, b) {
                    (Value::Number(a), Value::Number(b)) => {
                        let result = match instruction {
                            OpCode::Greater => Value::Bool(bits_less(b, a)),
                            _ => Value::Bool(bits_less(a, b)),
                        };
                        self.push_stack(result);
                        Signal::Continue
                    },
                    _ => {
                        self.runtime_error("Operands must be numbers.");
                        Signal::Failed
                    },
                }
            },
            OpCode::Nil => {
                self.ip += 1;
                self.push_stack(Value::Nil);
                Signal::Continue
            },
            OpCode::True => {
                self.ip += 1;
                self.push_stack(Value::Bool(true));
                Signal::Continue
            },
            OpCode::False => {
                self.ip += 1;
                self.push_stack(Value::Bool(false));
                Signal::Continue
            },
            OpCode::Not => {
                self.ip += 1;
                let last = self.pop_stack();
                self.push_stack(Value::Bool(last.is_falsey()));
                Signal::Continue
            },
            OpCode::Equal => {
                self.ip += 1;
                let b = self.pop_stack();
                let a = self.pop_stack();

                self.push_stack(Value::Bool(a == b));
                Signal::Continue
            },
        }
    }

    /// Leaves the report of a runtime error at the instruction just run, and
    /// empties the stack.
    fn runtime_error(&mut self, message: &str)
        requires
            0 < old(self)@.machine.ip <= old(self)@.chunk.lines.len(),
        ensures
            final(self)@ == (VMView {
                machine: Machine { stack: Seq::empty(), ..old(self)@.machine },
                report: Some(
                    RuntimeReportView {
                        message: message@,
                        line: old(self)@.chunk.lines[old(self)@.machine.ip - 1],
                    },
                ),
                ..old(self)@
            }),
    {
        let line = self.chunk.get_line(self.ip - 1);
        self.report = Some(RuntimeReport { message: message.to_owned(), line });

        self.reset_stack();
    }

    fn reset_stack(&mut self)
        ensures
            final(self)@ == (VMView {
                machine: Machine { stack: Seq::empty(), ..old(self)@.machine },
                ..old(self)@
            }),
    {
        self.stack.clear();
    }
}

} // verus!
