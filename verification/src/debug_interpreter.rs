//! The debuggable interpreter: the scheduling state machine at the heart of
//! the toolchain.
//!
//! The session owns the lowered program, the tape, the breakpoint table, a
//! queue of user-input bytes, and two outbound logs: stop events and output
//! events. A host (a debug-adapter front end, say) drives it by commands —
//! continue, step, pause, terminate, breakpoint updates — and drains the
//! logs after each call; a worker thread around it is plain plumbing.
//!
//! Before executing any operation the scheduler checks for a pause: a
//! breakpoint hit while running, or the end of a single step. The whole
//! machine — scheduling, execution, blocking on input, completion and
//! termination events — is specified by `dstep`/`drun`, and every public
//! operation is proved to move the session exactly as that machine says.

use vstd::prelude::*;

use crate::analyzer::{
    self, flat_matches, flat_scan, ParseError, Position, ScanMode, ScanOut, Token,
};
use crate::interpreter::BrainfuckMemory;
use crate::machine::{grown, lower_group, ops_of_group, ops_wf, wrap_dec, wrap_inc, Op, OpCode};

verus! {

/// A validated breakpoint: a real token position and a session-unique id.
#[derive(Debug, Eq, PartialEq, Structural, Copy, Clone)]
pub struct BrainfuckBreakpoint {
    pub position: Position,
    pub id: usize,
}

/// Why execution stopped.
#[derive(Debug, Eq, PartialEq, Structural, Copy, Clone)]
pub enum StoppedReasonEnum {
    Breakpoint,
    Step,
    Complete,
    Terminated,
}

/// Where an output line belongs.
#[derive(Debug, Eq, PartialEq, Structural, Copy, Clone)]
pub enum OutputCategoryEnum {
    Console,
    StdOut,
}

/// The run state of the session's execution.
#[derive(Debug, Eq, PartialEq, Structural, Copy, Clone)]
pub enum InterpreterState {
    Running,
    Paused,
    Step,
    Terminated,
}

/// A command a host can issue.
#[derive(Debug)]
pub enum InterpreterCommand {
    Step,
    Continue,
    GetPosition,
    Pause,
    Terminate,
    UpdateBreakpoints(Vec<BrainfuckBreakpoint>),
}

/// A reply to a query command.
#[derive(Debug, Eq, PartialEq, Structural, Copy, Clone)]
pub enum InterpreterResponse {
    Error,
    Position(Position),
}

/// One stop event, as the stop callback of a debug front end receives it.
#[derive(Debug, Eq, PartialEq, Copy, Clone)]
pub struct StoppedEvent {
    pub reason: StoppedReasonEnum,
    pub position: Option<Position>,
    pub breakpoint_id: Option<usize>,
}

/// One output event: console diagnostics or the program's own output.
#[derive(Debug, PartialEq)]
pub struct OutputEvent {
    pub category: OutputCategoryEnum,
    pub text: String,
}

// ---------------------------------------------------------------------------
// The debug machine
// ---------------------------------------------------------------------------

/// The model of a launched session.
pub ghost struct DebugModel {
    pub pc: int,
    pub state: InterpreterState,
    /// whether the scheduling check for the operation at `pc` is still owed
    pub sched: bool,
    pub mem: Seq<u8>,
    pub head: int,
    /// user-input bytes not yet consumed
    pub input: Seq<u8>,
    pub output: Seq<(OutputCategoryEnum, Seq<char>)>,
    pub events: Seq<StoppedEvent>,
    pub bps: Seq<BrainfuckBreakpoint>,
    /// whether the waiting-for-input notice was already given
    pub noticed: bool,
    /// whether a `Complete` or `Terminated` event ended the session
    pub done: bool,
}

/// The operations the scheduler stops at: everything that stands for a
/// source token, as opposed to the internal jumps of a loop.
pub open spec fn schedulable(k: OpCode) -> bool {
    !(k matches OpCode::Test(_)) && !(k matches OpCode::Back(_))
}

/// The breakpoint events due at position `p`: one per matching table
/// entry, in table order.
pub open spec fn bp_events(bps: Seq<BrainfuckBreakpoint>, p: Position) -> Seq<StoppedEvent>
    decreases bps.len(),
{
    if bps.len() == 0 {
        Seq::empty()
    } else {
        let head_events: Seq<StoppedEvent> = if bps[0].position == p {
            seq![
                StoppedEvent {
                    reason: StoppedReasonEnum::Breakpoint,
                    position: Some(bps[0].position),
                    breakpoint_id: Some(bps[0].id),
                },
            ]
        } else {
            Seq::empty()
        };
        head_events + bp_events(bps.drop_first(), p)
    }
}

/// The session no longer moves on its own: it ended, it awaits commands
/// while paused, or it awaits user input.
pub open spec fn dblocked(ops: Seq<Op>, m: DebugModel) -> bool {
    ||| m.done
    ||| m.state matches InterpreterState::Paused
    ||| {
        &&& !m.sched
        &&& (m.state matches InterpreterState::Running || m.state matches InterpreterState::Step)
        &&& 0 <= m.pc < ops.len()
        &&& (ops[m.pc].kind matches OpCode::In)
        &&& m.input.len() == 0
        &&& m.noticed
    }
}

/// The stop event ending a session by command or by a fatal runtime
/// failure, at the operation about to execute.
pub open spec fn terminated_event(ops: Seq<Op>, pc: int) -> StoppedEvent {
    StoppedEvent {
        reason: StoppedReasonEnum::Terminated,
        position: if 0 <= pc < ops.len() {
            Some(ops[pc].range.start)
        } else {
            None
        },
        breakpoint_id: None,
    }
}

/// One step of the debug machine (meaningful when not `dblocked`): deliver
/// a pending termination, complete at the program's end, run the owed
/// scheduling check, or execute the operation at `pc`.
pub open spec fn dstep(ops: Seq<Op>, m: DebugModel) -> DebugModel {
    if (m.state matches InterpreterState::Terminated) {
        DebugModel { events: m.events.push(terminated_event(ops, m.pc)), done: true, ..m }
    } else if m.pc == ops.len() {
        DebugModel {
            events: m.events.push(
                StoppedEvent {
                    reason: StoppedReasonEnum::Complete,
                    position: None,
                    breakpoint_id: None,
                },
            ),
            done: true,
            ..m
        }
    } else if m.sched {
        let start = ops[m.pc].range.start;
        if schedulable(ops[m.pc].kind) && (m.state matches InterpreterState::Running) && bp_events(
            m.bps,
            start,
        ).len() > 0 {
            DebugModel {
                events: m.events + bp_events(m.bps, start),
                state: InterpreterState::Paused,
                sched: false,
                ..m
            }
        } else if schedulable(ops[m.pc].kind) && (m.state matches InterpreterState::Step) {
            DebugModel {
                events: m.events.push(
                    StoppedEvent {
                        reason: StoppedReasonEnum::Step,
                        position: Some(start),
                        breakpoint_id: None,
                    },
                ),
                state: InterpreterState::Paused,
                sched: false,
                ..m
            }
        } else {
            DebugModel { sched: false, ..m }
        }
    } else {
        match ops[m.pc].kind {
            OpCode::Right => {
                if m.head + 1 == m.mem.len() {
                    if m.mem.len() == usize::MAX {
                        DebugModel {
                            events: m.events.push(terminated_event(ops, m.pc)),
                            state: InterpreterState::Terminated,
                            done: true,
                            ..m
                        }
                    } else {
                        DebugModel {
                            mem: grown(m.mem),
                            head: m.head + 1,
                            pc: m.pc + 1,
                            sched: true,
                            ..m
                        }
                    }
                } else {
                    DebugModel { head: m.head + 1, pc: m.pc + 1, sched: true, ..m }
                }
            }
            OpCode::Left => {
                if m.head == 0 {
                    DebugModel {
                        events: m.events.push(terminated_event(ops, m.pc)),
                        state: InterpreterState::Terminated,
                        done: true,
                        ..m
                    }
                } else {
                    DebugModel { head: m.head - 1, pc: m.pc + 1, sched: true, ..m }
                }
            }
            OpCode::Inc => DebugModel {
                mem: m.mem.update(m.head, wrap_inc(m.mem[m.head])),
                pc: m.pc + 1,
                sched: true,
                ..m
            },
            OpCode::Dec => DebugModel {
                mem: m.mem.update(m.head, wrap_dec(m.mem[m.head])),
                pc: m.pc + 1,
                sched: true,
                ..m
            },
            OpCode::Out => DebugModel {
                output: m.output.push(
                    (OutputCategoryEnum::StdOut, seq![(m.mem[m.head] as char)]),
                ),
                pc: m.pc + 1,
                sched: true,
                ..m
            },
            OpCode::In => {
                if m.input.len() == 0 {
                    DebugModel {
                        output: m.output.push((OutputCategoryEnum::Console, "Waiting for user input"@)),
                        noticed: true,
                        ..m
                    }
                } else {
                    DebugModel {
                        mem: m.mem.update(m.head, m.input[0]),
                        input: m.input.drop_first(),
                        noticed: false,
                        pc: m.pc + 1,
                        sched: true,
                        ..m
                    }
                }
            }
            OpCode::Note => DebugModel { pc: m.pc + 1, sched: true, ..m },
            OpCode::Enter => DebugModel { pc: m.pc + 1, sched: true, ..m },
            OpCode::Test(d) => {
                if m.mem[m.head] == 0 {
                    DebugModel { pc: m.pc + d + 2, sched: true, ..m }
                } else {
                    DebugModel { pc: m.pc + 1, sched: true, ..m }
                }
            }
            OpCode::Back(d) => DebugModel { pc: m.pc - d - 1, sched: true, ..m },
        }
    }
}

/// The debug machine run for at most `fuel` steps, stopping early when the
/// session blocks.
pub open spec fn drun(fuel: nat, ops: Seq<Op>, m: DebugModel) -> DebugModel
    decreases fuel,
{
    if dblocked(ops, m) || fuel == 0 {
        m
    } else {
        drun((fuel - 1) as nat, ops, dstep(ops, m))
    }
}

/// A single step: when the machine runs from the `Step` state and comes to
/// a pause, it has delivered exactly one `Step` stop event, at the
/// operation it pauses on. With `next`'s contract this is single-stepping:
/// `next` from a pause executes exactly the token it was paused at and
/// pauses at the next token reached.
pub proof fn lemma_step_stops_once(ops: Seq<Op>, m: DebugModel, n: nat)
    requires
        ops_wf(ops),
        0 <= m.pc <= ops.len(),
        m.state matches InterpreterState::Step,
        !m.done,
        drun(n, ops, m).state matches InterpreterState::Paused,
    ensures
        0 <= drun(n, ops, m).pc < ops.len(),
        drun(n, ops, m).events == m.events.push(
            StoppedEvent {
                reason: StoppedReasonEnum::Step,
                position: Some(ops[drun(n, ops, m).pc].range.start),
                breakpoint_id: None,
            },
        ),
    decreases n,
{
    if dblocked(ops, m) {
    } else if n == 0 {
    } else {
        let m2 = dstep(ops, m);
        assert(drun(n, ops, m) == drun((n - 1) as nat, ops, m2));
        if m.pc == ops.len() {
            assert(dblocked(ops, m2));
        } else if m.sched && schedulable(ops[m.pc].kind) {
            assert(m2.state matches InterpreterState::Paused);
            assert(drun((n - 1) as nat, ops, m2) == m2);
        } else {
            if m2.done {
                assert(dblocked(ops, m2));
            } else {
                lemma_step_stops_once(ops, m2, (n - 1) as nat);
            }
        }
    }
}

/// A `Continue`: when the machine runs from the `Running` state and comes
/// to a pause, it paused for breakpoints and nothing else. The events
/// delivered are exactly the breakpoint events of the operation it pauses
/// on, and at least one entry of the table matches that position — the run
/// stops at a breakpoint hit or not at all.
pub proof fn lemma_continue_stops_at_breakpoint(ops: Seq<Op>, m: DebugModel, n: nat)
    requires
        ops_wf(ops),
        0 <= m.pc <= ops.len(),
        m.state matches InterpreterState::Running,
        !m.done,
        drun(n, ops, m).state matches InterpreterState::Paused,
    ensures
        0 <= drun(n, ops, m).pc < ops.len(),
        drun(n, ops, m).bps == m.bps,
        bp_events(m.bps, ops[drun(n, ops, m).pc].range.start).len() > 0,
        drun(n, ops, m).events == m.events + bp_events(
            m.bps,
            ops[drun(n, ops, m).pc].range.start,
        ),
    decreases n,
{
    if dblocked(ops, m) {
    } else if n == 0 {
    } else {
        let m2 = dstep(ops, m);
        assert(drun(n, ops, m) == drun((n - 1) as nat, ops, m2));
        if m.pc == ops.len() {
            assert(dblocked(ops, m2));
        } else if m.sched && schedulable(ops[m.pc].kind) && bp_events(
            m.bps,
            ops[m.pc].range.start,
        ).len() > 0 {
            assert(m2.state matches InterpreterState::Paused);
            assert(drun((n - 1) as nat, ops, m2) == m2);
        } else {
            if m2.done {
                assert(dblocked(ops, m2));
            } else {
                lemma_continue_stops_at_breakpoint(ops, m2, (n - 1) as nat);
            }
        }
    }
}

/// A `Continue` that ends the session delivers exactly one final event:
/// `Complete` past the program's end, or `Terminated` at a fatal runtime
/// failure. With the breakpoint law this fixes a whole session's shape:
/// driven by continues, it delivers one breakpoint group per continue and
/// then a single final event — for a loop run under a breakpoint on its
/// body, as many continues as iterations, then one more for completion.
pub proof fn lemma_continue_ends_once(ops: Seq<Op>, m: DebugModel, n: nat)
    requires
        ops_wf(ops),
        0 <= m.pc <= ops.len(),
        m.state matches InterpreterState::Running,
        !m.done,
        drun(n, ops, m).done,
    ensures
        drun(n, ops, m).events.len() == m.events.len() + 1,
        drun(n, ops, m).events.subrange(0, m.events.len() as int) == m.events,
        (drun(n, ops, m).events.last().reason matches StoppedReasonEnum::Complete) || (drun(
            n,
            ops,
            m,
        ).events.last().reason matches StoppedReasonEnum::Terminated),
    decreases n,
{
    if dblocked(ops, m) {
    } else if n == 0 {
    } else {
        let m2 = dstep(ops, m);
        assert(drun(n, ops, m) == drun((n - 1) as nat, ops, m2));
        if m.pc == ops.len() {
            assert(drun((n - 1) as nat, ops, m2) == m2);
            assert(m2.events.subrange(0, m.events.len() as int) =~= m.events);
        } else if m.sched && schedulable(ops[m.pc].kind) && bp_events(
            m.bps,
            ops[m.pc].range.start,
        ).len() > 0 {
            assert(drun((n - 1) as nat, ops, m2) == m2);
        } else {
            if m2.done {
                assert(drun((n - 1) as nat, ops, m2) == m2);
                assert(m2.events.subrange(0, m.events.len() as int) =~= m.events);
            } else {
                lemma_continue_ends_once(ops, m2, (n - 1) as nat);
            }
        }
    }
}

/// Fresh breakpoints govern the next `Continue`: once the table is
/// replaced — as an `UpdateBreakpoints` command does, even while the
/// program is between stops — a run from `Running` pauses exactly at a
/// position the new table names.
pub proof fn lemma_updated_breakpoints_respected(
    ops: Seq<Op>,
    m: DebugModel,
    bps: Seq<BrainfuckBreakpoint>,
    n: nat,
)
    requires
        ops_wf(ops),
        0 <= m.pc <= ops.len(),
        m.state matches InterpreterState::Running,
        !m.done,
        m.bps == bps,
        drun(n, ops, m).state matches InterpreterState::Paused,
    ensures
        0 <= drun(n, ops, m).pc < ops.len(),
        bp_events(bps, ops[drun(n, ops, m).pc].range.start).len() > 0,
        drun(n, ops, m).events == m.events + bp_events(
            bps,
            ops[drun(n, ops, m).pc].range.start,
        ),
{
    lemma_continue_stops_at_breakpoint(ops, m, n);
}

/// `bp_events` over a table extended by one entry.
proof fn lemma_bp_events_snoc(bps: Seq<BrainfuckBreakpoint>, b: BrainfuckBreakpoint, p: Position)
    ensures
        bp_events(bps.push(b), p) == bp_events(bps, p) + (if b.position == p {
            seq![
                StoppedEvent {
                    reason: StoppedReasonEnum::Breakpoint,
                    position: Some(b.position),
                    breakpoint_id: Some(b.id),
                },
            ]
        } else {
            Seq::<StoppedEvent>::empty()
        }),
    decreases bps.len(),
{
    let tail: Seq<StoppedEvent> = if b.position == p {
        seq![
            StoppedEvent {
                reason: StoppedReasonEnum::Breakpoint,
                position: Some(b.position),
                breakpoint_id: Some(b.id),
            },
        ]
    } else {
        Seq::<StoppedEvent>::empty()
    };
    if bps.len() == 0 {
        assert(bps.push(b)[0] == b);
        assert(bps.push(b).drop_first() =~= Seq::<BrainfuckBreakpoint>::empty());
        assert(bp_events(Seq::<BrainfuckBreakpoint>::empty(), p) =~= Seq::<StoppedEvent>::empty());
        assert(bp_events(bps.push(b), p) =~= tail);
        assert(bp_events(bps, p) + tail =~= tail);
    } else {
        assert(bps.push(b)[0] == bps[0]);
        assert(bps.push(b).drop_first() =~= bps.drop_first().push(b));
        lemma_bp_events_snoc(bps.drop_first(), b, p);
        let head_events: Seq<StoppedEvent> = if bps[0].position == p {
            seq![
                StoppedEvent {
                    reason: StoppedReasonEnum::Breakpoint,
                    position: Some(bps[0].position),
                    breakpoint_id: Some(bps[0].id),
                },
            ]
        } else {
            Seq::<StoppedEvent>::empty()
        };
        assert(bp_events(bps.push(b), p) == head_events + (bp_events(bps.drop_first(), p) + tail));
        assert(head_events + (bp_events(bps.drop_first(), p) + tail) =~= (head_events + bp_events(
            bps.drop_first(),
            p,
        )) + tail);
    }
}

/// The view of the output log as the model carries it.
pub open spec fn out_view(evs: Seq<OutputEvent>) -> Seq<(OutputCategoryEnum, Seq<char>)> {
    evs.map_values(|e: OutputEvent| (e.category, e.text@))
}

/// A byte rendered as a one-character string for the output callback.
fn byte_string(b: u8) -> (s: String)
    ensures
        s@ == seq![(b as char)],
{
    let mut v: Vec<char> = Vec::new();
    v.push(b as char);
    proof {
        assert(v@ =~= seq![(b as char)]);
    }
    analyzer::string_from_chars(&v)
}

/// The byte a user-input character feeds to `,`: its low eight bits.
pub open spec fn char_byte(c: char) -> u8 {
    ((c as u32) % 256) as u8
}

/// The bytes a string of user input feeds to `,`.
pub open spec fn bytes_of(s: Seq<char>) -> Seq<u8> {
    s.map_values(|c: char| char_byte(c))
}


/// The first token whose start position is exactly `(row, col)`, from `i`.
pub open spec fn first_col_match(ts: Seq<Token>, row: u32, col: u32, i: int) -> Option<int>
    decreases ts.len() - i,
{
    if i < 0 || i >= ts.len() {
        None
    } else if ts[i].range.start == (Position { line: row, character: col }) {
        Some(i)
    } else {
        first_col_match(ts, row, col, i + 1)
    }
}

/// The first token on line `row` whose predecessor ends on another line,
/// from `i`: the first executable token of that line.
pub open spec fn first_line_match(ts: Seq<Token>, row: u32, i: int) -> Option<int>
    decreases ts.len() - i,
{
    if i < 0 || i >= ts.len() {
        None
    } else if i >= 1 && ts[i - 1].range.end.line != row && ts[i].range.start.line == row {
        Some(i)
    } else {
        first_line_match(ts, row, i + 1)
    }
}

// ---------------------------------------------------------------------------
// The session
// ---------------------------------------------------------------------------

/// A debug session over one source program.
#[derive(Debug)]
pub struct BrainfuckDebugInterpreter {
    source_file: String,
    source_content: String,
    breakpoints: Vec<BrainfuckBreakpoint>,
    breakpoint_id: usize,
    launched: bool,
    ops: Vec<Op>,
    pc: usize,
    state: InterpreterState,
    sched: bool,
    memory: BrainfuckMemory,
    user_input: Vec<u8>,
    input_read: usize,
    runtime_breakpoints: Vec<BrainfuckBreakpoint>,
    events: Vec<StoppedEvent>,
    outputs: Vec<OutputEvent>,
    noticed: bool,
    done: bool,
}

impl BrainfuckDebugInterpreter {
    /// A launched session is internally consistent.
    pub closed spec fn wf(self) -> bool {
        self.launched ==> {
            &&& ops_wf(self.ops@)
            &&& self.memory.wf()
            &&& self.pc <= self.ops@.len()
            &&& self.input_read <= self.user_input@.len()
        }
    }

    /// The debug-machine state this session stands in.
    pub closed spec fn model(self) -> DebugModel {
        DebugModel {
            pc: self.pc as int,
            state: self.state,
            sched: self.sched,
            mem: self.memory.memory@,
            head: self.memory.index as int,
            input: self.user_input@.skip(self.input_read as int),
            output: out_view(self.outputs@),
            events: self.events@,
            bps: self.runtime_breakpoints@,
            noticed: self.noticed,
            done: self.done,
        }
    }

    pub closed spec fn spec_source(self) -> Seq<char> {
        self.source_content@
    }

    pub closed spec fn spec_breakpoints(self) -> Seq<BrainfuckBreakpoint> {
        self.breakpoints@
    }

    pub closed spec fn spec_launched(self) -> bool {
        self.launched
    }

    pub closed spec fn spec_done(self) -> bool {
        self.done
    }

    pub closed spec fn spec_ops(self) -> Seq<Op> {
        self.ops@
    }

    pub closed spec fn spec_filename(self) -> Seq<char> {
        self.source_file@
    }

    pub closed spec fn spec_breakpoint_id(self) -> nat {
        self.breakpoint_id as nat
    }

    pub fn new(source_content: String) -> (r: BrainfuckDebugInterpreter)
        ensures
            r.wf(),
            r.spec_source() == source_content@,
            r.spec_filename() == "unknown"@,
            r.spec_breakpoints() == Seq::<BrainfuckBreakpoint>::empty(),
            r.spec_breakpoint_id() == 0,
            !r.spec_launched(),
    {
        BrainfuckDebugInterpreter {
            source_file: "unknown".to_owned(),
            source_content,
            breakpoints: Vec::new(),
            breakpoint_id: 0,
            launched: false,
            ops: Vec::new(),
            pc: 0,
            state: InterpreterState::Running,
            sched: true,
            memory: BrainfuckMemory::new(),
            user_input: Vec::new(),
            input_read: 0,
            runtime_breakpoints: Vec::new(),
            events: Vec::new(),
            outputs: Vec::new(),
            noticed: false,
            done: false,
        }
    }

    pub fn get_filename(&self) -> (r: String)
        ensures
            r@ == self.spec_filename(),
    {
        self.source_file.clone()
    }

    /// The stop events delivered so far, oldest first.
    pub fn stopped_events(&self) -> (r: &Vec<StoppedEvent>)
        ensures
            r@ == self.model().events,
    {
        &self.events
    }

    /// The output events delivered so far, oldest first.
    pub fn output_events(&self) -> (r: &Vec<OutputEvent>)
        ensures
            out_view(r@) == self.model().output,
    {
        &self.outputs
    }

    pub fn clear_breakpoints(&mut self)
        requires
            old(self).wf(),
        ensures
            final(self).wf(),
            final(self).spec_breakpoints() == Seq::<BrainfuckBreakpoint>::empty(),
            final(self).model() == old(self).model(),
            final(self).spec_source() == old(self).spec_source(),
            final(self).spec_filename() == old(self).spec_filename(),
            final(self).spec_launched() == old(self).spec_launched(),
            final(self).spec_ops() == old(self).spec_ops(),
            final(self).spec_breakpoint_id() == old(self).spec_breakpoint_id(),
    {
        self.breakpoints.clear();
    }

    /// Ships the validated breakpoint table to the running session: it
    /// takes effect at the next scheduling step.
    pub fn update_runtime_breakpoints(&mut self)
        requires
            old(self).wf(),
        ensures
            final(self).wf(),
            final(self).spec_source() == old(self).spec_source(),
            final(self).spec_filename() == old(self).spec_filename(),
            final(self).spec_breakpoints() == old(self).spec_breakpoints(),
            final(self).spec_launched() == old(self).spec_launched(),
            final(self).spec_ops() == old(self).spec_ops(),
            final(self).spec_breakpoint_id() == old(self).spec_breakpoint_id(),
            old(self).spec_launched() ==> final(self).model() == (DebugModel {
                bps: old(self).spec_breakpoints(),
                ..old(self).model()
            }),
            !old(self).spec_launched() ==> final(self).model() == old(self).model(),
    {
        if self.launched {
            let mut copy: Vec<BrainfuckBreakpoint> = Vec::new();
            let mut i: usize = 0;
            while i < self.breakpoints.len()
                invariant
                    i <= self.breakpoints@.len(),
                    copy@ == self.breakpoints@.take(i as int),
                decreases self.breakpoints@.len() - i,
            {
                copy.push(self.breakpoints[i]);
                proof {
                    assert(copy@ =~= self.breakpoints@.take(i + 1));
                }
                i = i + 1;
            }
            proof {
                assert(self.breakpoints@.take(self.breakpoints@.len() as int)
                    =~= self.breakpoints@);
            }
            self.runtime_breakpoints = copy;
        }
    }


    /// Validates a requested breakpoint against a flat parse of the source:
    /// with a column, the first token starting exactly there; without one,
    /// the first executable token of the line. On a match the breakpoint is
    /// recorded under a fresh id and returned; otherwise nothing changes.
    pub fn add_and_validate_breakpoint(&mut self, row: u32, col: Option<u32>) -> (r: Option<
        BrainfuckBreakpoint,
    >)
        requires
            old(self).wf(),
            old(self).spec_source().len() <= u32::MAX,
        ensures
            final(self).wf(),
            final(self).spec_source() == old(self).spec_source(),
            final(self).spec_filename() == old(self).spec_filename(),
            final(self).spec_launched() == old(self).spec_launched(),
            final(self).spec_ops() == old(self).spec_ops(),
            final(self).model() == old(self).model(),
            r is None ==> final(self).spec_breakpoints() == old(self).spec_breakpoints()
                && final(self).spec_breakpoint_id() == old(self).spec_breakpoint_id(),
            !(flat_scan(old(self).spec_source(), 0, ScanMode::Code) matches ScanOut::Accept(_))
                ==> r is None,
            (flat_scan(old(self).spec_source(), 0, ScanMode::Code) matches ScanOut::Accept(_))
                ==> exists|ts: Seq<Token>|
                #![trigger flat_matches(old(self).spec_source(), 0, old(self).spec_source().len() as int, ts)]
                {
                    let s = old(self).spec_source();
                    let found = match col {
                        Some(c) => first_col_match(ts, row, c, 0),
                        None => first_line_match(ts, row, 0),
                    };
                    &&& flat_matches(s, 0, s.len() as int, ts)
                    &&& match found {
                        Some(i) => {
                            let pos = match col {
                                Some(c) => Position { line: row, character: c },
                                None => ts[i].range.start,
                            };
                            &&& r == Some(
                                BrainfuckBreakpoint {
                                    position: pos,
                                    id: old(self).spec_breakpoint_id() as usize,
                                },
                            )
                            &&& final(self).spec_breakpoints() == old(self).spec_breakpoints().push(
                                BrainfuckBreakpoint {
                                    position: pos,
                                    id: old(self).spec_breakpoint_id() as usize,
                                },
                            )
                            &&& final(self).spec_breakpoint_id() == (if old(
                                self,
                            ).spec_breakpoint_id() < usize::MAX {
                                old(self).spec_breakpoint_id() + 1
                            } else {
                                old(self).spec_breakpoint_id()
                            })
                        }
                        None => r is None,
                    }
                },
    {
        let parse_result = match analyzer::flat_parse(self.source_content.as_str()) {
            Ok(p) => p,
            Err(_) => {
                return None;
            }
        };
        let ghost ts = parse_result.parse_token_group.token_group@;
        let n = parse_result.parse_token_group.token_group.len();
        let mut found: Option<usize> = None;
        match col {
            Some(c) => {
                let mut i: usize = 0;
                while i < n && found.is_none()
                    invariant
                        n == ts.len(),
                        ts == parse_result.parse_token_group.token_group@,
                        i <= n,
                        found is None ==> first_col_match(ts, row, c, 0) == first_col_match(
                            ts,
                            row,
                            c,
                            i as int,
                        ),
                        found matches Some(j) ==> first_col_match(ts, row, c, 0) == Some(j as int)
                            && j < n,
                    decreases n - i,
                {
                    let t = &parse_result.parse_token_group.token_group[i];
                    if row == t.range.start.line && c == t.range.start.character {
                        found = Some(i);
                    }
                    i = i + 1;
                }
            }
            None => {
                let mut i: usize = 0;
                while i < n && found.is_none()
                    invariant
                        n == ts.len(),
                        ts == parse_result.parse_token_group.token_group@,
                        i <= n,
                        found is None ==> first_line_match(ts, row, 0) == first_line_match(
                            ts,
                            row,
                            i as int,
                        ),
                        found matches Some(j) ==> first_line_match(ts, row, 0) == Some(j as int)
                            && j < n,
                    decreases n - i,
                {
                    if i >= 1 {
                        let prev = &parse_result.parse_token_group.token_group[i - 1];
                        let t = &parse_result.parse_token_group.token_group[i];
                        if prev.range.end.line != row && t.range.start.line == row {
                            found = Some(i);
                        }
                    }
                    i = i + 1;
                }
            }
        }
        match found {
            Some(i) => {
                let position = match col {
                    Some(c) => Position::new(row, c),
                    None => parse_result.parse_token_group.token_group[i].range.start,
                };
                let breakpoint = BrainfuckBreakpoint { position, id: self.breakpoint_id };
                if self.breakpoint_id < usize::MAX {
                    self.breakpoint_id = self.breakpoint_id + 1;
                }
                self.breakpoints.push(breakpoint);
                Some(breakpoint)
            }
            None => None,
        }
    }

    /// Parses the source, lowers it, and readies a fresh run with the
    /// validated breakpoints in force: the session stands at the first
    /// operation in the `Running` state, and moves when first driven.
    pub fn launch(&mut self) -> (r: Result<(), ParseError>)
        requires
            old(self).wf(),
            old(self).spec_source().len() <= u32::MAX,
        ensures
            final(self).wf(),
            final(self).spec_source() == old(self).spec_source(),
            final(self).spec_filename() == old(self).spec_filename(),
            final(self).spec_breakpoints() == old(self).spec_breakpoints(),
            final(self).spec_breakpoint_id() == old(self).spec_breakpoint_id(),
            match r {
                Ok(()) => {
                    &&& final(self).spec_launched()
                    &&& exists|ts: Seq<Token>|
                        analyzer::group_matches(
                            old(self).spec_source(),
                            0,
                            old(self).spec_source().len() as int,
                            ts,
                        ) && final(self).spec_ops() == ops_of_group(ts)
                    &&& final(self).model() == (DebugModel {
                        pc: 0,
                        state: InterpreterState::Running,
                        sched: true,
                        mem: Seq::new(1000nat, |i: int| 0u8),
                        head: 0,
                        input: Seq::empty(),
                        output: Seq::empty(),
                        events: Seq::empty(),
                        bps: old(self).spec_breakpoints(),
                        noticed: false,
                        done: false,
                    })
                }
                Err(e) => analyzer::err_matches(
                    e,
                    analyzer::scan(old(self).spec_source(), 0, 0, ScanMode::Code),
                ) && final(self).spec_launched() == old(self).spec_launched() && final(self).model()
                    == old(self).model(),
            },
    {
        let pr = match analyzer::parse(self.source_content.as_str()) {
            Ok(pr) => pr,
            Err(e) => {
                return Err(e);
            }
        };
        let ops = lower_group(&pr.parse_token_group);
        let n = ops.len();
        proof {
            crate::machine::lemma_ops_of_group_wf(pr.parse_token_group.token_group@);
        }
        self.ops = ops;
        self.pc = 0;
        self.state = InterpreterState::Running;
        self.sched = true;
        self.memory = BrainfuckMemory::new();
        self.user_input = Vec::new();
        self.input_read = 0;
        self.events = Vec::new();
        self.outputs = Vec::new();
        self.noticed = false;
        self.done = false;
        self.launched = true;
        proof {
            assert(self.model() == (DebugModel {
                pc: 0,
                state: InterpreterState::Running,
                sched: true,
                mem: Seq::new(1000nat, |i: int| 0u8),
                head: 0,
                input: Seq::empty(),
                output: Seq::empty(),
                events: Seq::empty(),
                bps: self.runtime_breakpoints@,
                noticed: false,
                done: false,
            })) by {
                assert(self.user_input@.skip(0) =~= Seq::<u8>::empty());
                assert(out_view(self.outputs@) =~= Seq::<(OutputCategoryEnum, Seq<char>)>::empty());
            }
        }
        self.update_runtime_breakpoints();
        proof {
            assert(self.model() == (DebugModel {
                pc: 0,
                state: InterpreterState::Running,
                sched: true,
                mem: Seq::new(1000nat, |i: int| 0u8),
                head: 0,
                input: Seq::empty(),
                output: Seq::empty(),
                events: Seq::empty(),
                bps: old(self).spec_breakpoints(),
                noticed: false,
                done: false,
            }));
        }
        Ok(())
    }

    /// Applies one command, as the scheduling step does: transitions of the
    /// run state, a breakpoint-table swap, or a position query. Does not
    /// advance execution.
    pub fn handle_command(&mut self, command: InterpreterCommand) -> (r: Option<InterpreterResponse>)
        requires
            old(self).wf(),
            old(self).spec_launched(),
        ensures
            final(self).wf(),
            final(self).spec_launched(),
            final(self).spec_source() == old(self).spec_source(),
            final(self).spec_filename() == old(self).spec_filename(),
            final(self).spec_breakpoints() == old(self).spec_breakpoints(),
            final(self).spec_breakpoint_id() == old(self).spec_breakpoint_id(),
            final(self).spec_ops() == old(self).spec_ops(),
            match command {
                InterpreterCommand::Continue => final(self).model() == (DebugModel {
                    state: InterpreterState::Running,
                    ..old(self).model()
                }) && r is None,
                InterpreterCommand::Step => final(self).model() == (DebugModel {
                    state: InterpreterState::Step,
                    ..old(self).model()
                }) && r is None,
                InterpreterCommand::Pause => final(self).model() == (DebugModel {
                    state: InterpreterState::Paused,
                    sched: false,
                    ..old(self).model()
                }) && r is None,
                InterpreterCommand::Terminate => final(self).model() == (DebugModel {
                    state: InterpreterState::Terminated,
                    ..old(self).model()
                }) && r is None,
                InterpreterCommand::UpdateBreakpoints(list) => final(self).model() == (DebugModel {
                    bps: list@,
                    ..old(self).model()
                }) && r is None,
                InterpreterCommand::GetPosition => final(self).model() == old(self).model() && r
                    == (if old(self).model().state matches InterpreterState::Paused && 0 <= old(
                    self,
                ).model().pc < old(self).spec_ops().len() {
                    Some(
                        InterpreterResponse::Position(
                            old(self).spec_ops()[old(self).model().pc].range.start,
                        ),
                    )
                } else {
                    Some(InterpreterResponse::Error)
                }),
            },
    {
        match command {
            InterpreterCommand::Continue => {
                self.state = InterpreterState::Running;
                None
            }
            InterpreterCommand::Step => {
                self.state = InterpreterState::Step;
                None
            }
            InterpreterCommand::Pause => {
                self.state = InterpreterState::Paused;
                self.sched = false;
                None
            }
            InterpreterCommand::Terminate => {
                self.state = InterpreterState::Terminated;
                None
            }
            InterpreterCommand::UpdateBreakpoints(list) => {
                self.runtime_breakpoints = list;
                None
            }
            InterpreterCommand::GetPosition => {
                if self.state == InterpreterState::Paused && self.pc < self.ops.len() {
                    Some(InterpreterResponse::Position(self.ops[self.pc].range.start))
                } else {
                    Some(InterpreterResponse::Error)
                }
            }
        }
    }

    /// Resumes a paused or input-starved session: execution continues until
    /// the next breakpoint hit, the end of the program, or another block.
    /// Reports failure once the session has delivered its final event.
    pub fn run(&mut self) -> (r: Result<(), String>)
        requires
            old(self).wf(),
        ensures
            final(self).wf(),
            final(self).spec_source() == old(self).spec_source(),
            final(self).spec_filename() == old(self).spec_filename(),
            final(self).spec_breakpoints() == old(self).spec_breakpoints(),
            final(self).spec_breakpoint_id() == old(self).spec_breakpoint_id(),
            final(self).spec_ops() == old(self).spec_ops(),
            final(self).spec_launched() == old(self).spec_launched(),
            r is Err <==> (old(self).spec_launched() && old(self).spec_done()),
            (old(self).spec_launched() && !old(self).spec_done()) ==> final(self).model() == drun(
                u64::MAX as nat,
                old(self).spec_ops(),
                DebugModel { state: InterpreterState::Running, ..old(self).model() },
            ),
            !old(self).spec_launched() ==> final(self).model() == old(self).model(),
            r is Err ==> final(self).model() == old(self).model() && (r matches Err(msg)
                && msg@ == "Debug program already finished."@),
    {
        if !self.launched {
            return Ok(());
        }
        if self.done {
            return Err("Debug program already finished.".to_owned());
        }
        self.handle_command(InterpreterCommand::Continue);
        self.resume(u64::MAX);
        Ok(())
    }

    /// Advances a paused session by exactly one token: execution steps over
    /// the token it was paused at and pauses at the next one (or completes).
    pub fn next(&mut self)
        requires
            old(self).wf(),
        ensures
            final(self).wf(),
            final(self).spec_source() == old(self).spec_source(),
            final(self).spec_filename() == old(self).spec_filename(),
            final(self).spec_breakpoints() == old(self).spec_breakpoints(),
            final(self).spec_breakpoint_id() == old(self).spec_breakpoint_id(),
            final(self).spec_ops() == old(self).spec_ops(),
            final(self).spec_launched() == old(self).spec_launched(),
            (old(self).spec_launched() && !old(self).spec_done()) ==> final(self).model() == drun(
                u64::MAX as nat,
                old(self).spec_ops(),
                DebugModel { state: InterpreterState::Step, ..old(self).model() },
            ),
            (!old(self).spec_launched() || old(self).spec_done()) ==> final(self).model() == old(
                self,
            ).model(),
    {
        if !self.launched || self.done {
            return;
        }
        self.handle_command(InterpreterCommand::Step);
        self.resume(u64::MAX);
    }

    /// Queues user-input bytes for `,` — the low eight bits of each
    /// character — and lets a session blocked on input continue.
    pub fn evaluate(&mut self, input: String)
        requires
            old(self).wf(),
        ensures
            final(self).wf(),
            final(self).spec_source() == old(self).spec_source(),
            final(self).spec_filename() == old(self).spec_filename(),
            final(self).spec_breakpoints() == old(self).spec_breakpoints(),
            final(self).spec_breakpoint_id() == old(self).spec_breakpoint_id(),
            final(self).spec_ops() == old(self).spec_ops(),
            final(self).spec_launched() == old(self).spec_launched(),
            (old(self).spec_launched() && !old(self).spec_done()) ==> final(self).model() == drun(
                u64::MAX as nat,
                old(self).spec_ops(),
                DebugModel {
                    input: old(self).model().input + bytes_of(input@),
                    ..old(self).model()
                },
            ),
            (!old(self).spec_launched() || old(self).spec_done()) ==> final(self).model() == old(
                self,
            ).model(),
    {
        if !self.launched || self.done {
            return;
        }
        let cs = analyzer::chars_of(input.as_str());
        let ghost pend0 = self.model().input;
        let mut i: usize = 0;
        while i < cs.len()
            invariant
                self.wf(),
                self.launched,
                i <= cs@.len(),
                cs@ == input@,
                self.model() == (DebugModel {
                    input: pend0 + bytes_of(cs@.take(i as int)),
                    ..old(self).model()
                }),
                self.source_content@ == old(self).spec_source(),
                self.source_file@ == old(self).spec_filename(),
                self.breakpoints@ == old(self).spec_breakpoints(),
                self.breakpoint_id == old(self).spec_breakpoint_id(),
                self.ops@ == old(self).spec_ops(),
                self.done == old(self).spec_done(),
                pend0 == old(self).model().input,
            decreases cs@.len() - i,
        {
            let c = cs[i];
            let u = c as u32;
            let b = (u % 256) as u8;
            self.user_input.push(b);
            proof {
                assert(b == char_byte(c));
                assert(cs@.take(i + 1) =~= cs@.take(i as int).push(c));
                assert(bytes_of(cs@.take(i + 1)) =~= bytes_of(cs@.take(i as int)).push(
                    char_byte(c),
                ));
                assert(self.user_input@.skip(self.input_read as int) =~= (pend0 + bytes_of(
                    cs@.take(i as int),
                )).push(char_byte(c)));
                assert((pend0 + bytes_of(cs@.take(i as int))).push(char_byte(c)) =~= pend0
                    + bytes_of(cs@.take(i + 1)));
            }
            i = i + 1;
        }
        proof {
            assert(cs@.take(cs@.len() as int) =~= cs@);
        }
        self.resume(u64::MAX);
    }

    /// Ends the session: the machine delivers its final `Terminated` stop
    /// event at the operation it was about to execute.
    pub fn terminate(&mut self)
        requires
            old(self).wf(),
        ensures
            final(self).wf(),
            final(self).spec_source() == old(self).spec_source(),
            final(self).spec_filename() == old(self).spec_filename(),
            final(self).spec_breakpoints() == old(self).spec_breakpoints(),
            final(self).spec_breakpoint_id() == old(self).spec_breakpoint_id(),
            final(self).spec_ops() == old(self).spec_ops(),
            final(self).spec_launched() == old(self).spec_launched(),
            (old(self).spec_launched() && !old(self).spec_done()) ==> final(self).model() == drun(
                u64::MAX as nat,
                old(self).spec_ops(),
                DebugModel { state: InterpreterState::Terminated, ..old(self).model() },
            ),
            (!old(self).spec_launched() || old(self).spec_done()) ==> final(self).model() == old(
                self,
            ).model(),
    {
        if !self.launched || self.done {
            return;
        }
        self.handle_command(InterpreterCommand::Terminate);
        self.resume(u64::MAX);
    }

    /// The start position of the token the session is paused at.
    pub fn get_position(&mut self) -> (r: Result<Position, String>)
        requires
            old(self).wf(),
        ensures
            final(self).wf(),
            *final(self) == *old(self),
            if !old(self).spec_launched() || old(self).spec_done() {
                r matches Err(msg) && msg@ == "Debug program already finished."@
            } else if old(self).model().state matches InterpreterState::Paused && 0 <= old(
                self,
            ).model().pc < old(self).spec_ops().len() {
                r == Ok::<Position, String>(
                    old(self).spec_ops()[old(self).model().pc].range.start,
                )
            } else {
                r matches Err(msg) && msg@ == "Invalid response from get_position"@
            },
    {
        if !self.launched || self.done {
            return Err("Debug program already finished.".to_owned());
        }
        if self.state == InterpreterState::Paused && self.pc < self.ops.len() {
            Ok(self.ops[self.pc].range.start)
        } else {
            Err("Invalid response from get_position".to_owned())
        }
    }

    /// Reads a window of the tape for memory inspection; cells past the
    /// tape's end read as zero.
    pub fn read_memory(&self, start: usize, count: usize) -> (r: Vec<u8>)
        ensures
            r@.len() == count,
            forall|k: int|
                0 <= k < count ==> r@[k] == (if start + k < self.model().mem.len() {
                    self.model().mem[start + k]
                } else {
                    0u8
                }),
    {
        self.memory.read_range(start, count)
    }

    /// The source name and one-based line and column of the paused token,
    /// for a stack-frame view; nothing unless the session is paused.
    pub fn get_stack_frame(&self) -> (r: Option<(String, u32, u32)>)
        ensures
            match r {
                Some(f) => {
                    &&& self.spec_launched() && !self.spec_done()
                    &&& self.model().state matches InterpreterState::Paused
                    &&& 0 <= self.model().pc < self.spec_ops().len()
                    &&& f.0@ == self.spec_filename()
                    &&& ({
                        let p = self.spec_ops()[self.model().pc].range.start;
                        &&& f.1 == (if p.line == u32::MAX {
                            u32::MAX
                        } else {
                            (p.line + 1) as u32
                        })
                        &&& f.2 == (if p.character == u32::MAX {
                            u32::MAX
                        } else {
                            (p.character + 1) as u32
                        })
                    })
                }
                None => !(self.spec_launched() && !self.spec_done() && (
                self.model().state matches InterpreterState::Paused) && 0 <= self.model().pc
                    < self.spec_ops().len()),
            },
    {
        if self.launched && !self.done && self.state == InterpreterState::Paused && self.pc
            < self.ops.len() {
            let p = self.ops[self.pc].range.start;
            let line = if p.line == u32::MAX {
                u32::MAX
            } else {
                p.line + 1
            };
            let character = if p.character == u32::MAX {
                u32::MAX
            } else {
                p.character + 1
            };
            Some((self.source_file.clone(), line, character))
        } else {
            None
        }
    }

    /// Drives the session for at most `fuel` debug-machine steps; stops
    /// early when the machine blocks (paused, awaiting input, or done).
    fn resume(&mut self, fuel: u64)
        requires
            old(self).wf(),
            old(self).spec_launched(),
        ensures
            final(self).wf(),
            final(self).spec_launched(),
            final(self).spec_source() == old(self).spec_source(),
            final(self).spec_filename() == old(self).spec_filename(),
            final(self).spec_breakpoints() == old(self).spec_breakpoints(),
            final(self).spec_breakpoint_id() == old(self).spec_breakpoint_id(),
            final(self).spec_ops() == old(self).spec_ops(),
            final(self).model() == drun(fuel as nat, old(self).spec_ops(), old(self).model()),
    {
        let ghost ops = self.ops@;
        let ghost m0 = self.model();
        let mut left: u64 = fuel;
        loop
            invariant
                self.wf(),
                self.launched,
                self.ops@ == ops,
                self.source_content@ == old(self).spec_source(),
                self.source_file@ == old(self).spec_filename(),
                self.breakpoints@ == old(self).spec_breakpoints(),
                self.breakpoint_id == old(self).spec_breakpoint_id(),
                m0 == old(self).model(),
                ops == old(self).spec_ops(),
                left <= fuel,
                drun(fuel as nat, ops, m0) == drun(left as nat, ops, self.model()),
            decreases left,
        {
            let ghost mcur = self.model();
            let blocked = if self.done {
                true
            } else if self.state == InterpreterState::Paused {
                true
            } else if !self.sched && (self.state == InterpreterState::Running || self.state
                == InterpreterState::Step) && self.pc < self.ops.len() {
                let k = self.ops[self.pc].kind;
                match k {
                    OpCode::In => self.input_read >= self.user_input.len() && self.noticed,
                    _ => false,
                }
            } else {
                false
            };
            if blocked {
                proof {
                    assert(dblocked(ops, mcur));
                }
                return;
            }
            if left == 0 {
                return;
            }
            left = left - 1;
            proof {
                assert(!dblocked(ops, mcur));
            }
            if self.state == InterpreterState::Terminated {
                let ev_pos = if self.pc < self.ops.len() {
                    Some(self.ops[self.pc].range.start)
                } else {
                    None
                };
                self.events.push(
                    StoppedEvent {
                        reason: StoppedReasonEnum::Terminated,
                        position: ev_pos,
                        breakpoint_id: None,
                    },
                );
                self.done = true;
                proof {
                    assert(self.model() == dstep(ops, mcur));
                }
            } else if self.pc == self.ops.len() {
                self.events.push(
                    StoppedEvent {
                        reason: StoppedReasonEnum::Complete,
                        position: None,
                        breakpoint_id: None,
                    },
                );
                self.done = true;
                proof {
                    assert(self.model() == dstep(ops, mcur));
                }
            } else if self.sched {
                let op = self.ops[self.pc];
                let sched_ok = match op.kind {
                    OpCode::Test(_) => false,
                    OpCode::Back(_) => false,
                    _ => true,
                };
                if sched_ok && self.state == InterpreterState::Running {
                    let start = op.range.start;
                    let ghost evold = self.events@;
                    let ghost bps = self.runtime_breakpoints@;
                    let ghost pre = *self;
                    let mut matched = false;
                    let mut bi: usize = 0;
                    while bi < self.runtime_breakpoints.len()
                        invariant
                            bps == self.runtime_breakpoints@,
                            bi <= bps.len(),
                            start == op.range.start,
                            self.events@ == evold + bp_events(bps.take(bi as int), start),
                            matched == (bp_events(bps.take(bi as int), start).len() > 0),
                            self.pc == pre.pc,
                            self.state == pre.state,
                            self.sched == pre.sched,
                            self.ops@ == pre.ops@,
                            self.launched == pre.launched,
                            self.memory == pre.memory,
                            self.user_input@ == pre.user_input@,
                            self.input_read == pre.input_read,
                            self.outputs@ == pre.outputs@,
                            self.noticed == pre.noticed,
                            self.done == pre.done,
                            self.source_content@ == pre.source_content@,
                            self.source_file@ == pre.source_file@,
                            self.breakpoints@ == pre.breakpoints@,
                            self.breakpoint_id == pre.breakpoint_id,
                            self.runtime_breakpoints@ == pre.runtime_breakpoints@,
                        decreases bps.len() - bi,
                    {
                        let bp = self.runtime_breakpoints[bi];
                        if bp.position == start {
                            self.events.push(
                                StoppedEvent {
                                    reason: StoppedReasonEnum::Breakpoint,
                                    position: Some(bp.position),
                                    breakpoint_id: Some(bp.id),
                                },
                            );
                            matched = true;
                        }
                        proof {
                            assert(bps.take(bi + 1) =~= bps.take(bi as int).push(bps[bi as int]));
                            lemma_bp_events_snoc(bps.take(bi as int), bps[bi as int], start);
                            if bp.position == start {
                                assert(self.events@ =~= evold + bp_events(bps.take(bi + 1), start));
                            } else {
                                assert(bp_events(bps.take(bi + 1), start) =~= bp_events(
                                    bps.take(bi as int),
                                    start,
                                ));
                            }
                        }
                        bi = bi + 1;
                    }
                    proof {
                        assert(bps.take(bps.len() as int) =~= bps);
                    }
                    self.sched = false;
                    if matched {
                        self.state = InterpreterState::Paused;
                        proof {
                            assert(self.model() == dstep(ops, mcur));
                        }
                    } else {
                        proof {
                            assert(self.events@ =~= evold);
                            assert(self.model() == dstep(ops, mcur));
                        }
                    }
                } else if sched_ok && self.state == InterpreterState::Step {
                    self.events.push(
                        StoppedEvent {
                            reason: StoppedReasonEnum::Step,
                            position: Some(op.range.start),
                            breakpoint_id: None,
                        },
                    );
                    self.state = InterpreterState::Paused;
                    self.sched = false;
                    proof {
                        assert(self.model() == dstep(ops, mcur));
                    }
                } else {
                    self.sched = false;
                    proof {
                        assert(self.model() == dstep(ops, mcur));
                    }
                }
            } else {
                let op = self.ops[self.pc];
                match op.kind {
                    OpCode::Right => {
                        match self.memory.shift_right() {
                            Ok(()) => {
                                self.pc = self.pc + 1;
                                self.sched = true;
                                proof {
                                    assert(self.model() == dstep(ops, mcur));
                                }
                            }
                            Err(_) => {
                                self.events.push(
                                    StoppedEvent {
                                        reason: StoppedReasonEnum::Terminated,
                                        position: Some(op.range.start),
                                        breakpoint_id: None,
                                    },
                                );
                                self.state = InterpreterState::Terminated;
                                self.done = true;
                                proof {
                                    assert(self.model() == dstep(ops, mcur));
                                }
                            }
                        }
                    }
                    OpCode::Left => {
                        match self.memory.shift_left() {
                            Ok(()) => {
                                self.pc = self.pc + 1;
                                self.sched = true;
                                proof {
                                    assert(self.model() == dstep(ops, mcur));
                                }
                            }
                            Err(_) => {
                                self.events.push(
                                    StoppedEvent {
                                        reason: StoppedReasonEnum::Terminated,
                                        position: Some(op.range.start),
                                        breakpoint_id: None,
                                    },
                                );
                                self.state = InterpreterState::Terminated;
                                self.done = true;
                                proof {
                                    assert(self.model() == dstep(ops, mcur));
                                }
                            }
                        }
                    }
                    OpCode::Inc => {
                        self.memory.inc();
                        self.pc = self.pc + 1;
                        self.sched = true;
                        proof {
                            assert(self.model() == dstep(ops, mcur));
                        }
                    }
                    OpCode::Dec => {
                        self.memory.dec();
                        self.pc = self.pc + 1;
                        self.sched = true;
                        proof {
                            assert(self.model() == dstep(ops, mcur));
                        }
                    }
                    OpCode::Out => {
                        let b = self.memory.read(self.memory.index);
                        let text = byte_string(b);
                        self.outputs.push(OutputEvent { category: OutputCategoryEnum::StdOut, text });
                        self.pc = self.pc + 1;
                        self.sched = true;
                        proof {
                            assert(out_view(self.outputs@) =~= mcur.output.push(
                                (OutputCategoryEnum::StdOut, seq![(mcur.mem[mcur.head] as char)]),
                            ));
                            assert(self.model() == dstep(ops, mcur));
                        }
                    }
                    OpCode::In => {
                        if self.input_read < self.user_input.len() {
                            let b = self.user_input[self.input_read];
                            self.memory.write(self.memory.index, b);
                            self.input_read = self.input_read + 1;
                            self.noticed = false;
                            self.pc = self.pc + 1;
                            self.sched = true;
                            proof {
                                assert(self.user_input@.skip(self.input_read as int)
                                    =~= mcur.input.drop_first());
                                assert(self.model() == dstep(ops, mcur));
                            }
                        } else {
                            let text = "Waiting for user input".to_owned();
                            self.outputs.push(
                                OutputEvent { category: OutputCategoryEnum::Console, text },
                            );
                            self.noticed = true;
                            proof {
                                assert(out_view(self.outputs@) =~= mcur.output.push(
                                    (OutputCategoryEnum::Console, "Waiting for user input"@),
                                ));
                                assert(self.model() == dstep(ops, mcur));
                            }
                        }
                    }
                    OpCode::Note => {
                        self.pc = self.pc + 1;
                        self.sched = true;
                        proof {
                            assert(self.model() == dstep(ops, mcur));
                        }
                    }
                    OpCode::Enter => {
                        self.pc = self.pc + 1;
                        self.sched = true;
                        proof {
                            assert(self.model() == dstep(ops, mcur));
                        }
                    }
                    OpCode::Test(d) => {
                        let b = self.memory.read(self.memory.index);
                        if b == 0 {
                            proof {
                                assert(self.pc + d + 2 <= self.ops@.len());
                            }
                            self.pc = self.pc + d + 2;
                            self.sched = true;
                            proof {
                                assert(self.model() == dstep(ops, mcur));
                            }
                        } else {
                            self.pc = self.pc + 1;
                            self.sched = true;
                            proof {
                                assert(self.model() == dstep(ops, mcur));
                            }
                        }
                    }
                    OpCode::Back(d) => {
                        proof {
                            assert(d + 1 <= self.pc as int);
                        }
                        self.pc = self.pc - d - 1;
                        self.sched = true;
                        proof {
                            assert(self.model() == dstep(ops, mcur));
                        }
                    }
                }
            }
            proof {
                assert(drun((left + 1) as nat, ops, mcur) == drun(left as nat, ops, self.model()));
            }
        }
    }
}

} // verus!
