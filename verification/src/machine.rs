//! Stepping through a bus program one pin action at a time.
//!
//! A bus program is a sequence of [`Instr`]uctions over the lines of one bus.
//! A [`Sequencer`] holds such a program and decides, from the levels it is
//! handed back, what the owner of the pins has to do next: drive a line,
//! wait, sample a line, stop because an expected level was not seen, or
//! finish. Every level sampled by a [`Instr::Sample`] is recorded in order.
//! When a pin fails to perform an action, the owner reports it with
//! [`Sequencer::fail`], and the program stops there for good.

use vstd::prelude::*;

verus! {

/// Why a bus program stopped before its end.
#[derive(Debug, Clone, Copy, PartialEq, Eq, Structural)]
pub enum Fault {
    /// The slave did not pull the data line low in the acknowledge slot.
    NoAck,
    /// A stop bit sampled low.
    FrameFormat,
    /// A pin reported an error while performing an action.
    Pin,
}

/// One instruction of a bus program over lines of type `L`.
#[derive(Debug, Clone, Copy, PartialEq, Eq)]
pub enum Instr<L> {
    /// Drive the line high (`true`) or low (`false`).
    Drive(L, bool),
    /// Wait the given number of nanoseconds.
    Wait(u32),
    /// Sample whether the line is high and record the level as a data bit.
    Sample(L),
    /// Sample whether the line is low and remember it as the acknowledge.
    SampleAck(L),
    /// Stop with [`Fault::NoAck`] unless the last acknowledge sample was low.
    RequireAck,
    /// Sample whether the line is high, again and again, until it reads low.
    AwaitLow(L),
    /// Sample whether the line is high; stop with [`Fault::FrameFormat`] if not.
    RequireHigh(L),
}

/// What the owner of the pins has to do next.
#[derive(Debug, Clone, Copy, PartialEq, Eq)]
pub enum Action<L> {
    /// Drive the line high (`true`) or low (`false`).
    Drive(L, bool),
    /// Wait the given number of nanoseconds.
    Wait(u32),
    /// Ask the line whether it is high and hand the answer to
    /// [`Sequencer::deliver`].
    ReadHigh(L),
    /// Ask the line whether it is low and hand the answer to
    /// [`Sequencer::deliver`].
    ReadLow(L),
    /// The program ran to its end.
    Done,
    /// The program stopped early.
    Failed(Fault),
}

/// The abstract state of a [`Sequencer`].
pub struct SeqModel<L> {
    /// The program being run.
    pub program: Seq<Instr<L>>,
    /// The index of the current instruction.
    pub pc: nat,
    /// A read of the current instruction's line was handed out and its level
    /// has not been delivered yet.
    pub pending: bool,
    /// The outcome of the last acknowledge sample.
    pub ack: bool,
    /// The fault the program stopped with, if any.
    pub fault: Option<Fault>,
    /// The levels recorded by the sample instructions run so far, in order.
    pub samples: Seq<bool>,
}

/// Whether the instruction asks for a line to be read.
pub open spec fn is_read<L>(i: Instr<L>) -> bool {
    match i {
        Instr::Sample(_) | Instr::SampleAck(_) | Instr::AwaitLow(_) | Instr::RequireHigh(_) => true,
        _ => false,
    }
}

/// The read action of a reading instruction.
pub open spec fn read_action<L>(i: Instr<L>) -> Action<L> {
    match i {
        Instr::Sample(l) => Action::ReadHigh(l),
        Instr::AwaitLow(l) => Action::ReadHigh(l),
        Instr::RequireHigh(l) => Action::ReadHigh(l),
        Instr::SampleAck(l) => Action::ReadLow(l),
        _ => Action::Done,
    }
}

/// The state of a sequencer that has not started running `program`.
pub open spec fn start_model<L>(program: Seq<Instr<L>>) -> SeqModel<L> {
    SeqModel { program, pc: 0, pending: false, ack: false, fault: None, samples: Seq::empty() }
}

/// The state after moving past the current instruction.
pub open spec fn advance<L>(m: SeqModel<L>) -> SeqModel<L> {
    SeqModel { pc: m.pc + 1, ..m }
}

/// The next action of a sequencer in state `m`, and the state it moves to.
pub open spec fn next_model<L>(m: SeqModel<L>) -> (SeqModel<L>, Action<L>)
    decreases m.program.len() - m.pc,
{
    if m.fault is Some {
        (m, Action::Failed(m.fault->0))
    } else if m.pending {
        (m, read_action(m.program[m.pc as int]))
    } else if m.pc >= m.program.len() {
        (m, Action::Done)
    } else {
        match m.program[m.pc as int] {
            Instr::Drive(l, high) => (advance(m), Action::Drive(l, high)),
            Instr::Wait(ns) => (advance(m), Action::Wait(ns)),
            Instr::RequireAck => {
                if m.ack {
                    next_model(advance(m))
                } else {
                    (SeqModel { fault: Some(Fault::NoAck), ..m }, Action::Failed(Fault::NoAck))
                }
            },
            i => (SeqModel { pending: true, ..m }, read_action(i)),
        }
    }
}

/// The state of a sequencer in state `m` after it is handed the level `level`.
pub open spec fn deliver_model<L>(m: SeqModel<L>, level: bool) -> SeqModel<L> {
    if !m.pending {
        m
    } else {
        let m1 = SeqModel { pending: false, ..m };
        match m.program[m.pc as int] {
            Instr::Sample(_) => SeqModel { samples: m.samples.push(level), ..advance(m1) },
            Instr::SampleAck(_) => SeqModel { ack: level, ..advance(m1) },
            Instr::AwaitLow(_) => if level {
                m1
            } else {
                advance(m1)
            },
            Instr::RequireHigh(_) => if level {
                advance(m1)
            } else {
                SeqModel { fault: Some(Fault::FrameFormat), ..m1 }
            },
            _ => m1,
        }
    }
}

/// The state of a sequencer in state `m` after a pin failed to perform the
/// action last handed out: the program stops with [`Fault::Pin`] unless it
/// had already stopped.
pub open spec fn fail_model<L>(m: SeqModel<L>) -> SeqModel<L> {
    if m.fault is Some {
        m
    } else {
        SeqModel { fault: Some(Fault::Pin), pending: false, ..m }
    }
}

/// Steps through a bus program, one pin action at a time.
pub struct Sequencer<L> {
    program: Vec<Instr<L>>,
    pc: usize,
    pending: bool,
    ack: bool,
    fault: Option<Fault>,
    samples: Vec<bool>,
}

impl<L> View for Sequencer<L> {
    type V = SeqModel<L>;

    closed spec fn view(&self) -> SeqModel<L> {
        SeqModel {
            program: self.program@,
            pc: self.pc as nat,
            pending: self.pending,
            ack: self.ack,
            fault: self.fault,
            samples: self.samples@,
        }
    }
}

impl<L> Sequencer<L> {
    #[verifier::type_invariant]
    closed spec fn well_formed(&self) -> bool {
        &&& self.pc <= self.program.len()
        &&& self.pending ==> self.pc < self.program.len() && is_read(self.program@[self.pc as int])
        &&& self.fault is Some ==> !self.pending
    }
}

impl<L: Copy> Sequencer<L> {

    /// Start running `program` from its first instruction.
    pub fn new(program: Vec<Instr<L>>) -> (s: Self)
        ensures
            s@ == start_model(program@),
    {
        Sequencer { program, pc: 0, pending: false, ack: false, fault: None, samples: Vec::new() }
    }

    fn current_read(&self) -> (a: Action<L>)
        requires
            self.pc < self.program.len(),
        ensures
            a == read_action(self.program@[self.pc as int]),
    {
        match self.program[self.pc] {
            Instr::Sample(l) => Action::ReadHigh(l),
            Instr::AwaitLow(l) => Action::ReadHigh(l),
            Instr::RequireHigh(l) => Action::ReadHigh(l),
            Instr::SampleAck(l) => Action::ReadLow(l),
            _ => Action::Done,
        }
    }

    /// The next thing to do. A read action is handed out again, unchanged,
    /// until its level has been delivered.
    pub fn next(&mut self) -> (a: Action<L>)
        ensures
            (final(self)@, a) == next_model(old(self)@),
    {
        proof {
            use_type_invariant(&*self);
        }
        if let Some(f) = self.fault {
            return Action::Failed(f);
        }
        if self.pending {
            return self.current_read();
        }
        loop
            invariant
                next_model(self@) == next_model(old(self)@),
                self.fault is None,
                !self.pending,
            decreases self.program.len() - self.pc,
        {
            proof {
                use_type_invariant(&*self);
            }
            if self.pc >= self.program.len() {
                return Action::Done;
            }
            match self.program[self.pc] {
                Instr::Drive(l, high) => {
                    self.pc = self.pc + 1;
                    return Action::Drive(l, high);
                },
                Instr::Wait(ns) => {
                    self.pc = self.pc + 1;
                    return Action::Wait(ns);
                },
                Instr::RequireAck => {
                    if self.ack {
                        self.pc = self.pc + 1;
                    } else {
                        self.fault = Some(Fault::NoAck);
                        return Action::Failed(Fault::NoAck);
                    }
                },
                _ => {
                    let a = self.current_read();
                    self.pending = true;
                    return a;
                },
            }
        }
    }

    /// Hand over the level read for the action last handed out. Without a
    /// read outstanding this does nothing.
    pub fn deliver(&mut self, level: bool)
        ensures
            final(self)@ == deliver_model(old(self)@, level),
    {
        proof {
            use_type_invariant(&*self);
        }
        if !self.pending {
            return;
        }
        match self.program[self.pc] {
            Instr::Sample(_) => {
                let mut recorded = Vec::new();
                std::mem::swap(&mut recorded, &mut self.samples);
                recorded.push(level);
                self.samples = recorded;
                self.pending = false;
                self.pc = self.pc + 1;
            },
            Instr::SampleAck(_) => {
                self.ack = level;
                self.pending = false;
                self.pc = self.pc + 1;
            },
            Instr::AwaitLow(_) => {
                self.pending = false;
                if !level {
                    self.pc = self.pc + 1;
                }
            },
            Instr::RequireHigh(_) => {
                self.pending = false;
                if level {
                    self.pc = self.pc + 1;
                } else {
                    self.fault = Some(Fault::FrameFormat);
                }
            },
            _ => {
                self.pending = false;
            },
        }
    }

    /// Report that a pin failed to perform the action last handed out. From
    /// then on every action is [`Action::Failed`], and nothing else is
    /// handed out.
    pub fn fail(&mut self)
        ensures
            final(self)@ == fail_model(old(self)@),
    {
        proof {
            use_type_invariant(&*self);
        }
        if self.fault.is_none() {
            self.pending = false;
            self.fault = Some(Fault::Pin);
        }
    }

    /// The levels recorded by the sample instructions run so far, in order.
    pub fn samples(&self) -> (s: &Vec<bool>)
        ensures
            s@ == self@.samples,
    {
        &self.samples
    }
}

/// Running from state `m` for at most `fuel` steps, answering the reads in
/// order from `answers`; the run stops at the end of the program, at a
/// fault, or when a read finds no answer left.
pub open spec fn run_model<L>(m: SeqModel<L>, answers: Seq<bool>, fuel: nat) -> SeqModel<L>
    decreases fuel,
{
    if fuel == 0 {
        m
    } else {
        let (m1, a) = next_model(m);
        match a {
            Action::Done => m1,
            Action::Failed(_) => m1,
            Action::ReadHigh(_) | Action::ReadLow(_) => if answers.len() == 0 {
                m1
            } else {
                run_model(deliver_model(m1, answers[0]), answers.drop_first(), (fuel - 1) as nat)
            },
            _ => run_model(m1, answers, (fuel - 1) as nat),
        }
    }
}

/// Whether every instruction only drives, waits or samples.
pub open spec fn is_straight<L>(p: Seq<Instr<L>>) -> bool {
    forall|i: int| 0 <= i < p.len() ==> (#[trigger] p[i] is Drive || p[i] is Wait || p[i] is Sample)
}

/// The number of sample instructions in `p[i..]`.
pub open spec fn samples_from<L>(p: Seq<Instr<L>>, i: int) -> nat
    decreases p.len() - i,
{
    if i >= p.len() || i < 0 {
        0
    } else {
        samples_from(p, i + 1) + if p[i] is Sample {
            1nat
        } else {
            0nat
        }
    }
}

/// The number of sample instructions in `p`.
pub open spec fn sample_count<L>(p: Seq<Instr<L>>) -> nat {
    samples_from(p, 0)
}

proof fn lemma_straight_run_from<L>(m: SeqModel<L>, answers: Seq<bool>)
    requires
        is_straight(m.program),
        m.pc <= m.program.len(),
        !m.pending,
        m.fault is None,
        answers.len() == samples_from(m.program, m.pc as int),
    ensures
        ({
            let r = run_model(m, answers, (m.program.len() - m.pc) as nat);
            &&& r.pc == m.program.len()
            &&& r.fault is None
            &&& !r.pending
            &&& r.samples == m.samples + answers
            &&& r.program == m.program
        }),
    decreases m.program.len() - m.pc,
{
    let fuel = (m.program.len() - m.pc) as nat;
    if m.pc == m.program.len() {
        assert(answers =~= Seq::<bool>::empty());
        if fuel > 0 {
            assert(false);
        }
        assert(m.samples + answers =~= m.samples);
    } else {
        let i = m.pc as int;
        assert(m.program[i] is Drive || m.program[i] is Wait || m.program[i] is Sample);
        let (m1, a) = next_model(m);
        if m.program[i] is Sample {
            assert(answers.len() >= 1);
            let m2 = deliver_model(m1, answers[0]);
            assert(m2.pc == m.pc + 1);
            assert(m2.samples == m.samples.push(answers[0]));
            lemma_straight_run_from(m2, answers.drop_first());
            assert(m.samples.push(answers[0]) + answers.drop_first() =~= m.samples + answers);
        } else {
            lemma_straight_run_from(m1, answers);
        }
    }
}

/// A program that only drives, waits and samples runs to its end, with no
/// fault, when each of its reads is answered, and the levels it records
/// are exactly the answers, in order.
pub proof fn lemma_straight_program_runs<L>(program: Seq<Instr<L>>, answers: Seq<bool>)
    requires
        is_straight(program),
        answers.len() == sample_count(program),
    ensures
        ({
            let r = run_model(start_model(program), answers, program.len());
            &&& r.pc == program.len()
            &&& r.fault is None
            &&& r.samples == answers
        }),
{
    lemma_straight_run_from(start_model(program), answers);
    assert(Seq::<bool>::empty() + answers =~= answers);
}

proof fn lemma_samples_from_suffix<L>(a: Seq<Instr<L>>, b: Seq<Instr<L>>, j: int)
    requires
        0 <= j <= b.len(),
    ensures
        samples_from(a + b, a.len() + j) == samples_from(b, j),
    decreases b.len() - j,
{
    if j < b.len() {
        lemma_samples_from_suffix(a, b, j + 1);
        assert((a + b)[a.len() + j] == b[j]);
    }
}

proof fn lemma_samples_from_concat<L>(a: Seq<Instr<L>>, b: Seq<Instr<L>>, i: int)
    requires
        0 <= i <= a.len(),
    ensures
        samples_from(a + b, i) == samples_from(a, i) + samples_from(b, 0),
    decreases a.len() - i,
{
    if i == a.len() {
        lemma_samples_from_suffix(a, b, 0);
    } else {
        lemma_samples_from_concat(a, b, i + 1);
        assert((a + b)[i] == a[i]);
    }
}

/// Sample counts add up over concatenation.
pub proof fn lemma_sample_count_concat<L>(a: Seq<Instr<L>>, b: Seq<Instr<L>>)
    ensures
        sample_count(a + b) == sample_count(a) + sample_count(b),
{
    lemma_samples_from_concat(a, b, 0);
}

/// Concatenating straight programs gives a straight program.
pub proof fn lemma_straight_concat<L>(a: Seq<Instr<L>>, b: Seq<Instr<L>>)
    requires
        is_straight(a),
        is_straight(b),
    ensures
        is_straight(a + b),
{
    assert forall|i: int| 0 <= i < (a + b).len() implies (#[trigger] (a + b)[i] is Drive || (a + b)[i] is Wait
        || (a + b)[i] is Sample) by {
        if i < a.len() {
            assert((a + b)[i] == a[i]);
        } else {
            assert((a + b)[i] == b[i - a.len()]);
        }
    }
}

/// Whether every instruction of `p[lo..hi]` only drives, waits or samples.
pub open spec fn straight_between<L>(p: Seq<Instr<L>>, lo: int, hi: int) -> bool {
    forall|i: int| lo <= i < hi ==> (#[trigger] p[i] is Drive || p[i] is Wait || p[i] is Sample)
}

/// The number of sample instructions in `p[lo..hi]`.
pub open spec fn samples_between<L>(p: Seq<Instr<L>>, lo: int, hi: int) -> nat
    decreases hi - lo,
{
    if lo >= hi {
        0
    } else {
        samples_between(p, lo + 1, hi) + if p[lo] is Sample {
            1nat
        } else {
            0nat
        }
    }
}

/// Running through a stretch of instructions that only drive, wait and
/// sample takes one step per instruction and records the next answers, one
/// per sample; the run then goes on from the end of the stretch.
pub proof fn lemma_run_straight_stretch<L>(m: SeqModel<L>, answers: Seq<bool>, hi: int, extra: nat)
    requires
        m.pc <= hi <= m.program.len(),
        straight_between(m.program, m.pc as int, hi),
        !m.pending,
        m.fault is None,
        answers.len() >= samples_between(m.program, m.pc as int, hi),
    ensures
        ({
            let c = samples_between(m.program, m.pc as int, hi) as int;
            run_model(m, answers, ((hi - m.pc) + extra) as nat) == run_model(
                SeqModel { pc: hi as nat, samples: m.samples + answers.take(c), ..m },
                answers.skip(c),
                extra,
            )
        }),
    decreases hi - m.pc,
{
    let c = samples_between(m.program, m.pc as int, hi) as int;
    if m.pc == hi {
        assert(m.samples + answers.take(0) =~= m.samples);
        assert(answers.skip(0) =~= answers);
        assert(SeqModel { pc: hi as nat, samples: m.samples + answers.take(c), ..m } == m);
    } else {
        let i = m.pc as int;
        assert(m.program[i] is Drive || m.program[i] is Wait || m.program[i] is Sample);
        let fuel = ((hi - m.pc) + extra) as nat;
        let (m1, a) = next_model(m);
        if m.program[i] is Sample {
            let m2 = deliver_model(m1, answers[0]);
            assert(run_model(m, answers, fuel) == run_model(m2, answers.drop_first(), (fuel - 1) as nat));
            lemma_run_straight_stretch(m2, answers.drop_first(), hi, extra);
            assert(m.samples.push(answers[0]) + answers.drop_first().take(c - 1) =~= m.samples + answers.take(c));
            assert(answers.drop_first().skip(c - 1) =~= answers.skip(c));
        } else {
            assert(run_model(m, answers, fuel) == run_model(m1, answers, (fuel - 1) as nat));
            lemma_run_straight_stretch(m1, answers, hi, extra);
        }
    }
}

/// Waiting for a line to read low: `idle` high answers keep the run at the
/// waiting instruction, one step each; the low answer moves it on.
pub proof fn lemma_run_await_low<L>(m: SeqModel<L>, idle: nat, rest: Seq<bool>, extra: nat)
    requires
        m.pc < m.program.len(),
        m.program[m.pc as int] is AwaitLow,
        !m.pending,
        m.fault is None,
    ensures
        run_model(m, Seq::new(idle, |i: int| true) + seq![false] + rest, idle + 1 + extra) == run_model(
            advance(m),
            rest,
            extra,
        ),
    decreases idle,
{
    let answers = Seq::new(idle, |i: int| true) + seq![false] + rest;
    let (m1, a) = next_model(m);
    assert(a is ReadHigh);
    if idle == 0 {
        assert(answers[0] == false);
        assert(deliver_model(m1, false) == advance(m));
        assert(answers.drop_first() =~= rest);
    } else {
        assert(answers[0] == true);
        assert(deliver_model(m1, true) == m);
        assert(answers.drop_first() =~= Seq::new((idle - 1) as nat, |i: int| true) + seq![false] + rest);
        lemma_run_await_low(m, (idle - 1) as nat, rest, extra);
    }
}

/// Whether the instruction is one of those a bus with acknowledge checks
/// uses: drive, wait, sample, acknowledge sample, acknowledge check.
pub open spec fn is_acked_kind<L>(i: Instr<L>) -> bool {
    i is Drive || i is Wait || i is Sample || i is SampleAck || i is RequireAck
}

/// Every acknowledge check of `p` comes four instructions after an
/// acknowledge sample.
pub open spec fn checks_follow_samples<L>(p: Seq<Instr<L>>) -> bool {
    forall|i: int| 0 <= i < p.len() && #[trigger] p[i] is RequireAck ==> i >= 4 && p[i - 4] is SampleAck
}

/// The answers a run of `p[lo..]` receives when every acknowledge is seen
/// and the data samples read `data`, in order.
pub open spec fn acked_answers<L>(p: Seq<Instr<L>>, lo: int, data: Seq<bool>) -> Seq<bool>
    decreases p.len() - lo,
{
    if lo >= p.len() || lo < 0 {
        Seq::empty()
    } else {
        match p[lo] {
            Instr::SampleAck(_) => seq![true] + acked_answers(p, lo + 1, data),
            Instr::Sample(_) => seq![data[0]] + acked_answers(p, lo + 1, data.drop_first()),
            _ => acked_answers(p, lo + 1, data),
        }
    }
}

proof fn lemma_acked_run_from<L>(m: SeqModel<L>, data: Seq<bool>, fuel: nat)
    requires
        m.pc <= m.program.len(),
        !m.pending,
        m.fault is None,
        forall|i: int| m.pc <= i < m.program.len() ==> is_acked_kind(#[trigger] m.program[i]),
        forall|i: int|
            m.pc <= i < m.program.len() && #[trigger] m.program[i] is RequireAck ==> m.ack || (i - 4 >= m.pc
                && m.program[i - 4] is SampleAck),
        data.len() == samples_from(m.program, m.pc as int),
        fuel > m.program.len() - m.pc,
    ensures
        ({
            let r = run_model(m, acked_answers(m.program, m.pc as int, data), fuel);
            &&& r.pc == m.program.len()
            &&& r.fault is None
            &&& r.samples == m.samples + data
        }),
    decreases m.program.len() - m.pc,
{
    let p = m.program;
    let answers = acked_answers(p, m.pc as int, data);
    if m.pc == p.len() {
        assert(m.samples + data =~= m.samples);
    } else {
        let i = m.pc as int;
        assert(is_acked_kind(p[i]));
        let (m1, a) = next_model(m);
        match p[i] {
            Instr::Sample(_) => {
                let m2 = deliver_model(m1, data[0]);
                assert(answers == seq![data[0]] + acked_answers(p, i + 1, data.drop_first()));
                assert(answers.drop_first() =~= acked_answers(p, i + 1, data.drop_first()));
                lemma_acked_run_from(m2, data.drop_first(), (fuel - 1) as nat);
                assert(m.samples.push(data[0]) + data.drop_first() =~= m.samples + data);
            },
            Instr::SampleAck(_) => {
                let m2 = deliver_model(m1, true);
                assert(answers.drop_first() =~= acked_answers(p, i + 1, data));
                lemma_acked_run_from(m2, data, (fuel - 1) as nat);
            },
            Instr::RequireAck => {
                assert(m.ack);
                assert(next_model(m) == next_model(advance(m)));
                lemma_acked_run_from(advance(m), data, fuel);
            },
            _ => {
                lemma_acked_run_from(m1, data, (fuel - 1) as nat);
            },
        }
    }
}

/// A program of drives, waits, samples and acknowledge checks, each check
/// four instructions after its acknowledge sample, runs to its end without
/// fault when every acknowledge is seen, and records the data answers in
/// order.
pub proof fn lemma_acked_program_runs<L>(program: Seq<Instr<L>>, data: Seq<bool>)
    requires
        forall|i: int| 0 <= i < program.len() ==> is_acked_kind(#[trigger] program[i]),
        checks_follow_samples(program),
        data.len() == sample_count(program),
    ensures
        ({
            let r = run_model(start_model(program), acked_answers(program, 0, data), program.len() + 1);
            &&& r.pc == program.len()
            &&& r.fault is None
            &&& r.samples == data
        }),
{
    lemma_acked_run_from(start_model(program), data, program.len() + 1);
    assert(Seq::<bool>::empty() + data =~= data);
}

/// A stretch without sample instructions records nothing.
pub proof fn lemma_samples_between_none<L>(p: Seq<Instr<L>>, lo: int, hi: int)
    requires
        forall|i: int| lo <= i < hi ==> !(#[trigger] p[i] is Sample),
    ensures
        samples_between(p, lo, hi) == 0,
    decreases hi - lo,
{
    if lo < hi {
        lemma_samples_between_none(p, lo + 1, hi);
    }
}

/// How the owner of the pins fared with an action: performed, with the
/// level read where the action reads a line, or failed at the pin.
pub enum Outcome {
    /// The action was performed; for a read, the line gave this answer.
    Performed(bool),
    /// The pin reported an error.
    PinError,
}

/// Whether the action asks the owner of the pins to do something.
pub open spec fn is_pin_action<L>(a: Action<L>) -> bool {
    a is Drive || a is Wait || a is ReadHigh || a is ReadLow
}

/// The state after the action `a`, handed out in state `m`, met outcome `o`.
pub open spec fn perform_model<L>(m: SeqModel<L>, a: Action<L>, o: Outcome) -> SeqModel<L> {
    match o {
        Outcome::PinError => fail_model(m),
        Outcome::Performed(level) => if a is ReadHigh || a is ReadLow {
            deliver_model(m, level)
        } else {
            m
        },
    }
}

/// The actions handed out by a sequencer starting in state `m` whose
/// pin actions meet `outcomes` in order, and the state it ends in. The run
/// ends with the first action that is not a pin action, or with the first
/// pin action left without an outcome.
pub open spec fn trace_model<L>(m: SeqModel<L>, outcomes: Seq<Outcome>) -> (Seq<Action<L>>, SeqModel<L>)
    decreases outcomes.len(),
{
    let (m1, a) = next_model(m);
    if !is_pin_action(a) || outcomes.len() == 0 {
        (seq![a], m1)
    } else {
        let rest = trace_model(perform_model(m1, a, outcomes[0]), outcomes.drop_first());
        (seq![a] + rest.0, rest.1)
    }
}

proof fn lemma_pin_action_leaves_no_fault<L>(m: SeqModel<L>)
    requires
        is_pin_action(next_model(m).1),
    ensures
        m.fault is None,
        next_model(m).0.fault is None,
    decreases m.program.len() - m.pc,
{
    if m.fault is None && !m.pending && m.pc < m.program.len() {
        if m.program[m.pc as int] is RequireAck && m.ack {
            lemma_pin_action_leaves_no_fault(advance(m));
        }
    }
}

/// After a pin failure the sequencer hands out nothing but the failure,
/// and delivering a level changes nothing.
pub proof fn lemma_failure_is_final<L>(m: SeqModel<L>, level: bool)
    requires
        m.fault is None,
    ensures
        next_model(fail_model(m)) == (fail_model(m), Action::<L>::Failed(Fault::Pin)),
        deliver_model(fail_model(m), level) == fail_model(m),
        fail_model(fail_model(m)) == fail_model(m),
{
}

/// A pin failure stops the run at once: when the pin actions meet their
/// outcomes in order and the `k`-th is the first to fail, either the run
/// ended on its own before reaching it, or exactly the first `k + 1` pin
/// actions were handed out (the last one being the one that failed), then
/// [`Fault::Pin`], and nothing else.
pub proof fn lemma_run_stops_at_pin_error<L>(m: SeqModel<L>, outcomes: Seq<Outcome>, k: int)
    requires
        0 <= k < outcomes.len(),
        outcomes[k] is PinError,
        forall|i: int| 0 <= i < k ==> #[trigger] outcomes[i] is Performed,
    ensures
        ({
            let (t, r) = trace_model(m, outcomes);
            ||| (t.len() <= k + 1 && !is_pin_action(t.last()))
            ||| (t.len() == k + 2 && (forall|i: int| 0 <= i <= k ==> is_pin_action(#[trigger] t[i])) && t[k
                + 1] == Action::<L>::Failed(Fault::Pin) && r.fault == Some(Fault::Pin))
        }),
    decreases k,
{
    let (m1, a) = next_model(m);
    if is_pin_action(a) {
        lemma_pin_action_leaves_no_fault(m);
        let m2 = perform_model(m1, a, outcomes[0]);
        let rest = trace_model(m2, outcomes.drop_first());
        if k == 0 {
            assert(m2 == fail_model(m1));
            assert(next_model(m2) == (m2, Action::<L>::Failed(Fault::Pin)));
            assert(rest == (seq![Action::<L>::Failed(Fault::Pin)], m2));
        } else {
            let tail = outcomes.drop_first();
            assert forall|i: int| 0 <= i < k - 1 implies #[trigger] tail[i] is Performed by {
                assert(tail[i] == outcomes[i + 1]);
            }
            lemma_run_stops_at_pin_error(m2, tail, k - 1);
            let t = seq![a] + rest.0;
            if rest.0.len() == k + 1 {
                assert forall|i: int| 0 <= i <= k implies is_pin_action(#[trigger] t[i]) by {
                    if i > 0 {
                        assert(t[i] == rest.0[i - 1]);
                    }
                }
                assert(t[k + 1] == rest.0[k]);
            } else {
                assert(t.last() == rest.0.last());
            }
        }
    }
}

} // verus!
