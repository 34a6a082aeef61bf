use bitbang_hal_ng::delay::{AsmDelay, NoopDelay};
use bitbang_hal_ng::machine::{Action, Fault, Instr, Sequencer};

#[derive(Debug, Clone, Copy, PartialEq, Eq)]
enum Line {
    A,
}

#[test]
fn sequencer_hands_out_drives_and_waits_in_order() {
    let mut s = Sequencer::new(vec![Instr::Drive(Line::A, true), Instr::Wait(5), Instr::Drive(Line::A, false)]);
    assert_eq!(s.next(), Action::Drive(Line::A, true));
    assert_eq!(s.next(), Action::Wait(5));
    assert_eq!(s.next(), Action::Drive(Line::A, false));
    assert_eq!(s.next(), Action::Done);
    assert_eq!(s.next(), Action::Done);
}

#[test]
fn sequencer_repeats_read_until_delivered() {
    let mut s = Sequencer::new(vec![Instr::Sample(Line::A), Instr::SampleAck(Line::A)]);
    assert_eq!(s.next(), Action::ReadHigh(Line::A));
    assert_eq!(s.next(), Action::ReadHigh(Line::A));
    s.deliver(true);
    assert_eq!(s.next(), Action::ReadLow(Line::A));
    s.deliver(false);
    assert_eq!(s.next(), Action::Done);
    assert_eq!(s.samples(), &vec![true]);
    // delivering without an outstanding read changes nothing
    s.deliver(true);
    assert_eq!(s.samples(), &vec![true]);
}

#[test]
fn sequencer_ack_checks() {
    let program = vec![Instr::SampleAck(Line::A), Instr::RequireAck, Instr::Wait(1)];
    let mut ok = Sequencer::new(program.clone());
    assert_eq!(ok.next(), Action::ReadLow(Line::A));
    ok.deliver(true);
    assert_eq!(ok.next(), Action::Wait(1));
    let mut bad = Sequencer::new(program);
    assert_eq!(bad.next(), Action::ReadLow(Line::A));
    bad.deliver(false);
    assert_eq!(bad.next(), Action::Failed(Fault::NoAck));
    assert_eq!(bad.next(), Action::Failed(Fault::NoAck));
    // no acknowledge was sampled before the check
    let mut none = Sequencer::new(vec![Instr::<Line>::RequireAck]);
    assert_eq!(none.next(), Action::Failed(Fault::NoAck));
}

#[test]
fn sequencer_await_low_and_require_high() {
    let mut s = Sequencer::new(vec![Instr::AwaitLow(Line::A), Instr::RequireHigh(Line::A)]);
    for _ in 0..3 {
        assert_eq!(s.next(), Action::ReadHigh(Line::A));
        s.deliver(true);
    }
    assert_eq!(s.next(), Action::ReadHigh(Line::A));
    s.deliver(false);
    assert_eq!(s.next(), Action::ReadHigh(Line::A));
    s.deliver(false);
    assert_eq!(s.next(), Action::Failed(Fault::FrameFormat));
}

#[test]
fn noop_delay_constructs() {
    assert_eq!(format!("{:?}", NoopDelay::new()), "NoopDelay");
}

#[test]
fn asm_delay_rounds_cycles_up() {
    let d = AsmDelay::new(168_000_000);
    assert_eq!(d.cpu_hz(), 168_000_000);
    // 1000 ns at 168 MHz is exactly 168 cycles
    assert_eq!(d.cycles(1_000), 168);
    // 1 ns needs a fraction of a cycle: rounded up to one
    assert_eq!(d.cycles(1), 1);
    assert_eq!(d.cycles(0), 0);
    // 7 ns at 1 GHz
    assert_eq!(AsmDelay::new(1_000_000_000).cycles(7), 7);
    // the largest request overflows 32 bits and is truncated
    let big = AsmDelay::new(u32::MAX);
    let exact = (u32::MAX as u64 * u32::MAX as u64).div_ceil(1_000_000_000);
    assert_eq!(big.cycles(u32::MAX), exact as u32);
}

#[test]
fn sequencer_pin_failure_is_final() {
    let mut s = Sequencer::new(vec![Instr::Sample(Line::A), Instr::Wait(3), Instr::Drive(Line::A, true)]);
    assert_eq!(s.next(), Action::ReadHigh(Line::A));
    s.fail();
    assert_eq!(s.next(), Action::Failed(Fault::Pin));
    s.deliver(true);
    assert_eq!(s.next(), Action::Failed(Fault::Pin));
    assert!(s.samples().is_empty());
    // a check failure stays what it was
    let mut c = Sequencer::new(vec![Instr::<Line>::RequireAck]);
    assert_eq!(c.next(), Action::Failed(Fault::NoAck));
    c.fail();
    assert_eq!(c.next(), Action::Failed(Fault::NoAck));
}
