use bitbang_hal_ng::machine::{Action, Fault, Instr, Sequencer};
use bitbang_hal_ng::serial::{self, Serial, SerialLine};

#[derive(Debug, Clone, Copy, PartialEq, Eq)]
enum PinState {
    Low,
    High,
}

/// Pin transcript of a run.
struct Run {
    tx: Vec<PinState>,
    rx_reads: usize,
    waits: Vec<u32>,
    samples: Vec<bool>,
    outcome: Result<(), Fault>,
}

/// Runs `program` with RX answering `rx` in order.
fn run(program: Vec<Instr<SerialLine>>, rx: &[PinState]) -> Run {
    let mut seq = Sequencer::new(program);
    let mut r = Run { tx: vec![], rx_reads: 0, waits: vec![], samples: vec![], outcome: Ok(()) };
    loop {
        match seq.next() {
            Action::Drive(SerialLine::Tx, h) => r.tx.push(if h { PinState::High } else { PinState::Low }),
            Action::Drive(SerialLine::Rx, _) => panic!("RX is an input"),
            Action::Wait(ns) => r.waits.push(ns),
            Action::ReadHigh(l) => {
                assert_eq!(l, SerialLine::Rx);
                let level = rx[r.rx_reads] == PinState::High;
                r.rx_reads += 1;
                seq.deliver(level);
            }
            Action::ReadLow(_) => panic!("no low reads on a serial link"),
            Action::Done => break,
            Action::Failed(f) => {
                r.outcome = Err(f);
                break;
            }
        }
    }
    r.samples = seq.samples().clone();
    r
}

/// TX levels for a byte: start bit, 8 data bits (LSB first), stop bit.
fn tx_waveform(byte: u8) -> Vec<PinState> {
    let mut transactions = vec![PinState::Low];
    let mut data = byte;
    for _ in 0..8 {
        transactions.push(if data & 1 == 1 { PinState::High } else { PinState::Low });
        data >>= 1;
    }
    transactions.push(PinState::High);
    transactions
}

/// RX reads for a byte: one read for the start-bit wait, 8 data bit
/// samples (LSB first), then the stop bit sample.
fn rx_waveform(byte: u8) -> Vec<PinState> {
    tx_waveform(byte)
}

fn link(baud: u32) -> Serial<(), (), ()> {
    Serial::new((), (), (), baud)
}

#[test]
fn test_serial_write_byte() {
    let byte = 0b0101_0101;
    let serial = link(9600);
    let r = run(serial.write_byte_program(byte), &[]);
    assert_eq!(r.tx, tx_waveform(byte));
    assert_eq!(r.rx_reads, 0);
}

#[test]
fn test_serial_read_byte() {
    let byte = 0b1010_1010;
    let serial = link(9600);
    let r = run(serial.read_byte_program(), &rx_waveform(byte));
    assert_eq!(r.outcome, Ok(()));
    assert_eq!(r.rx_reads, 10);
    assert!(r.tx.is_empty());
    assert_eq!(serial::received_byte(&r.samples), byte);
}

#[test]
fn test_serial_embedded_io_roundtrip() {
    let bytes = [0x42, 0xA7];
    let serial = link(115_200);
    let w = run(serial.write_program(&bytes), &[]);
    let mut expected_tx = tx_waveform(bytes[0]);
    expected_tx.extend(tx_waveform(bytes[1]));
    assert_eq!(w.tx, expected_tx);

    // a read delivers one byte, so two calls are needed
    let mut rx = rx_waveform(bytes[0]);
    rx.extend(rx_waveform(bytes[1]));
    let mut buf = [0u8; 2];
    let (p, n) = serial.read_program(2);
    assert_eq!(n, 1);
    let r1 = run(p, &rx[0..10]);
    buf[0] = serial::received_byte(&r1.samples);
    let (p, n) = serial.read_program(1);
    assert_eq!(n, 1);
    let r2 = run(p, &rx[10..20]);
    buf[1] = serial::received_byte(&r2.samples);
    assert_eq!(buf, bytes);

    // empty buffer returns immediately without touching the pins
    let (p, n) = serial.read_program(0);
    assert_eq!(n, 0);
    assert!(p.is_empty());
}

#[test]
fn test_serial_framing_error() {
    let byte = 0b0101_0101;
    let mut rx = rx_waveform(byte);
    // corrupt the stop bit
    rx.pop();
    rx.push(PinState::Low);
    let serial = link(9600);
    let r = run(serial.read_byte_program(), &rx);
    assert_eq!(r.outcome, Err(Fault::FrameFormat));
}

#[test]
fn serial_waits_for_start_bit() {
    let serial = link(9600);
    let mut rx = vec![PinState::High; 5];
    rx.extend(rx_waveform(0x3C));
    let r = run(serial.read_byte_program(), &rx);
    assert_eq!(r.outcome, Ok(()));
    assert_eq!(r.rx_reads, 15);
    assert_eq!(serial::received_byte(&r.samples), 0x3C);
}

#[test]
fn serial_bit_timing() {
    let serial = link(9600);
    assert_eq!(serial.bit_duration_ns(), 104_166);
    let r = run(serial.read_byte_program(), &rx_waveform(0));
    // a bit and a half to the middle of the first data bit, then one bit each
    assert_eq!(r.waits, vec![156_249, 104_166, 104_166, 104_166, 104_166, 104_166, 104_166, 104_166, 104_166]);
    let w = run(serial.write_byte_program(0), &[]);
    assert_eq!(w.waits, vec![104_166; 10]);
    assert_eq!(link(1).bit_duration_ns(), 1_000_000_000);
    assert_eq!(link(1).free(), ((), (), ()));
}

#[test]
fn serial_loopback_every_byte() {
    let serial = link(115_200);
    for b in 0..=255u8 {
        let w = run(serial.write_byte_program(b), &[]);
        let r = run(serial.read_byte_program(), &w.tx);
        assert_eq!(r.outcome, Ok(()));
        assert_eq!(serial::received_byte(&r.samples), b);
    }
}

#[test]
fn serial_write_stops_at_first_failing_tx_call() {
    let serial = link(9600);
    let mut seq = Sequencer::new(serial.write_program(&[0x55, 0xAA]));
    let mut drives = 0;
    loop {
        match seq.next() {
            Action::Drive(SerialLine::Tx, _) => {
                drives += 1;
                // the third TX call of the first frame fails
                if drives == 3 {
                    seq.fail();
                }
            }
            Action::Wait(_) => {}
            Action::Failed(f) => {
                assert_eq!(f, Fault::Pin);
                break;
            }
            other => panic!("unexpected {:?}", other),
        }
    }
    assert_eq!(drives, 3);
}
