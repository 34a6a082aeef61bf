use bitbang_hal_ng::machine::{Action, Fault, Instr, Sequencer};
use bitbang_hal_ng::spi::{self, BitOrder, Mode, SpiConfig, SpiLine, SPI};

#[derive(Debug, Clone, Copy, PartialEq, Eq)]
enum PinState {
    Low,
    High,
}

/// Pin transcript of a run: the levels set on each output line, in order,
/// and the levels the run sampled.
struct Run {
    sck: Vec<PinState>,
    mosi: Vec<PinState>,
    miso_reads: usize,
    samples: Vec<bool>,
    outcome: Option<Fault>,
}

fn state(high: bool) -> PinState {
    if high {
        PinState::High
    } else {
        PinState::Low
    }
}

/// Runs `program` with MISO answering `miso` in order.
fn run(program: Vec<Instr<SpiLine>>, miso: &[PinState]) -> Run {
    let mut seq = Sequencer::new(program);
    let mut r = Run { sck: vec![], mosi: vec![], miso_reads: 0, samples: vec![], outcome: None };
    loop {
        match seq.next() {
            Action::Drive(SpiLine::Sck, h) => r.sck.push(state(h)),
            Action::Drive(SpiLine::Mosi, h) => r.mosi.push(state(h)),
            Action::Drive(SpiLine::Miso, _) => panic!("MISO is an input"),
            Action::Wait(_) => {}
            Action::ReadHigh(l) => {
                assert_eq!(l, SpiLine::Miso);
                let level = miso[r.miso_reads] == PinState::High;
                r.miso_reads += 1;
                seq.deliver(level);
            }
            Action::ReadLow(_) => panic!("no low reads on SPI"),
            Action::Done => break,
            Action::Failed(f) => {
                r.outcome = Some(f);
                break;
            }
        }
    }
    r.samples = seq.samples().clone();
    r
}

fn waveform(string: &str) -> Vec<PinState> {
    let mut transactions = Vec::new();
    let mut last_state = None;
    let mut last_action = string.chars().next().unwrap();
    for step in string.chars() {
        let step = if step == '.' { last_action } else { step };
        match step {
            '0' => {
                transactions.push(PinState::Low);
                last_state = Some(PinState::Low);
            }
            '1' => {
                transactions.push(PinState::High);
                last_state = Some(PinState::High);
            }
            'p' | 'P' => {
                let next_state = if last_state == Some(PinState::Low) {
                    PinState::High
                } else {
                    PinState::Low
                };
                transactions.push(next_state);
                last_state = Some(next_state);
            }
            'n' | 'N' => {
                let next_state = if last_state == Some(PinState::High) {
                    PinState::Low
                } else {
                    PinState::High
                };
                transactions.push(next_state);
                last_state = Some(next_state);
            }
            _ => panic!("Invalid binary literal"),
        };
        last_action = step;
    }
    transactions
}

/// Runs the idle program, then `body`, as the bus does from construction.
fn construct_and_run(
    bus: &SPI<(), (), (), ()>,
    body: Vec<Instr<SpiLine>>,
    miso: &[PinState],
) -> Run {
    let mut program = bus.idle_program();
    program.extend(body);
    run(program, miso)
}

#[test]
fn test_states() {
    let res = waveform("p..");
    assert_eq!(res, vec![PinState::Low, PinState::High, PinState::Low]);

    let res = waveform("P..");
    assert_eq!(res, vec![PinState::Low, PinState::High, PinState::Low]);

    let res = waveform("n..");
    assert_eq!(res, vec![PinState::High, PinState::Low, PinState::High]);

    let res = waveform("N..");
    assert_eq!(res, vec![PinState::High, PinState::Low, PinState::High]);

    let res = waveform("n.0");
    assert_eq!(res, vec![PinState::High, PinState::Low, PinState::Low]);
}

#[test]
fn test_spi_read_single_byte() {
    let miso = waveform("10101010");
    let bus = SPI::new((), (), (), (), SpiConfig::default());
    let r = construct_and_run(&bus, bus.read_program(1), &miso);
    // write default value (0x00) to mosi
    assert_eq!(r.mosi, waveform("00000000"));
    assert_eq!(r.sck, waveform("01010101010101010"));
    assert_eq!(r.miso_reads, 8);
    assert_eq!(r.outcome, None);
    let data = spi::received(&r.samples, 1, BitOrder::MSBFirst);
    assert_eq!(data[0], 0b10101010);
}

#[test]
fn test_spi_write_single_byte() {
    // this is ignored when reading
    let miso = waveform("00000000");
    let bus = SPI::new((), (), (), (), SpiConfig::default());
    let data = [0b01010101];
    let r = construct_and_run(&bus, bus.write_program(&data), &miso);
    assert_eq!(r.mosi, waveform("01010101"));
    assert_eq!(r.sck, waveform("01010101010101010"));
    assert_eq!(r.miso_reads, 8);
    assert_eq!(r.outcome, None);
}

#[test]
fn test_spi_mode1_transfer() {
    // MODE_1: clock idles low, data is shifted out on the rising edge
    // and sampled on the falling edge.
    let miso = waveform("11001100");
    let config = SpiConfig::new(Mode::mode_1()).with_frequency_hz(1_000_000);
    let bus = SPI::new((), (), (), (), config);
    let r = construct_and_run(&bus, bus.transfer_program(1, &[0b10110001]), &miso);
    assert_eq!(r.mosi, waveform("10110001"));
    // Initial idle low + 8 high/low clock pulses
    assert_eq!(r.sck, waveform("01010101010101010"));
    assert_eq!(r.miso_reads, 8);
    let read_data = spi::received(&r.samples, 1, BitOrder::MSBFirst);
    assert_eq!(read_data[0], 0b11001100);
}

#[test]
fn test_spi_lsb_first_write() {
    let miso = waveform("00000000");
    let config = SpiConfig::new(Mode::mode_0()).with_bit_order(BitOrder::LSBFirst);
    let bus = SPI::new((), (), (), (), config);
    let r = construct_and_run(&bus, bus.write_program(&[0b1000_0011]), &miso);
    // 0b1000_0011 LSB first: 1,1,0,0,0,0,0,1
    assert_eq!(r.mosi, waveform("11000001"));
    assert_eq!(r.sck, waveform("01010101010101010"));
    assert_eq!(r.miso_reads, 8);
}

/// Based on https://www.analog.com/en/resources/analog-dialogue/articles/introduction-to-spi-interface.html
#[test]
fn analog_com_example_figure_2() {
    let miso = waveform("10111010");
    let bus = SPI::new((), (), (), (), SpiConfig::default());
    let r = construct_and_run(&bus, bus.transfer_program(1, &[0xA5]), &miso);
    assert_eq!(r.mosi, waveform("10100101"));
    assert_eq!(r.sck, waveform("01010101010101010"));
    assert_eq!(r.miso_reads, 8);
    let read_data = spi::received(&r.samples, 1, BitOrder::MSBFirst);
    assert_eq!(read_data[0], 0xBA); // Received bits in opposite phase
}

#[test]
fn spi_config_defaults_and_builders() {
    let c = SpiConfig::default();
    assert_eq!(c.mode(), Mode::mode_0());
    assert_eq!(c.bit_order(), BitOrder::MSBFirst);
    assert_eq!(c.empty_write_value(), 0x00);
    assert_eq!(c.half_period_ns(), 5_000);

    let c = SpiConfig::new(Mode::mode_3())
        .with_frequency_hz(500_000)
        .with_bit_order(BitOrder::LSBFirst)
        .with_empty_write_value(0xFF);
    assert_eq!(c.mode(), Mode::mode_3());
    assert_eq!(c.bit_order(), BitOrder::LSBFirst);
    assert_eq!(c.empty_write_value(), 0xFF);
    assert_eq!(c.half_period_ns(), 1_000);

    assert_eq!(SpiConfig::default().with_frequency_hz(3).half_period_ns(), 166_666_666);
    assert_eq!(SpiConfig::default().with_half_period_ns(42).half_period_ns(), 42);
}

#[test]
fn spi_idle_level_follows_polarity() {
    for (mode, idle) in [
        (Mode::mode_0(), PinState::Low),
        (Mode::mode_1(), PinState::Low),
        (Mode::mode_2(), PinState::High),
        (Mode::mode_3(), PinState::High),
    ] {
        let bus = SPI::new((), (), (), (), SpiConfig::new(mode));
        let r = run(bus.idle_program(), &[]);
        assert_eq!(r.sck, vec![idle]);
        assert!(r.mosi.is_empty());
    }
}

#[test]
fn spi_mode_2_and_3_pulse_low() {
    for mode in [Mode::mode_2(), Mode::mode_3()] {
        let bus = SPI::new((), (), (), (), SpiConfig::new(mode));
        let r = construct_and_run(&bus, bus.write_program(&[0x0F]), &waveform("00000000"));
        assert_eq!(r.sck, waveform("10101010101010101"));
        assert_eq!(r.mosi, waveform("00001111"));
    }
}

#[test]
fn spi_mode_timing_order() {
    // Mode 0 waits before the first edge and samples right after it; mode 1
    // samples after the wait that follows the first edge.
    let bus0 = SPI::new((), (), (), (), SpiConfig::new(Mode::mode_0()).with_half_period_ns(7));
    let p0 = bus0.write_program(&[0x80]);
    assert_eq!(
        &p0[0..6],
        &[
            Instr::Drive(SpiLine::Mosi, true),
            Instr::Wait(7),
            Instr::Drive(SpiLine::Sck, true),
            Instr::Sample(SpiLine::Miso),
            Instr::Wait(7),
            Instr::Drive(SpiLine::Sck, false),
        ]
    );
    let bus1 = SPI::new((), (), (), (), SpiConfig::new(Mode::mode_1()).with_half_period_ns(7));
    let p1 = bus1.write_program(&[0x80]);
    assert_eq!(
        &p1[0..6],
        &[
            Instr::Drive(SpiLine::Mosi, true),
            Instr::Drive(SpiLine::Sck, true),
            Instr::Wait(7),
            Instr::Sample(SpiLine::Miso),
            Instr::Drive(SpiLine::Sck, false),
            Instr::Wait(7),
        ]
    );
    assert_eq!(p0.len(), 48);
}

#[test]
fn spi_transfer_pads_both_sides() {
    // More to read than to write: the empty write value goes out.
    let config = SpiConfig::default().with_empty_write_value(0xFF);
    let bus = SPI::new((), (), (), (), config);
    let r = construct_and_run(&bus, bus.transfer_program(2, &[0x00]), &waveform("1000000000000001"));
    assert_eq!(r.mosi, waveform("0000000011111111"));
    assert_eq!(spi::received(&r.samples, 2, BitOrder::MSBFirst), vec![0x80, 0x01]);

    // More to write than to read: every byte is still clocked out.
    let bus = SPI::new((), (), (), (), SpiConfig::default());
    let p = bus.transfer_program(0, &[1, 2, 3]);
    assert_eq!(p.len(), 3 * 48);
    let r = run(p, &waveform("000000000000000000000000"));
    assert_eq!(r.mosi, waveform("000000010000001000000011"));
}

#[test]
fn spi_loopback_msb_and_lsb() {
    for (order, expected) in [(BitOrder::MSBFirst, 0xC5u8), (BitOrder::LSBFirst, 0xC5u8)] {
        let bus = SPI::new((), (), (), (), SpiConfig::default().with_bit_order(order));
        // MISO tied to MOSI: each sample sees the bit just put out.
        let mut seq = Sequencer::new(bus.transfer_in_place_program(&[0xC5]));
        let mut mosi = false;
        loop {
            match seq.next() {
                Action::Drive(SpiLine::Mosi, h) => mosi = h,
                Action::ReadHigh(_) => seq.deliver(mosi),
                Action::Done => break,
                Action::Failed(_) => panic!("no checks on SPI"),
                _ => {}
            }
        }
        assert_eq!(spi::received(seq.samples(), 1, order), vec![expected]);
    }
}

#[test]
fn spi_read_many_uses_empty_value() {
    let bus = SPI::new((), (), (), (), SpiConfig::default().with_empty_write_value(0x5A));
    let r = run(bus.read_program(2), &waveform("1111111100000000"));
    assert_eq!(r.mosi, waveform("0101101001011010"));
    assert_eq!(spi::received(&r.samples, 2, BitOrder::MSBFirst), vec![0xFF, 0x00]);
    let (miso, mosi, sck, delay) = bus.free();
    assert_eq!((miso, mosi, sck, delay), ((), (), (), ()));
}

#[test]
fn spi_lsb_first_read_assembles_first_bit_as_lsb() {
    let config = SpiConfig::new(Mode::mode_0()).with_bit_order(BitOrder::LSBFirst);
    let bus = SPI::new((), (), (), (), config);
    let r = run(bus.read_program(2), &waveform("1000000011000001"));
    assert_eq!(spi::received(&r.samples, 2, BitOrder::LSBFirst), vec![0x01, 0x83]);
    assert_eq!(spi::received(&r.samples, 2, BitOrder::MSBFirst), vec![0x80, 0xC1]);
}
