use ssd1306_bitbang::i2c;
use ssd1306_bitbang::i2c::{I2c, I2cConfig};
use ssd1306_bitbang::trace::Event;
use ssd1306_bitbang::sim::SimRegisters;

const W1TS: u32 = 0x6000_4008;
const W1TC: u32 = 0x6000_400C;
const GPIO_IN: u32 = 0x6000_403C;
const GPIO_ENABLE: u32 = 0x6000_4020;

const SCL: i32 = 7;
const SDA: i32 = 6;
const SCL_BIT: u32 = 1 << 7;
const SDA_BIT: u32 = 1 << 6;

const ACK: u32 = 0;
const NACK: u32 = SDA_BIT;

/// A bus on pins 7 and 6 at 400 kHz whose reads, after those of `init`, are
/// answered by `samples` and then by a released data line.
fn bus_with(samples: &[u32]) -> (I2c<SimRegisters>, usize) {
    let mut script = vec![0, 0, 0, 0];
    script.extend_from_slice(samples);
    let mut bus = I2c::new(SimRegisters::new(script, NACK));
    i2c::init(&mut bus, &I2cConfig { scl_pin: SCL, sda_pin: SDA, freq_hz: 400_000 });
    let mark = bus.registers().log().len();
    (bus, mark)
}

fn since(bus: &I2c<SimRegisters>, mark: usize) -> Vec<Event> {
    bus.registers().log()[mark..].to_vec()
}

fn set(bit: u32) -> Event {
    Event::Write { addr: W1TS, val: bit }
}

fn clear(bit: u32) -> Event {
    Event::Write { addr: W1TC, val: bit }
}

/// Replays the writes of `log` on the two lines, starting from the given
/// levels. Returns the level of the data line at each rising edge of the
/// clock, and the levels at the end.
fn replay(log: &[Event], mut scl: bool, mut sda: bool) -> (Vec<bool>, bool, bool) {
    let mut clocked = Vec::new();
    for e in log {
        if let Event::Write { addr, val } = *e {
            let was = scl;
            if addr == W1TS {
                scl = scl || val & SCL_BIT != 0;
                sda = sda || val & SDA_BIT != 0;
            } else if addr == W1TC {
                scl = scl && val & SCL_BIT == 0;
                sda = sda && val & SDA_BIT == 0;
            }
            if !was && scl {
                clocked.push(sda);
            }
        }
    }
    (clocked, scl, sda)
}

/// The changes of the data line while the clock is high in `log`, starting
/// from the given levels: `false` for a fall, `true` for a rise.
fn conditions(log: &[Event], mut scl: bool, mut sda: bool) -> Vec<bool> {
    let mut all = Vec::new();
    for e in log {
        if let Event::Write { addr, val } = *e {
            let (scl_was, sda_was) = (scl, sda);
            if addr == W1TS {
                scl = scl || val & SCL_BIT != 0;
                sda = sda || val & SDA_BIT != 0;
            } else if addr == W1TC {
                scl = scl && val & SCL_BIT == 0;
                sda = sda && val & SDA_BIT == 0;
            }
            if scl_was && scl && sda_was != sda {
                all.push(sda);
            }
        }
    }
    all
}

fn bits_of(byte: u8) -> Vec<bool> {
    (0..8).rev().map(|i| byte & (1 << i) != 0).collect()
}

/// The bytes in a run of clocked levels: each byte is eight bits, most
/// significant first, followed by a released line.
fn bytes_of(clocked: &[bool]) -> Vec<u8> {
    assert_eq!(clocked.len() % 9, 0);
    clocked
        .chunks(9)
        .map(|cell| {
            assert!(cell[8], "the data line is released in the acknowledgment slot");
            cell[..8].iter().fold(0u8, |acc, bit| (acc << 1) | (*bit as u8))
        })
        .collect()
}

/// The bytes that a whole transaction, begun with both lines released, puts
/// on the bus. Checks the framing: nothing is clocked by the start condition,
/// one low level is clocked by the stop condition, and the lines end released.
fn transaction_bytes(log: &[Event]) -> Vec<u8> {
    let (clocked, scl, sda) = replay(log, true, true);
    assert!(scl && sda, "both lines are released after a transaction");
    assert_eq!(clocked.last(), Some(&false), "the stop condition raises the clock with data low");
    assert_eq!(&log[..4], &[set(SDA_BIT), set(SCL_BIT), clear(SDA_BIT), clear(SCL_BIT)]);
    assert_eq!(&log[log.len() - 3..], &[clear(SDA_BIT), set(SCL_BIT), set(SDA_BIT)]);
    bytes_of(&clocked[..clocked.len() - 1])
}

fn reads_in(log: &[Event]) -> usize {
    log.iter().filter(|e| matches!(e, Event::Read { .. })).count()
}

#[test]
fn init_derives_the_delay_from_the_frequency() {
    for (freq, cycles) in [
        (400_000u32, 100u32),
        (100_000, 400),
        (1, 40_000_000),
        (3, 13_333_333),
        (160_000_000, 0),
        (160_000_001, 0),
        (40_000_000, 1),
        (u32::MAX, 0),
    ] {
        let mut bus = I2c::new(SimRegisters::new(Vec::new(), 0));
        i2c::init(&mut bus, &I2cConfig { scl_pin: 1, sda_pin: 2, freq_hz: freq });
        assert_eq!(bus.delay_cycles(), cycles, "at {freq} Hz");
        assert_eq!(bus.delay_cycles(), (160_000_000 / freq) / 4);
        assert_eq!(bus.scl_pin(), 1);
        assert_eq!(bus.sda_pin(), 2);
    }
}

#[test]
fn a_new_bus_is_not_configured() {
    let mut bus = I2c::new(SimRegisters::new(Vec::new(), 0));
    assert_eq!((bus.scl_pin(), bus.sda_pin(), bus.delay_cycles()), (0, 0, 0));
    assert!(i2c::start(&mut bus));
    assert_eq!(bus.registers().log().as_slice(), &[set(1), set(1), clear(1), clear(1)]);
}

#[test]
fn init_configures_both_pins_and_releases_both_lines() {
    let script = vec![0, 0x10, 0xFFFF_FFFF, 0x90];
    let mut bus = I2c::new(SimRegisters::new(script, 0));
    i2c::init(&mut bus, &I2cConfig { scl_pin: 7, sda_pin: 6, freq_hz: 400_000 });
    let expected = [
        Event::Read { addr: 0x6000_9020, val: 0 },
        Event::Write { addr: 0x6000_9020, val: 0x0000_1A80 },
        Event::Read { addr: GPIO_ENABLE, val: 0x10 },
        Event::Write { addr: GPIO_ENABLE, val: 0x90 },
        Event::Read { addr: 0x6000_901C, val: 0xFFFF_FFFF },
        Event::Write { addr: 0x6000_901C, val: 0xFFFF_9AFF },
        Event::Read { addr: GPIO_ENABLE, val: 0x90 },
        Event::Write { addr: GPIO_ENABLE, val: 0xD0 },
        set(SDA_BIT),
        set(SCL_BIT),
    ];
    assert_eq!(bus.registers().log().as_slice(), &expected);
    let (_, scl, sda) = replay(bus.registers().log(), false, false);
    assert!(scl && sda);
}

#[test]
fn init_leaves_the_multiplexer_alone_for_pins_the_chip_lacks() {
    let mut bus = I2c::new(SimRegisters::new(Vec::new(), 0));
    i2c::init(&mut bus, &I2cConfig { scl_pin: 22, sda_pin: 31, freq_hz: 400_000 });
    assert_eq!(bus.registers().log().as_slice(), &[set(1 << 31), set(1 << 22)]);

    let mut bus = I2c::new(SimRegisters::new(vec![5, 6], 0));
    i2c::init(&mut bus, &I2cConfig { scl_pin: 21, sda_pin: 22, freq_hz: 400_000 });
    let expected = [
        Event::Read { addr: 0x6000_9058, val: 5 },
        Event::Write { addr: 0x6000_9058, val: 0x1A85 },
        Event::Read { addr: GPIO_ENABLE, val: 6 },
        Event::Write { addr: GPIO_ENABLE, val: 6 | (1 << 21) },
        set(1 << 22),
        set(1 << 21),
    ];
    assert_eq!(bus.registers().log().as_slice(), &expected);
}

#[test]
fn start_lets_data_fall_while_the_clock_is_high() {
    let (mut bus, mark) = bus_with(&[]);
    assert!(i2c::start(&mut bus));
    let log = since(&bus, mark);
    assert_eq!(log, [set(SDA_BIT), set(SCL_BIT), clear(SDA_BIT), clear(SCL_BIT)]);
    let (clocked, scl, sda) = replay(&log, true, true);
    assert!(clocked.is_empty());
    assert!(!scl && !sda);
}

#[test]
fn stop_lets_data_rise_while_the_clock_is_high() {
    let (mut bus, mark) = bus_with(&[]);
    i2c::stop(&mut bus);
    let log = since(&bus, mark);
    assert_eq!(log, [clear(SDA_BIT), set(SCL_BIT), set(SDA_BIT)]);
}

#[test]
fn start_then_stop_leaves_both_lines_released() {
    for (scl, sda) in [(false, false), (false, true), (true, false), (true, true)] {
        let (mut bus, mark) = bus_with(&[]);
        i2c::start(&mut bus);
        i2c::stop(&mut bus);
        let (_, scl_after, sda_after) = replay(&since(&bus, mark), scl, sda);
        assert!(scl_after && sda_after);
    }
}

#[test]
fn write_byte_clocks_the_bits_most_significant_first() {
    for byte in [0x00u8, 0xFF, 0xA5, 0x5A, 0x01, 0x80, 0x78, 0x3C] {
        let (mut bus, mark) = bus_with(&[ACK]);
        i2c::start(&mut bus);
        let start = bus.registers().log().len();
        i2c::write_byte(&mut bus, byte);
        let log = since(&bus, start);
        let (clocked, scl, sda) = replay(&log, false, false);
        assert_eq!(clocked.len(), 9);
        assert_eq!(&clocked[..8], bits_of(byte).as_slice(), "byte {byte:#04x}");
        assert!(clocked[8]);
        assert!(!scl && sda);
        assert_eq!(reads_in(&log), 1);
        assert!(mark <= start);
    }
}

#[test]
fn write_byte_sends_one_bit_cell_after_the_other() {
    let (mut bus, mark) = bus_with(&[ACK]);
    assert!(i2c::write_byte(&mut bus, 0x80));
    let mut expected = vec![set(SDA_BIT), set(SCL_BIT), clear(SCL_BIT)];
    for _ in 0..7 {
        expected.extend([clear(SDA_BIT), set(SCL_BIT), clear(SCL_BIT)]);
    }
    expected.extend([
        set(SDA_BIT),
        set(SCL_BIT),
        Event::Read { addr: GPIO_IN, val: ACK },
        clear(SCL_BIT),
    ]);
    assert_eq!(since(&bus, mark), expected);
}

#[test]
fn write_byte_takes_a_low_data_line_as_acknowledgment() {
    for (sample, ack) in [
        (0u32, true),
        (SDA_BIT, false),
        (!SDA_BIT, true),
        (u32::MAX, false),
        (SCL_BIT, true),
        (SDA_BIT | 1, false),
    ] {
        let (mut bus, _) = bus_with(&[sample]);
        assert_eq!(i2c::write_byte(&mut bus, 0x42), ack, "sample {sample:#x}");
    }
}

#[test]
fn write_sends_the_address_and_then_the_payload() {
    let (mut bus, mark) = bus_with(&[ACK, ACK, ACK, ACK]);
    assert!(i2c::write(&mut bus, 0x3C, &[0x80, 0xAE, 0x01]));
    let log = since(&bus, mark);
    assert_eq!(transaction_bytes(&log), [0x78, 0x80, 0xAE, 0x01]);
    assert_eq!(reads_in(&log), 4);
}

#[test]
fn write_fails_and_stops_when_the_address_is_not_acknowledged() {
    let (mut bus, mark) = bus_with(&[NACK, ACK, ACK]);
    assert!(!i2c::write(&mut bus, 0x3C, &[0x11, 0x22]));
    let log = since(&bus, mark);
    assert_eq!(transaction_bytes(&log), [0x78]);
    assert_eq!(reads_in(&log), 1);
    assert_eq!(bus.registers().unread(), 2);
}

#[test]
fn write_fails_and_stops_at_the_first_byte_that_is_not_acknowledged() {
    let (mut bus, mark) = bus_with(&[ACK, ACK, NACK, ACK]);
    assert!(!i2c::write(&mut bus, 0x50, &[1, 2, 3, 4]));
    let log = since(&bus, mark);
    assert_eq!(transaction_bytes(&log), [0xA0, 1, 2]);
    assert_eq!(reads_in(&log), 3);

    let (mut bus, mark) = bus_with(&[ACK, ACK, ACK, ACK, NACK]);
    assert!(!i2c::write(&mut bus, 0x50, &[1, 2, 3, 4]));
    assert_eq!(transaction_bytes(&since(&bus, mark)), [0xA0, 1, 2, 3, 4]);
}

#[test]
fn the_data_line_moves_under_a_high_clock_only_to_start_and_to_stop() {
    for samples in [vec![ACK, ACK, ACK], vec![NACK], vec![ACK, NACK], vec![ACK, ACK, NACK]] {
        let (mut bus, mark) = bus_with(&samples);
        i2c::write(&mut bus, 0x3C, &[0x00, 0xFF]);
        assert_eq!(conditions(&since(&bus, mark), true, true), [false, true]);

        let (mut bus, mark) = bus_with(&samples);
        i2c::write_reg(&mut bus, 0x3C, 0xA5, &[0x5A]);
        assert_eq!(conditions(&since(&bus, mark), true, true), [false, true]);
    }
    let (mut bus, mark) = bus_with(&[ACK]);
    i2c::start(&mut bus);
    i2c::write_byte(&mut bus, 0b0101_0101);
    assert_eq!(conditions(&since(&bus, mark), true, true), [false]);
}

#[test]
fn write_with_no_payload_sends_the_address_alone() {
    let (mut bus, mark) = bus_with(&[ACK]);
    assert!(i2c::write(&mut bus, 0x3D, &[]));
    assert_eq!(transaction_bytes(&since(&bus, mark)), [0x7A]);
}

#[test]
fn the_address_byte_is_the_address_shifted_with_a_clear_write_bit() {
    for (addr, byte) in [(0x00u8, 0x00u8), (0x01, 0x02), (0x3C, 0x78), (0x7F, 0xFE), (0x80, 0x00), (0xFF, 0xFE)] {
        let (mut bus, mark) = bus_with(&[ACK]);
        assert!(i2c::write(&mut bus, addr, &[]));
        assert_eq!(transaction_bytes(&since(&bus, mark)), [byte]);
    }
}

#[test]
fn write_reg_sends_the_register_right_after_the_address() {
    let (mut bus, mark) = bus_with(&[ACK, ACK, ACK, ACK]);
    assert!(i2c::write_reg(&mut bus, 0x3C, 0x40, &[0xDE, 0xAD]));
    assert_eq!(transaction_bytes(&since(&bus, mark)), [0x78, 0x40, 0xDE, 0xAD]);
}

#[test]
fn write_reg_fails_and_stops_at_the_first_byte_that_is_not_acknowledged() {
    let (mut bus, mark) = bus_with(&[NACK]);
    assert!(!i2c::write_reg(&mut bus, 0x3C, 0x40, &[9]));
    assert_eq!(transaction_bytes(&since(&bus, mark)), [0x78]);

    let (mut bus, mark) = bus_with(&[ACK, NACK]);
    assert!(!i2c::write_reg(&mut bus, 0x3C, 0x40, &[9]));
    assert_eq!(transaction_bytes(&since(&bus, mark)), [0x78, 0x40]);

    let (mut bus, mark) = bus_with(&[ACK, ACK, NACK]);
    assert!(!i2c::write_reg(&mut bus, 0x3C, 0x40, &[9]));
    assert_eq!(transaction_bytes(&since(&bus, mark)), [0x78, 0x40, 9]);

    let (mut bus, mark) = bus_with(&[ACK, ACK]);
    assert!(i2c::write_reg(&mut bus, 0x3C, 0x40, &[]));
    assert_eq!(transaction_bytes(&since(&bus, mark)), [0x78, 0x40]);
}

#[test]
fn read_byte_takes_the_bits_most_significant_first() {
    for byte in [0x00u8, 0xFF, 0xA5, 0x01, 0x80, 0x3C] {
        let samples: Vec<u32> =
            bits_of(byte).iter().map(|bit| if *bit { SDA_BIT | 0x1000 } else { 0x1000 }).collect();
        let (mut bus, mark) = bus_with(&samples);
        assert_eq!(i2c::read_byte(&mut bus, true), byte);
        let log = since(&bus, mark);
        assert_eq!(reads_in(&log), 8);
        assert_eq!(bus.registers().unread(), 0);
    }
}

#[test]
fn read_byte_answers_with_acknowledgment_or_its_refusal() {
    for ack in [true, false] {
        let (mut bus, mark) = bus_with(&[0; 8]);
        i2c::start(&mut bus);
        let begin = bus.registers().log().len();
        assert_eq!(i2c::read_byte(&mut bus, ack), 0);
        let log = since(&bus, begin);
        let mut expected = vec![set(SDA_BIT)];
        for _ in 0..8 {
            expected.extend([set(SCL_BIT), Event::Read { addr: GPIO_IN, val: 0 }, clear(SCL_BIT)]);
        }
        expected.push(if ack { clear(SDA_BIT) } else { set(SDA_BIT) });
        expected.extend([set(SCL_BIT), clear(SCL_BIT), set(SDA_BIT)]);
        assert_eq!(log, expected);
        let (clocked, scl, sda) = replay(&log, false, false);
        assert_eq!(clocked.len(), 9);
        assert_eq!(clocked[8], !ack);
        assert!(!scl && sda);
        assert!(mark <= begin);
    }
}
