use ssd1306_bitbang::trace::Event;
use ssd1306_bitbang::sim::SimRegisters;
use ssd1306_bitbang::ssd1306;
use ssd1306_bitbang::ssd1306::{Ssd1306, Ssd1306Config};

const W1TS: u32 = 0x6000_4008;
const W1TC: u32 = 0x6000_400C;
const SCL_BIT: u32 = 1 << 7;
const SDA_BIT: u32 = 1 << 6;
const NACK: u32 = SDA_BIT;

const BRING_UP: [u8; 25] = [
    0xAE, 0xD5, 0x80, 0xA8, 0x3F, 0xD3, 0x00, 0x40, 0x8D, 0x14, 0x20, 0x00, 0xA1, 0xC8, 0xDA, 0x12,
    0x81, 0xCF, 0xD9, 0xF1, 0xDB, 0x40, 0xA4, 0xA6, 0xAF,
];
const WINDOW: [u8; 6] = [0x21, 0, 127, 0x22, 0, 7];

fn config() -> Ssd1306Config {
    Ssd1306Config { i2c_addr: 0x3C, scl_pin: 7, sda_pin: 6 }
}

/// A display that was brought up on a bus where every byte is acknowledged,
/// and the length of the log at that point.
fn ready() -> (Ssd1306<SimRegisters>, usize) {
    let mut d = Ssd1306::new(SimRegisters::new(Vec::new(), 0), [[0x7F; 5]; 95]);
    assert!(ssd1306::init(&mut d, &config()));
    let mark = d.registers().log().len();
    (d, mark)
}

/// The bytes of each transaction in `log`. A transaction runs from a start
/// condition to the stop condition, which is the only place where the data
/// line is released right after the clock; each byte is clocked in on the
/// rising edges of the clock, most significant bit first, and is followed by
/// an acknowledgment slot in which the data line is released.
fn transactions(log: &[Event]) -> Vec<Vec<u8>> {
    let writes: Vec<(u32, u32)> = log
        .iter()
        .filter_map(|e| match *e {
            Event::Write { addr, val } if addr == W1TS || addr == W1TC => Some((addr, val)),
            _ => None,
        })
        .collect();
    let mut all = Vec::new();
    let mut at = 0;
    while at < writes.len() {
        assert_eq!(
            &writes[at..at + 4],
            &[(W1TS, SDA_BIT), (W1TS, SCL_BIT), (W1TC, SDA_BIT), (W1TC, SCL_BIT)],
            "a transaction begins with a start condition"
        );
        at += 4;
        let mut bits = Vec::new();
        loop {
            let data = writes[at];
            assert_eq!(data.1, SDA_BIT);
            assert_eq!(writes[at + 1], (W1TS, SCL_BIT));
            if writes[at + 2] == (W1TS, SDA_BIT) {
                assert_eq!(data.0, W1TC, "the stop condition begins with data low");
                at += 3;
                break;
            }
            assert_eq!(writes[at + 2], (W1TC, SCL_BIT));
            bits.push(data.0 == W1TS);
            at += 3;
        }
        assert_eq!(bits.len() % 9, 0);
        all.push(
            bits.chunks(9)
                .map(|cell| {
                    assert!(cell[8]);
                    cell[..8].iter().fold(0u8, |acc, bit| (acc << 1) | (*bit as u8))
                })
                .collect(),
        );
    }
    all
}

fn commands(addr: u8, cmds: &[u8]) -> Vec<Vec<u8>> {
    cmds.iter().map(|cmd| vec![addr << 1, 0x80, *cmd]).collect()
}

fn flush(addr: u8, buffer: &[u8]) -> Vec<Vec<u8>> {
    let mut frames = commands(addr, &WINDOW);
    let mut data = vec![addr << 1, 0x40];
    data.extend_from_slice(buffer);
    frames.push(data);
    frames
}

#[test]
fn init_sends_the_bring_up_sequence_and_a_blank_screen() {
    let mut d = Ssd1306::new(SimRegisters::new(vec![0, 0, 0, 0], 0), [[0x7F; 5]; 95]);
    ssd1306::set_pixel(&mut d, 3, 3, 1);
    assert!(ssd1306::init(&mut d, &config()));
    assert_eq!(d.address(), 0x3C);
    assert_eq!(d.bus_ref().delay_cycles(), 100);
    assert_eq!((d.bus_ref().scl_pin(), d.bus_ref().sda_pin()), (7, 6));
    assert!(d.framebuffer().iter().all(|b| *b == 0));

    let log = d.registers().log();
    assert_eq!(
        &log[..10],
        &[
            Event::Read { addr: 0x6000_9020, val: 0 },
            Event::Write { addr: 0x6000_9020, val: 0x1A80 },
            Event::Read { addr: 0x6000_4020, val: 0 },
            Event::Write { addr: 0x6000_4020, val: 0x80 },
            Event::Read { addr: 0x6000_901C, val: 0 },
            Event::Write { addr: 0x6000_901C, val: 0x1A80 },
            Event::Read { addr: 0x6000_4020, val: 0 },
            Event::Write { addr: 0x6000_4020, val: 0x40 },
            Event::Write { addr: W1TS, val: SDA_BIT },
            Event::Write { addr: W1TS, val: SCL_BIT },
        ]
    );
    let mut expected = commands(0x3C, &BRING_UP);
    expected.extend(flush(0x3C, &[0; 1024]));
    assert_eq!(transactions(&log[10..]), expected);
}

#[test]
fn the_bring_up_sequence_sets_the_multiplex_ratio_to_the_last_row() {
    let (d, _) = ready();
    let sent = transactions(&d.registers().log()[10..]);
    assert_eq!(sent[3], [0x78, 0x80, 0xA8]);
    assert_eq!(sent[4], [0x78, 0x80, 64 - 1]);
    assert_eq!(sent[0], [0x78, 0x80, 0xAE]);
    assert_eq!(sent[24], [0x78, 0x80, 0xAF]);
    assert_eq!(sent.len(), 25 + 7);
}

#[test]
fn init_reports_success_when_no_display_answers() {
    let mut d = Ssd1306::new(SimRegisters::new(vec![0, 0, 0, 0], NACK), [[0; 5]; 95]);
    assert!(ssd1306::init(&mut d, &config()));
    let sent = transactions(&d.registers().log()[10..]);
    assert_eq!(sent, vec![vec![0x78u8]; 25 + 7]);
}

#[test]
fn init_goes_on_after_a_command_that_is_not_acknowledged() {
    let mut script = vec![0, 0, 0, 0];
    script.extend([0, 0, 0]);
    script.extend([0, NACK]);
    script.extend([0, 0, NACK]);
    let mut d = Ssd1306::new(SimRegisters::new(script, 0), [[0; 5]; 95]);
    assert!(ssd1306::init(&mut d, &config()));
    let sent = transactions(&d.registers().log()[10..]);
    let mut expected = commands(0x3C, &BRING_UP);
    expected[1] = vec![0x78, 0x80];
    expected.extend(flush(0x3C, &[0; 1024]));
    assert_eq!(sent, expected);
}

#[test]
fn init_uses_the_address_of_the_configuration() {
    let mut d = Ssd1306::new(SimRegisters::new(Vec::new(), 0), [[0; 5]; 95]);
    let alt = Ssd1306Config { i2c_addr: 0x3D, scl_pin: 7, sda_pin: 6 };
    assert!(ssd1306::init(&mut d, &alt));
    let sent = transactions(&d.registers().log()[10..]);
    assert!(sent.iter().all(|frame| frame[0] == 0x7A));
    assert_eq!(d.address(), 0x3D);
}

#[test]
fn display_sends_the_window_and_then_the_framebuffer() {
    let (mut d, mark) = ready();
    ssd1306::set_pixel(&mut d, 0, 0, 1);
    ssd1306::fill_rect(&mut d, 100, 30, 10, 10, 1);
    ssd1306::draw_string(&mut d, 5, 50, "ok");
    let buffer = *d.framebuffer();
    assert!(buffer.iter().any(|b| *b != 0));
    ssd1306::display(&mut d);
    assert_eq!(transactions(&d.registers().log()[mark..]), flush(0x3C, &buffer));
    assert_eq!(*d.framebuffer(), buffer);
}

#[test]
fn display_gives_up_the_data_at_the_first_byte_that_is_not_acknowledged() {
    let mut script = vec![0u32; 4 + 3 * (25 + 6) + 2 + 1024];
    script.extend(vec![0u32; 3 * 6 + 2 + 5]);
    script.push(NACK);
    let mut d = Ssd1306::new(SimRegisters::new(script, 0), [[0; 5]; 95]);
    assert!(ssd1306::init(&mut d, &config()));
    let mark = d.registers().log().len();
    ssd1306::fill_rect(&mut d, 0, 0, 128, 64, 1);
    ssd1306::display(&mut d);
    let mut expected = commands(0x3C, &WINDOW);
    expected.push(vec![0x78, 0x40, 0xFF, 0xFF, 0xFF, 0xFF, 0xFF, 0xFF]);
    assert_eq!(transactions(&d.registers().log()[mark..]), expected);
}

#[test]
fn set_contrast_sends_the_command_and_the_level() {
    for level in [0u8, 0x7F, 0xCF, 0xFF] {
        let (mut d, mark) = ready();
        ssd1306::set_contrast(&mut d, level);
        assert_eq!(transactions(&d.registers().log()[mark..]), commands(0x3C, &[0x81, level]));
        assert!(d.framebuffer().iter().all(|b| *b == 0));
    }
}

#[test]
fn display_on_switches_the_panel_with_one_command() {
    let (mut d, mark) = ready();
    ssd1306::display_on(&mut d, true);
    ssd1306::display_on(&mut d, false);
    assert_eq!(transactions(&d.registers().log()[mark..]), commands(0x3C, &[0xAF, 0xAE]));
}

#[test]
fn invert_display_switches_the_polarity_with_one_command() {
    let (mut d, mark) = ready();
    ssd1306::invert_display(&mut d, true);
    ssd1306::invert_display(&mut d, false);
    assert_eq!(transactions(&d.registers().log()[mark..]), commands(0x3C, &[0xA7, 0xA6]));
}

#[test]
fn a_display_that_was_not_brought_up_talks_to_address_zero_on_pin_zero() {
    let mut d = Ssd1306::new(SimRegisters::new(Vec::new(), 0), [[0; 5]; 95]);
    ssd1306::display_on(&mut d, true);
    let log = d.registers().log();
    assert!(log.iter().all(|e| match *e {
        Event::Write { addr, val } => (addr == W1TS || addr == W1TC) && val == 1,
        Event::Read { addr, .. } => addr == 0x6000_403C,
        Event::Delay { .. } => false,
    }));
    assert_eq!(d.address(), 0);
}
