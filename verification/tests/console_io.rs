use ssd1306_bitbang::console;
use ssd1306_bitbang::console::Console;
use ssd1306_bitbang::trace::Event;
use ssd1306_bitbang::sim::SimRegisters;

const EP1: u32 = 0x6004_3000;
const EP1_CONF: u32 = 0x6004_3004;
const EP0: u32 = 0x6004_3010;
const INT_RAW: u32 = 0x6004_3034;
const INT_CLR: u32 = 0x6004_3038;

fn new_console(script: &[u32]) -> Console<SimRegisters> {
    Console::new(SimRegisters::new(script.to_vec(), 0))
}

fn log(c: &Console<SimRegisters>) -> Vec<Event> {
    c.registers().log().clone()
}

/// The accesses of one flush of `bytes`.
fn flushed(bytes: &[u8]) -> Vec<Event> {
    let mut events: Vec<Event> =
        bytes.iter().map(|b| Event::Write { addr: EP1, val: *b as u32 }).collect();
    events.push(Event::Write { addr: EP1_CONF, val: 1 });
    events
}

#[test]
fn putc_keeps_characters_until_the_buffer_is_full() {
    let mut c = new_console(&[]);
    for _ in 0..63 {
        console::putc(&mut c, 'x');
    }
    assert!(log(&c).is_empty());
    console::putc(&mut c, 'y');
    let mut bytes = vec![b'x'; 63];
    bytes.push(b'y');
    assert_eq!(log(&c), flushed(&bytes));
    console::putc(&mut c, 'z');
    assert_eq!(log(&c).len(), 65);
}

#[test]
fn puts_puts_a_carriage_return_before_every_line_feed_and_flushes() {
    let mut c = new_console(&[]);
    console::puts(&mut c, "hi\n");
    assert_eq!(log(&c), flushed(b"hi\r\n"));

    let mut c = new_console(&[]);
    console::puts(&mut c, "\n\na\r\n");
    assert_eq!(log(&c), flushed(b"\r\n\r\na\r\r\n"));
}

#[test]
fn puts_of_nothing_with_an_empty_buffer_does_nothing() {
    let mut c = new_console(&[]);
    console::puts(&mut c, "");
    assert!(log(&c).is_empty());
}

#[test]
fn puts_sends_what_was_put_before_first() {
    let mut c = new_console(&[]);
    console::putc(&mut c, 'a');
    console::putc(&mut c, '\n');
    console::puts(&mut c, "b");
    assert_eq!(log(&c), flushed(b"a\nb"));

    let mut c = new_console(&[]);
    console::putc(&mut c, 'q');
    console::puts(&mut c, "");
    assert_eq!(log(&c), flushed(b"q"));
}

#[test]
fn a_long_text_is_sent_in_pieces_of_a_buffer_each() {
    let text: String = (0..150).map(|i| (b'a' + (i % 26) as u8) as char).collect();
    let mut c = new_console(&[]);
    console::puts(&mut c, &text);
    let bytes = text.as_bytes();
    let mut expected = flushed(&bytes[..64]);
    expected.extend(flushed(&bytes[64..128]));
    expected.extend(flushed(&bytes[128..]));
    assert_eq!(log(&c), expected);

    let mut c = new_console(&[]);
    console::puts(&mut c, &"x".repeat(64));
    assert_eq!(log(&c), flushed(&[b'x'; 64]));

    let mut c = new_console(&[]);
    console::puts(&mut c, &("x".repeat(63) + "\n"));
    let mut first = vec![b'x'; 63];
    first.push(b'\r');
    let mut expected = flushed(&first);
    expected.extend(flushed(b"\n"));
    assert_eq!(log(&c), expected);
}

#[test]
fn a_character_is_cut_to_the_low_eight_bits_of_its_code() {
    let mut c = new_console(&[]);
    console::puts(&mut c, "\u{e9}\u{141}\u{10a}\u{1F600}");
    assert_eq!(log(&c), flushed(&[0xE9, 0x41, 0x0A, 0x00]));
}

#[test]
fn put_bytes_writes_the_text_before_the_first_zero_byte() {
    let mut c = new_console(&[]);
    console::put_bytes(&mut c, b"one\ntwo\0three");
    assert_eq!(log(&c), flushed(b"one\r\ntwo"));

    let mut c = new_console(&[]);
    console::put_bytes(&mut c, b"all of it");
    assert_eq!(log(&c), flushed(b"all of it"));

    let mut c = new_console(&[]);
    console::put_bytes(&mut c, b"\0");
    assert!(log(&c).is_empty());
}

#[test]
fn init_drops_what_is_buffered_and_writes_the_greeting() {
    let mut c = new_console(&[]);
    console::putc(&mut c, '?');
    console::init(&mut c);
    assert_eq!(log(&c), flushed(b"console initialized successfully!\r\n"));
}

#[test]
fn getc_takes_a_byte_when_a_packet_was_received() {
    let mut c = new_console(&[0b10, 0x41]);
    assert_eq!(console::getc(&mut c), Some('A'));
    assert_eq!(
        log(&c),
        [
            Event::Read { addr: INT_RAW, val: 0b10 },
            Event::Read { addr: EP0, val: 0x41 },
            Event::Write { addr: INT_CLR, val: 0b10 },
        ]
    );

    let mut c = new_console(&[0xFFFF_FFFF, 0xABCD_12E9]);
    assert_eq!(console::getc(&mut c), Some('\u{e9}'));
}

#[test]
fn getc_returns_nothing_when_no_packet_was_received() {
    for status in [0u32, 1, 0b100, 0xFFFF_FFFD] {
        let mut c = new_console(&[status, 0x41]);
        assert_eq!(console::getc(&mut c), None);
        assert_eq!(log(&c), [Event::Read { addr: INT_RAW, val: status }]);
        assert_eq!(c.registers().unread(), 1);
    }
}

#[test]
fn getc_leaves_the_output_buffer_alone() {
    let mut c = new_console(&[0b10, 0x42]);
    console::putc(&mut c, 'a');
    assert_eq!(console::getc(&mut c), Some('B'));
    console::puts(&mut c, "");
    assert_eq!(&log(&c)[3..], flushed(b"a").as_slice());
}
