//! Driver for a 128x64 monochrome display on an SSD1306 controller, reached
//! over the two-wire bus.
//!
//! The driver keeps a framebuffer in the controller's page layout: one byte
//! holds eight pixels of one column, stacked vertically, bit 0 on top. Drawing
//! changes the framebuffer only; [`display`] sends it to the controller.

use vstd::prelude::*;
use crate::cstr::{bytes_text, c_len, c_str, lemma_c_len_bounds, str_len};
use crate::i2c::{
    all_acked,
    are_transfers,
    frames_events,
    is_transfer,
    lemma_frames_concat,
    lemma_frames_next,
    lemma_single_frame,
    opendrain_reads,
    pin_in_word,
    transaction_events,
    wiring_of,
    write_frame,
    write_reg_frame,
    I2c,
    I2cConfig,
};
use crate::trace::{lemma_two_steps, Event, RegisterAccess};

verus! {

/// Width of the display in pixels.
pub const SSD1306_WIDTH: usize = 128;

/// Height of the display in pixels.
pub const SSD1306_HEIGHT: usize = 64;

/// Size of the framebuffer in bytes: one bit for each pixel.
pub const SSD1306_BUFFER_LEN: usize = 1024;

/// The usual bus address of the controller.
pub const SSD1306_I2C_ADDR_DEFAULT: u8 = 0x3C;

/// The other bus address that the controller can be strapped to.
pub const SSD1306_I2C_ADDR_ALT: u8 = 0x3D;

/// Bus frequency that the display is driven at: fast mode.
pub const SSD1306_BUS_HZ: u32 = 400_000;

/// Spin-loop iterations to wait after the bus is up, for the display's power
/// to settle.
pub const SSD1306_POWER_UP_CYCLES: u32 = 100_000;

/// Command: set contrast; the level follows.
pub const SSD1306_CMD_SET_CONTRAST: u8 = 0x81;

/// Command: show the display memory again.
pub const SSD1306_CMD_DISPLAY_ALL_ON_RESUME: u8 = 0xA4;

/// Command: a lit pixel is a set bit.
pub const SSD1306_CMD_NORMAL_DISPLAY: u8 = 0xA6;

/// Command: a lit pixel is a clear bit.
pub const SSD1306_CMD_INVERT_DISPLAY: u8 = 0xA7;

/// Command: panel off.
pub const SSD1306_CMD_DISPLAY_OFF: u8 = 0xAE;

/// Command: panel on.
pub const SSD1306_CMD_DISPLAY_ON: u8 = 0xAF;

/// Command: set display offset; the offset follows.
pub const SSD1306_CMD_SET_DISPLAY_OFFSET: u8 = 0xD3;

/// Command: set start line; the line is in the low six bits.
pub const SSD1306_CMD_SET_START_LINE: u8 = 0x40;

/// Command: set memory addressing mode; the mode follows.
pub const SSD1306_CMD_MEMORY_MODE: u8 = 0x20;

/// Command: set column window; first and last column follow.
pub const SSD1306_CMD_COLUMN_ADDR: u8 = 0x21;

/// Command: set page window; first and last page follow.
pub const SSD1306_CMD_PAGE_ADDR: u8 = 0x22;

/// Command: set COM pin configuration; the configuration follows.
pub const SSD1306_CMD_SET_COM_PINS: u8 = 0xDA;

/// Command: set clock divider; the divider follows.
pub const SSD1306_CMD_SET_DISPLAY_CLK_DIV: u8 = 0xD5;

/// Command: set pre-charge period; the period follows.
pub const SSD1306_CMD_SET_PRECHARGE: u8 = 0xD9;

/// Command: set VCOM detect level; the level follows.
pub const SSD1306_CMD_SET_VCOM_DETECT: u8 = 0xDB;

/// Command: set multiplex ratio; the ratio follows.
pub const SSD1306_CMD_SET_MULTIPLEX: u8 = 0xA8;

/// Command: segment remap; the direction is in bit 0.
pub const SSD1306_CMD_SEG_REMAP: u8 = 0xA0;

/// Command: scan the COM lines downwards.
pub const SSD1306_CMD_COM_SCAN_DEC: u8 = 0xC8;

/// Command: charge pump setting; the setting follows.
pub const SSD1306_CMD_CHARGE_PUMP: u8 = 0x8D;

/// Control byte that announces one command byte.
pub const SSD1306_CONTROL_CMD_SINGLE: u8 = 0x80;

/// Control byte that announces a stream of display data.
pub const SSD1306_CONTROL_DATA_STREAM: u8 = 0x40;

/// The bring-up procedure of the controller, command by command: display
/// off; clock divider; multiplex ratio, one less than the height; no display
/// offset; start line 0; charge pump on; horizontal addressing; segment remap
/// and COM scan direction; COM pin configuration; contrast; pre-charge period;
/// VCOM detect level; show the display memory; not inverted; display on.
pub const SSD1306_INIT_SEQUENCE: [u8; 25] = [
    SSD1306_CMD_DISPLAY_OFF,
    SSD1306_CMD_SET_DISPLAY_CLK_DIV,
    0x80,
    SSD1306_CMD_SET_MULTIPLEX,
    63,
    SSD1306_CMD_SET_DISPLAY_OFFSET,
    0x00,
    SSD1306_CMD_SET_START_LINE,
    SSD1306_CMD_CHARGE_PUMP,
    0x14,
    SSD1306_CMD_MEMORY_MODE,
    0x00,
    SSD1306_CMD_SEG_REMAP | 0x01,
    SSD1306_CMD_COM_SCAN_DEC,
    SSD1306_CMD_SET_COM_PINS,
    0x12,
    SSD1306_CMD_SET_CONTRAST,
    0xCF,
    SSD1306_CMD_SET_PRECHARGE,
    0xF1,
    SSD1306_CMD_SET_VCOM_DETECT,
    0x40,
    SSD1306_CMD_DISPLAY_ALL_ON_RESUME,
    SSD1306_CMD_NORMAL_DISPLAY,
    SSD1306_CMD_DISPLAY_ON,
];

/// The commands that open the whole display memory for writing: columns 0 to
/// 127, pages 0 to 7.
pub const SSD1306_WINDOW_SEQUENCE: [u8; 6] = [
    SSD1306_CMD_COLUMN_ADDR,
    0,
    127,
    SSD1306_CMD_PAGE_ADDR,
    0,
    7,
];

/// Horizontal distance from one character of a text to the next: five glyph
/// columns and one blank column.
pub const CHAR_ADVANCE: i32 = 6;

/// Vertical distance from one line of text to the next.
pub const LINE_ADVANCE: i32 = 8;

/// A 5x7 font: for each printable ASCII character, from the space on, five
/// columns from left to right, each a byte with bit 0 for the top row.
pub type Font = [[u8; 5]; 95];

/// Bus address and pins of a display.
pub struct Ssd1306Config {
    pub i2c_addr: u8,
    pub scl_pin: i32,
    pub sda_pin: i32,
}

/// A display: its bus, its address on the bus, its framebuffer and its font.
pub struct Ssd1306<R: RegisterAccess> {
    bus: I2c<R>,
    i2c_addr: u8,
    buffer: [u8; 1024],
    font: Font,
}

// ---------------------------------------------------------------------------
// What is sent to the controller.
// ---------------------------------------------------------------------------
/// The bus configuration that a display with `config` is driven with.
pub open spec fn bus_config(config: Ssd1306Config) -> I2cConfig {
    I2cConfig { scl_pin: config.scl_pin, sda_pin: config.sda_pin, freq_hz: SSD1306_BUS_HZ }
}

/// The bytes of the transaction that sends command byte `cmd` to the
/// controller at `addr`: address byte, control byte, command.
pub open spec fn command_frame(addr: u8, cmd: u8) -> Seq<u8> {
    write_frame(addr, seq![SSD1306_CONTROL_CMD_SINGLE, cmd])
}

/// The bytes of the transaction that streams `data` into the display memory
/// of the controller at `addr`: address byte, control byte, data.
pub open spec fn data_frame(addr: u8, data: Seq<u8>) -> Seq<u8> {
    write_reg_frame(addr, SSD1306_CONTROL_DATA_STREAM, data)
}

/// One command transaction for each byte of `cmds`, in order.
pub open spec fn command_frames(addr: u8, cmds: Seq<u8>) -> Seq<Seq<u8>> {
    Seq::new(cmds.len(), |i: int| command_frame(addr, cmds[i]))
}

/// The transactions that send the framebuffer `buf` to the controller: the
/// window commands, then the whole buffer as one stream of data.
pub open spec fn flush_frames(addr: u8, buf: Seq<u8>) -> Seq<Seq<u8>> {
    command_frames(addr, SSD1306_WINDOW_SEQUENCE@).push(data_frame(addr, buf))
}

/// The transactions of [`init`]: the bring-up commands, then a blank
/// framebuffer.
pub open spec fn init_frames(addr: u8) -> Seq<Seq<u8>> {
    command_frames(addr, SSD1306_INIT_SEQUENCE@) + flush_frames(addr, blank())
}

/// How many registers [`init`] reads before the first transaction.
pub open spec fn init_reads(config: Ssd1306Config) -> nat {
    opendrain_reads(config.scl_pin) + opendrain_reads(config.sda_pin)
}

/// Everything that [`init`] does on the bus when the hardware answers
/// `heard`: the bus master is configured, the power-up delay passes, and the
/// transactions of [`init_frames`] follow.
pub open spec fn init_events(config: Ssd1306Config, heard: Seq<u32>) -> Seq<Event> {
    crate::i2c::init_events(bus_config(config), heard.take(init_reads(config) as int)) + seq![
        Event::Delay { cycles: SSD1306_POWER_UP_CYCLES },
    ] + frames_events(
        wiring_of(bus_config(config)),
        init_frames(config.i2c_addr),
        heard.skip(init_reads(config) as int),
    )
}

// ---------------------------------------------------------------------------
// The framebuffer as pixels.
// ---------------------------------------------------------------------------
/// Whether `(x, y)` is a pixel of the display.
pub open spec fn in_bounds(x: int, y: int) -> bool {
    0 <= x < SSD1306_WIDTH && 0 <= y < SSD1306_HEIGHT
}

/// Index of the framebuffer byte that holds pixel `(x, y)`.
pub open spec fn pixel_index(x: int, y: int) -> int {
    x + (y / 8) * SSD1306_WIDTH
}

/// The bit of pixel row `y` within its byte.
pub open spec fn pixel_mask(y: int) -> u8 {
    1u8 << ((y % 8) as u8)
}

/// Whether pixel `(x, y)` is lit in the framebuffer `buf`.
pub open spec fn pixel(buf: Seq<u8>, x: int, y: int) -> bool {
    buf[pixel_index(x, y)] & pixel_mask(y) != 0
}

/// The framebuffer `buf` with pixel `(x, y)` lit or cleared; unchanged if
/// `(x, y)` is no pixel of the display.
pub open spec fn with_pixel(buf: Seq<u8>, x: int, y: int, on: bool) -> Seq<u8> {
    if in_bounds(x, y) {
        let i = pixel_index(x, y);
        buf.update(
            i,
            if on {
                buf[i] | pixel_mask(y)
            } else {
                buf[i] & !pixel_mask(y)
            },
        )
    } else {
        buf
    }
}

/// The framebuffer with no pixel lit.
pub open spec fn blank() -> Seq<u8> {
    Seq::new(SSD1306_BUFFER_LEN as nat, |i: int| 0u8)
}

/// Index into the font of the glyph drawn for `c`: its own if `c` is
/// printable ASCII, and that of the space if not.
pub open spec fn glyph_index(c: char) -> int {
    if c < ' ' || c > '~' {
        0
    } else {
        c as int - 32
    }
}

/// Whether the glyph of `c` has ink at column `i` and row `j` of its 5x7 box.
pub open spec fn glyph_ink(font: Font, c: char, i: int, j: int) -> bool {
    &&& 0 <= i < 5
    &&& 0 <= j < 7
    &&& font[glyph_index(c)][i] & (1u8 << (j as u8)) != 0
}

/// The framebuffer in which exactly the pixels that `ink` holds of are lit:
/// bit `k` of byte `i` stands for the pixel in column `i % 128` and row
/// `8 * (i / 128) + k`.
pub open spec fn paint(ink: spec_fn(int, int) -> bool) -> Seq<u8> {
    Seq::new(
        SSD1306_BUFFER_LEN as nat,
        |i: int|
            bits_byte(
                ink(i % 128, (i / 128) * 8),
                ink(i % 128, (i / 128) * 8 + 1),
                ink(i % 128, (i / 128) * 8 + 2),
                ink(i % 128, (i / 128) * 8 + 3),
                ink(i % 128, (i / 128) * 8 + 4),
                ink(i % 128, (i / 128) * 8 + 5),
                ink(i % 128, (i / 128) * 8 + 6),
                ink(i % 128, (i / 128) * 8 + 7),
            ),
    )
}

/// `mask` if `on`, and 0 if not.
pub open spec fn bit_if(on: bool, mask: u8) -> u8 {
    if on {
        mask
    } else {
        0
    }
}

/// The byte with the given bits, bit 0 first.
pub open spec fn bits_byte(
    b0: bool,
    b1: bool,
    b2: bool,
    b3: bool,
    b4: bool,
    b5: bool,
    b6: bool,
    b7: bool,
) -> u8 {
    bit_if(b0, 0x01) | bit_if(b1, 0x02) | bit_if(b2, 0x04) | bit_if(b3, 0x08) | bit_if(b4, 0x10)
        | bit_if(b5, 0x20) | bit_if(b6, 0x40) | bit_if(b7, 0x80)
}

/// Where the next character goes after `c` was handled at `cursor`, in a
/// text that started in column `x`: a newline, or a cursor that reaches the
/// right edge, moves to column `x` of the next line.
pub open spec fn advance(x: int, cursor: (int, int), c: char) -> (int, int) {
    if c == '\n' || cursor.0 + CHAR_ADVANCE >= SSD1306_WIDTH {
        (x, cursor.1 + LINE_ADVANCE)
    } else {
        (cursor.0 + CHAR_ADVANCE, cursor.1)
    }
}

/// Where the next character goes after `text`, drawn from `(x, y)`.
pub open spec fn cursor_after(x: int, y: int, text: Seq<char>) -> (int, int)
    decreases text.len(),
{
    if text.len() == 0 {
        (x, y)
    } else {
        advance(x, cursor_after(x, y, text.drop_last()), text.last())
    }
}

/// Whether `text`, drawn from `(x, y)`, puts ink on pixel `(a, b)`.
pub open spec fn text_ink(font: Font, x: int, y: int, text: Seq<char>, a: int, b: int) -> bool
    decreases text.len(),
{
    if text.len() == 0 {
        false
    } else {
        let at = cursor_after(x, y, text.drop_last());
        text_ink(font, x, y, text.drop_last(), a, b) || (text.last() != '\n' && glyph_ink(
            font,
            text.last(),
            a - at.0,
            b - at.1,
        ))
    }
}

/// `v` brought into the range from 0 to `limit`.
pub open spec fn clamped(v: int, limit: int) -> int {
    if v < 0 {
        0
    } else if v > limit {
        limit
    } else {
        v
    }
}

/// Whether `(a, b)` lies in the rectangle with corner `(x, y)`, width `w` and
/// height `h`.
pub open spec fn in_rect(x: int, y: int, w: int, h: int, a: int, b: int) -> bool {
    x <= a < x + w && y <= b < y + h
}

// ---------------------------------------------------------------------------
// Bits and bytes.
// ---------------------------------------------------------------------------
proof fn lemma_byte_bits(v: u8, k: u8, j: u8)
    by (bit_vector)
    requires
        k < 8,
        j < 8,
    ensures
        ((v | (1u8 << k)) & (1u8 << j) != 0) == (j == k || v & (1u8 << j) != 0),
        ((v & !(1u8 << k)) & (1u8 << j) != 0) == (j != k && v & (1u8 << j) != 0),
        0u8 & (1u8 << j) == 0,
{
}

proof fn lemma_bytes_equal(u: u8, v: u8)
    by (bit_vector)
    requires
        (u & (1u8 << 0u8) != 0) == (v & (1u8 << 0u8) != 0),
        (u & (1u8 << 1u8) != 0) == (v & (1u8 << 1u8) != 0),
        (u & (1u8 << 2u8) != 0) == (v & (1u8 << 2u8) != 0),
        (u & (1u8 << 3u8) != 0) == (v & (1u8 << 3u8) != 0),
        (u & (1u8 << 4u8) != 0) == (v & (1u8 << 4u8) != 0),
        (u & (1u8 << 5u8) != 0) == (v & (1u8 << 5u8) != 0),
        (u & (1u8 << 6u8) != 0) == (v & (1u8 << 6u8) != 0),
        (u & (1u8 << 7u8) != 0) == (v & (1u8 << 7u8) != 0),
    ensures
        u == v,
{
}

proof fn lemma_low_bits(y: usize)
    by (bit_vector)
    ensures
        y & 7 == y % 8,
{
}

proof fn lemma_bits_byte(
    b0: bool,
    b1: bool,
    b2: bool,
    b3: bool,
    b4: bool,
    b5: bool,
    b6: bool,
    b7: bool,
)
    by (bit_vector)
    ensures
        (bits_byte(b0, b1, b2, b3, b4, b5, b6, b7) & (1u8 << 0u8) != 0) == b0,
        (bits_byte(b0, b1, b2, b3, b4, b5, b6, b7) & (1u8 << 1u8) != 0) == b1,
        (bits_byte(b0, b1, b2, b3, b4, b5, b6, b7) & (1u8 << 2u8) != 0) == b2,
        (bits_byte(b0, b1, b2, b3, b4, b5, b6, b7) & (1u8 << 3u8) != 0) == b3,
        (bits_byte(b0, b1, b2, b3, b4, b5, b6, b7) & (1u8 << 4u8) != 0) == b4,
        (bits_byte(b0, b1, b2, b3, b4, b5, b6, b7) & (1u8 << 5u8) != 0) == b5,
        (bits_byte(b0, b1, b2, b3, b4, b5, b6, b7) & (1u8 << 6u8) != 0) == b6,
        (bits_byte(b0, b1, b2, b3, b4, b5, b6, b7) & (1u8 << 7u8) != 0) == b7,
{
}

/// In the framebuffer painted from `ink`, a pixel is lit exactly where `ink`
/// holds.
pub proof fn lemma_paint(ink: spec_fn(int, int) -> bool)
    ensures
        paint(ink).len() == SSD1306_BUFFER_LEN,
        forall|a: int, b: int| in_bounds(a, b) ==> #[trigger] pixel(paint(ink), a, b) == ink(a, b),
{
    assert forall|a: int, b: int| in_bounds(a, b) implies #[trigger] pixel(paint(ink), a, b) == ink(
        a,
        b,
    ) by {
        let i = pixel_index(a, b);
        let x = i % 128;
        let top = (i / 128) * 8;
        assert(x == a && top == (b / 8) * 8);
        lemma_bits_byte(
            ink(x, top),
            ink(x, top + 1),
            ink(x, top + 2),
            ink(x, top + 3),
            ink(x, top + 4),
            ink(x, top + 5),
            ink(x, top + 6),
            ink(x, top + 7),
        );
        let k = b % 8;
        assert(b == top + k);
        assert((k as u8) == 0 || (k as u8) == 1 || (k as u8) == 2 || (k as u8) == 3 || (k as u8)
            == 4 || (k as u8) == 5 || (k as u8) == 6 || (k as u8) == 7);
    }
}

/// Lighting or clearing a pixel changes that pixel and no other, and keeps
/// the size of the framebuffer.
pub proof fn lemma_with_pixel(buf: Seq<u8>, x: int, y: int, on: bool)
    requires
        buf.len() == SSD1306_BUFFER_LEN,
    ensures
        with_pixel(buf, x, y, on).len() == SSD1306_BUFFER_LEN,
        forall|a: int, b: int|
            in_bounds(a, b) ==> #[trigger] pixel(with_pixel(buf, x, y, on), a, b) == if a == x && b
                == y {
                on
            } else {
                pixel(buf, a, b)
            },
{
    let new = with_pixel(buf, x, y, on);
    assert forall|a: int, b: int| in_bounds(a, b) implies #[trigger] pixel(new, a, b) == if a == x
        && b == y {
        on
    } else {
        pixel(buf, a, b)
    } by {
        if in_bounds(x, y) {
            let i = pixel_index(x, y);
            if pixel_index(a, b) == i {
                assert(a == x && b / 8 == y / 8);
                lemma_byte_bits(buf[i], (y % 8) as u8, (b % 8) as u8);
            }
        }
    }
}

/// Bit `k` of byte `i` is a pixel, so two framebuffers with the same pixels
/// agree on it.
proof fn lemma_same_bit(b1: Seq<u8>, b2: Seq<u8>, i: int, k: u8)
    requires
        0 <= i < SSD1306_BUFFER_LEN,
        k < 8,
        forall|a: int, b: int| in_bounds(a, b) ==> pixel(b1, a, b) == pixel(b2, a, b),
    ensures
        (b1[i] & (1u8 << k) != 0) == (b2[i] & (1u8 << k) != 0),
{
    let x = i % 128;
    let y = (i / 128) * 8 + k;
    assert(in_bounds(x, y));
    assert(pixel_index(x, y) == i);
    assert((y % 8) as u8 == k);
    assert(pixel(b1, x, y) == pixel(b2, x, y));
}

/// A framebuffer is determined by its pixels.
pub proof fn law_pixels_determine_buffer(b1: Seq<u8>, b2: Seq<u8>)
    requires
        b1.len() == SSD1306_BUFFER_LEN,
        b2.len() == SSD1306_BUFFER_LEN,
        forall|a: int, b: int| in_bounds(a, b) ==> pixel(b1, a, b) == pixel(b2, a, b),
    ensures
        b1 == b2,
{
    assert forall|i: int| 0 <= i < b1.len() implies b1[i] == b2[i] by {
        lemma_same_bit(b1, b2, i, 0);
        lemma_same_bit(b1, b2, i, 1);
        lemma_same_bit(b1, b2, i, 2);
        lemma_same_bit(b1, b2, i, 3);
        lemma_same_bit(b1, b2, i, 4);
        lemma_same_bit(b1, b2, i, 5);
        lemma_same_bit(b1, b2, i, 6);
        lemma_same_bit(b1, b2, i, 7);
        lemma_bytes_equal(b1[i], b2[i]);
    }
    assert(b1 =~= b2);
}

/// A framebuffer of which every pixel is known is known byte for byte: if
/// exactly the pixels that `lit` holds of are lit, it is the one painted from
/// `lit`. So a contract that says of every pixel whether it is lit says what
/// the framebuffer is.
pub proof fn law_buffer_is_painted(buf: Seq<u8>, lit: spec_fn(int, int) -> bool)
    requires
        buf.len() == SSD1306_BUFFER_LEN,
        forall|a: int, b: int| in_bounds(a, b) ==> pixel(buf, a, b) == lit(a, b),
    ensures
        buf == paint(lit),
{
    lemma_paint(lit);
    law_pixels_determine_buffer(buf, paint(lit));
}

/// Lighting a dark pixel and clearing it again restores the framebuffer.
pub proof fn law_set_then_clear_restores(buf: Seq<u8>, x: int, y: int)
    requires
        buf.len() == SSD1306_BUFFER_LEN,
        in_bounds(x, y),
        !pixel(buf, x, y),
    ensures
        with_pixel(with_pixel(buf, x, y, true), x, y, false) == buf,
{
    let lit = with_pixel(buf, x, y, true);
    let back = with_pixel(lit, x, y, false);
    lemma_with_pixel(buf, x, y, true);
    lemma_with_pixel(lit, x, y, false);
    law_pixels_determine_buffer(back, buf);
}

/// Clearing a pixel after lighting it gives what clearing it alone gives,
/// whatever the pixel was before.
pub proof fn law_set_then_clear(buf: Seq<u8>, x: int, y: int)
    requires
        buf.len() == SSD1306_BUFFER_LEN,
    ensures
        with_pixel(with_pixel(buf, x, y, true), x, y, false) == with_pixel(buf, x, y, false),
{
    let lit = with_pixel(buf, x, y, true);
    lemma_with_pixel(buf, x, y, true);
    lemma_with_pixel(buf, x, y, false);
    lemma_with_pixel(lit, x, y, false);
    law_pixels_determine_buffer(with_pixel(lit, x, y, false), with_pixel(buf, x, y, false));
}

/// The numbers in the command sequences are those of this display: the
/// multiplex ratio is the last row, and the window runs to the last column
/// and the last page.
pub proof fn law_sequences_fit_the_display()
    ensures
        SSD1306_INIT_SEQUENCE@.len() == 25,
        SSD1306_INIT_SEQUENCE@[3] == SSD1306_CMD_SET_MULTIPLEX,
        SSD1306_INIT_SEQUENCE@[4] == SSD1306_HEIGHT - 1,
        SSD1306_INIT_SEQUENCE@[0] == SSD1306_CMD_DISPLAY_OFF,
        SSD1306_INIT_SEQUENCE@[24] == SSD1306_CMD_DISPLAY_ON,
        SSD1306_WINDOW_SEQUENCE@ == seq![
            SSD1306_CMD_COLUMN_ADDR,
            0u8,
            (SSD1306_WIDTH - 1) as u8,
            SSD1306_CMD_PAGE_ADDR,
            0u8,
            (SSD1306_HEIGHT / 8 - 1) as u8,
        ],
        SSD1306_BUFFER_LEN == SSD1306_WIDTH * SSD1306_HEIGHT / 8,
{
    assert(SSD1306_WINDOW_SEQUENCE@ =~= seq![
        SSD1306_CMD_COLUMN_ADDR,
        0u8,
        (SSD1306_WIDTH - 1) as u8,
        SSD1306_CMD_PAGE_ADDR,
        0u8,
        (SSD1306_HEIGHT / 8 - 1) as u8,
    ]);
}

/// No pixel of the blank framebuffer is lit.
pub proof fn lemma_blank_dark()
    ensures
        blank().len() == SSD1306_BUFFER_LEN,
        forall|a: int, b: int| in_bounds(a, b) ==> !#[trigger] pixel(blank(), a, b),
{
    assert forall|a: int, b: int| in_bounds(a, b) implies !#[trigger] pixel(blank(), a, b) by {
        lemma_byte_bits(0, 0, (b % 8) as u8);
    }
}

/// How many characters fit on a line of text that starts in column 0: the
/// last one begins in column 126 and is cut off by the right edge.
pub const CHARS_PER_LINE: usize = 22;

/// A text that starts left of the right edge never puts a character at or
/// beyond it: the cursor wraps to the next line instead.
pub proof fn law_cursor_left_of_edge(x: int, y: int, text: Seq<char>)
    requires
        x < SSD1306_WIDTH,
    ensures
        cursor_after(x, y, text).0 < SSD1306_WIDTH,
    decreases text.len(),
{
    if text.len() > 0 {
        law_cursor_left_of_edge(x, y, text.drop_last());
    }
}

/// Where a text without newlines that starts in column 0 leaves the cursor:
/// 22 characters to a line, 6 columns to a character, 8 rows to a line.
pub proof fn law_line_wrap(y: int, text: Seq<char>)
    requires
        forall|i: int| 0 <= i < text.len() ==> text[i] != '\n',
    ensures
        cursor_after(0, y, text) == (
            CHAR_ADVANCE * (text.len() % CHARS_PER_LINE as nat),
            y + LINE_ADVANCE * (text.len() / CHARS_PER_LINE as nat),
        ),
    decreases text.len(),
{
    if text.len() > 0 {
        law_line_wrap(y, text.drop_last());
        assert(text.last() == text[text.len() - 1]);
    }
}

/// The cursor never moves up.
pub proof fn lemma_cursor_descends(x: int, y: int, text: Seq<char>, k: int)
    requires
        0 <= k <= text.len(),
    ensures
        cursor_after(x, y, text.take(k)).1 <= cursor_after(x, y, text).1,
    decreases text.len() - k,
{
    if k == text.len() {
        assert(text.take(k) =~= text);
    } else {
        assert(text.drop_last().take(k) =~= text.take(k));
        lemma_cursor_descends(x, y, text.drop_last(), k);
    }
}

/// Once the cursor is below the display, the rest of a text puts no ink on
/// it.
pub proof fn lemma_text_below(font: Font, x: int, y: int, text: Seq<char>, k: int, a: int, b: int)
    requires
        0 <= k <= text.len(),
        cursor_after(x, y, text.take(k)).1 >= SSD1306_HEIGHT,
        in_bounds(a, b),
    ensures
        text_ink(font, x, y, text, a, b) == text_ink(font, x, y, text.take(k), a, b),
    decreases text.len() - k,
{
    if k == text.len() {
        assert(text.take(k) =~= text);
    } else {
        let shorter = text.drop_last();
        assert(shorter.take(k) =~= text.take(k));
        lemma_text_below(font, x, y, shorter, k, a, b);
        lemma_cursor_descends(x, y, shorter, k);
    }
}

// ---------------------------------------------------------------------------
// The display.
// ---------------------------------------------------------------------------
impl<R: RegisterAccess> Ssd1306<R> {
    /// The bus master is well-formed.
    pub open spec fn wf(&self) -> bool {
        self.bus().wf()
    }

    /// The bus that the display is on.
    pub closed spec fn bus(&self) -> I2c<R> {
        self.bus
    }

    /// The display's address on the bus.
    pub closed spec fn addr(&self) -> u8 {
        self.i2c_addr
    }

    /// The framebuffer: 1024 bytes in page layout.
    pub closed spec fn buffer(&self) -> Seq<u8> {
        self.buffer@
    }

    /// The font that text is drawn with.
    pub closed spec fn font(&self) -> Font {
        self.font
    }

    /// `self` is `before` with the framebuffer `buffer`: nothing was sent and
    /// nothing else has changed.
    pub open spec fn drew(&self, before: &Self, buffer: Seq<u8>) -> bool {
        &&& self.bus() == before.bus()
        &&& self.addr() == before.addr()
        &&& self.font() == before.font()
        &&& self.buffer() == buffer
    }

    /// `self` is `before` after the transactions of `frames` were made on the
    /// bus, each ended by the first byte that was not acknowledged: nothing
    /// else was done on the bus and nothing else has changed.
    pub open spec fn sent(&self, before: &Self, frames: Seq<Seq<u8>>) -> bool {
        let w = before.bus().wiring();
        let heard = self.bus().heard_since(&before.bus());
        &&& self.addr() == before.addr()
        &&& self.font() == before.font()
        &&& self.buffer() == before.buffer()
        &&& are_transfers(w, frames, heard)
        &&& self.bus().after(&before.bus(), frames_events(w, frames, heard), heard)
    }

    /// `self` is `before` with more pixels lit, namely those that `ink` holds
    /// of: nothing was sent and nothing else has changed.
    pub open spec fn inked(&self, before: &Self, ink: spec_fn(int, int) -> bool) -> bool {
        &&& self.bus() == before.bus()
        &&& self.addr() == before.addr()
        &&& self.font() == before.font()
        &&& self.buffer().len() == SSD1306_BUFFER_LEN
        &&& forall|a: int, b: int|
            in_bounds(a, b) ==> #[trigger] pixel(self.buffer(), a, b) == (pixel(
                before.buffer(),
                a,
                b,
            ) || ink(a, b))
    }

    /// The framebuffer always has its full size.
    pub proof fn lemma_buffer_len(&self)
        ensures
            self.buffer().len() == SSD1306_BUFFER_LEN,
    {
        broadcast use vstd::array::group_array_axioms;

    }

    /// A display that was not initialized yet: the bus master is not
    /// configured, the address is 0 and the framebuffer is blank.
    pub fn new(regs: R, font: Font) -> (display: Self)
        ensures
            display.wf(),
            display.bus().wiring() == crate::i2c::unconfigured(),
            display.bus().trace() == Seq::<crate::trace::Event>::empty(),
            display.bus().answers() == Seq::<u32>::empty(),
            display.addr() == 0,
            display.buffer() == blank(),
            display.font() == font,
    {
        let display = Ssd1306 { bus: I2c::new(regs), i2c_addr: 0, buffer: [0u8;1024], font };
        proof {
            broadcast use vstd::array::group_array_axioms;

            assert(display.buffer() =~= blank());
        }
        display
    }

    /// The framebuffer, for reading.
    pub fn framebuffer(&self) -> (buf: &[u8; 1024])
        ensures
            buf@ == self.buffer(),
    {
        &self.buffer
    }

    /// The display's address on the bus.
    pub fn address(&self) -> (addr: u8)
        ensures
            addr == self.addr(),
    {
        self.i2c_addr
    }

    /// The bus master, for reading.
    pub fn bus_ref(&self) -> (bus: &I2c<R>)
        ensures
            *bus == self.bus(),
    {
        &self.bus
    }

    /// The register interface underneath, for reading.
    pub fn registers(&self) -> (regs: &R)
        ensures
            *regs == self.bus().regs(),
    {
        self.bus.registers()
    }

    /// Gives the register interface back.
    pub fn into_registers(self) -> (regs: R)
        ensures
            regs == self.bus().regs(),
    {
        self.bus.into_registers()
    }
}

/// Turns every pixel of the framebuffer off. Nothing is sent to the display.
pub fn clear<R: RegisterAccess>(display: &mut Ssd1306<R>)
    ensures
        final(display).drew(old(display), blank()),
{
    let mut i: usize = 0;
    while i < SSD1306_BUFFER_LEN
        invariant
            i <= SSD1306_BUFFER_LEN,
            display.bus() == old(display).bus(),
            display.addr() == old(display).addr(),
            display.font() == old(display).font(),
            display.buffer().len() == SSD1306_BUFFER_LEN,
            forall|k: int| 0 <= k < i ==> display.buffer()[k] == 0,
        decreases SSD1306_BUFFER_LEN - i,
    {
        display.buffer[i] = 0;
        i += 1;
    }
    proof {
        assert(display.buffer() =~= blank());
    }
}

/// Lights pixel `(x, y)` if `color` is not zero and clears it if it is. A
/// position outside the display is ignored.
pub fn set_pixel<R: RegisterAccess>(display: &mut Ssd1306<R>, x: i32, y: i32, color: u8)
    ensures
        final(display).drew(
            old(display),
            with_pixel(old(display).buffer(), x as int, y as int, color != 0),
        ),
        !in_bounds(x as int, y as int) ==> final(display).buffer() == old(display).buffer(),
{
    if x < 0 || x >= SSD1306_WIDTH as i32 || y < 0 || y >= SSD1306_HEIGHT as i32 {
        return ;
    }
    let x = x as usize;
    let y = y as usize;
    let index = x + (y / 8) * SSD1306_WIDTH;
    let bit = (y & 7) as u8;
    proof {
        lemma_low_bits(y);
        display.lemma_buffer_len();
    }
    if color != 0 {
        display.buffer[index] = display.buffer[index] | (1u8 << bit);
    } else {
        display.buffer[index] = display.buffer[index] & !(1u8 << bit);
    }
}

/// Draws the glyph of `c` with its top left corner at `(x, y)`: every pixel
/// that the glyph has ink on is lit, as far as it lies on the display, and no
/// pixel is cleared. A character that is not printable ASCII is drawn as a
/// space.
pub fn draw_char<R: RegisterAccess>(display: &mut Ssd1306<R>, x: i32, y: i32, c: char)
    ensures
        final(display).inked(
            old(display),
            |a: int, b: int| glyph_ink(old(display).font(), c, a - x, b - y),
        ),
{
    let ghost font = display.font();
    let ghost before = display.buffer();
    proof {
        display.lemma_buffer_len();
    }
    if x <= -5 || x >= SSD1306_WIDTH as i32 || y <= -7 || y >= SSD1306_HEIGHT as i32 {
        return ;
    }
    let shown = if c < ' ' || c > '~' {
        ' '
    } else {
        c
    };
    let idx = (shown as usize) - 32;

    let mut i: usize = 0;
    while i < 5
        invariant
            i <= 5,
            -5 < x < SSD1306_WIDTH,
            -7 < y < SSD1306_HEIGHT,
            idx == glyph_index(c),
            font == old(display).font(),
            before == old(display).buffer(),
            display.bus() == old(display).bus(),
            display.addr() == old(display).addr(),
            display.font() == font,
            display.buffer().len() == SSD1306_BUFFER_LEN,
            forall|a: int, b: int|
                in_bounds(a, b) ==> #[trigger] pixel(display.buffer(), a, b) == (pixel(before, a, b)
                    || (glyph_ink(font, c, a - x, b - y) && a - x < i)),
        decreases 5 - i,
    {
        let line = display.font[idx][i];
        let mut j: u8 = 0;
        while j < 7
            invariant
                i < 5,
                j <= 7,
                -5 < x < SSD1306_WIDTH,
                -7 < y < SSD1306_HEIGHT,
                idx == glyph_index(c),
                line == font[idx as int][i as int],
                display.bus() == old(display).bus(),
                display.addr() == old(display).addr(),
                display.font() == font,
                display.buffer().len() == SSD1306_BUFFER_LEN,
                forall|a: int, b: int|
                    in_bounds(a, b) ==> #[trigger] pixel(display.buffer(), a, b) == (pixel(
                        before,
                        a,
                        b,
                    ) || (glyph_ink(font, c, a - x, b - y) && (a - x < i || (a - x == i && b - y
                        < j)))),
            decreases 7 - j,
        {
            if (line & (1 << j)) != 0 {
                let ghost was = display.buffer();
                set_pixel(display, x + i as i32, y + j as i32, 1);
                proof {
                    lemma_with_pixel(was, x + i, y + j, true);
                }
            }
            j += 1;
        }
        i += 1;
    }
}

/// Handles one character of a text that started in column `x`, with the
/// cursor at `(cursor_x, cursor_y)` above the lower edge: a newline draws
/// nothing, any other character is drawn at the cursor. Returns where the
/// next character goes.
fn draw_next<R: RegisterAccess>(
    display: &mut Ssd1306<R>,
    x: i32,
    cursor_x: i32,
    cursor_y: i32,
    c: char,
) -> (next: (i32, i32))
    requires
        cursor_y < SSD1306_HEIGHT,
    ensures
        final(display).inked(
            old(display),
            |a: int, b: int|
                c != '\n' && glyph_ink(old(display).font(), c, a - cursor_x, b - cursor_y),
        ),
        (next.0 as int, next.1 as int) == advance(x as int, (cursor_x as int, cursor_y as int), c),
{
    proof {
        display.lemma_buffer_len();
    }
    if c == '\n' {
        (x, cursor_y + LINE_ADVANCE)
    } else {
        draw_char(display, cursor_x, cursor_y, c);
        if cursor_x >= SSD1306_WIDTH as i32 - CHAR_ADVANCE {
            (x, cursor_y + LINE_ADVANCE)
        } else {
            (cursor_x + CHAR_ADVANCE, cursor_y)
        }
    }
}

/// Draws `s` from `(x, y)` on, one glyph after the other, 6 columns apart. A
/// newline, or a cursor that reaches the right edge, continues in column `x`,
/// 8 rows further down. Pixels are lit where a glyph has ink on the display;
/// none is cleared.
pub fn draw_string<R: RegisterAccess>(display: &mut Ssd1306<R>, x: i32, y: i32, s: &str)
    ensures
        final(display).inked(
            old(display),
            |a: int, b: int| text_ink(old(display).font(), x as int, y as int, s@, a, b),
        ),
{
    let ghost font = display.font();
    let ghost before = display.buffer();
    proof {
        display.lemma_buffer_len();
    }
    let mut cursor_x = x;
    let mut cursor_y = y;

    for c in it: s.chars()
        invariant
            it.seq() == s@,
            font == old(display).font(),
            before == old(display).buffer(),
            (cursor_x as int, cursor_y as int) == cursor_after(
                x as int,
                y as int,
                s@.take(it.index() as int),
            ),
            display.bus() == old(display).bus(),
            display.addr() == old(display).addr(),
            display.font() == font,
            display.buffer().len() == SSD1306_BUFFER_LEN,
            forall|a: int, b: int|
                in_bounds(a, b) ==> #[trigger] pixel(display.buffer(), a, b) == (pixel(before, a, b)
                    || text_ink(font, x as int, y as int, s@.take(it.index() as int), a, b)),
    {
        let ghost k = it.index() as int;
        proof {
            assert(s@.take(k + 1).drop_last() =~= s@.take(k));
            assert(s@.take(k + 1).last() == c);
        }
        if cursor_y >= SSD1306_HEIGHT as i32 {
            proof {
                assert forall|a: int, b: int| in_bounds(a, b) implies text_ink(
                    font,
                    x as int,
                    y as int,
                    s@,
                    a,
                    b,
                ) == text_ink(font, x as int, y as int, s@.take(k), a, b) by {
                    lemma_text_below(font, x as int, y as int, s@, k, a, b);
                }
            }
            return ;
        }
        let next = draw_next(display, x, cursor_x, cursor_y, c);
        cursor_x = next.0;
        cursor_y = next.1;
    }
    proof {
        assert(s@.take(s@.len() as int) =~= s@);
    }
}

/// Draws the text in `bytes`, which ends at the first zero byte if there is
/// one, as [`draw_string`] draws a string: each byte stands for the character
/// with its code.
pub fn draw_bytes<R: RegisterAccess>(display: &mut Ssd1306<R>, x: i32, y: i32, bytes: &[u8])
    ensures
        final(display).inked(
            old(display),
            |a: int, b: int|
                text_ink(
                    old(display).font(),
                    x as int,
                    y as int,
                    bytes_text(c_str(bytes@)),
                    a,
                    b,
                ),
        ),
{
    let ghost font = display.font();
    let ghost before = display.buffer();
    let ghost text = bytes_text(c_str(bytes@));
    proof {
        display.lemma_buffer_len();
        lemma_c_len_bounds(bytes@);
    }
    let len = str_len(bytes);
    let mut cursor_x = x;
    let mut cursor_y = y;
    let mut i: usize = 0;
    while i < len
        invariant
            i <= len,
            len == c_len(bytes@),
            len <= bytes.len(),
            text == bytes_text(c_str(bytes@)),
            text.len() == len,
            font == old(display).font(),
            before == old(display).buffer(),
            (cursor_x as int, cursor_y as int) == cursor_after(
                x as int,
                y as int,
                text.take(i as int),
            ),
            display.bus() == old(display).bus(),
            display.addr() == old(display).addr(),
            display.font() == font,
            display.buffer().len() == SSD1306_BUFFER_LEN,
            forall|a: int, b: int|
                in_bounds(a, b) ==> #[trigger] pixel(display.buffer(), a, b) == (pixel(before, a, b)
                    || text_ink(font, x as int, y as int, text.take(i as int), a, b)),
        decreases len - i,
    {
        let c = bytes[i] as char;
        proof {
            assert(text.take(i + 1).drop_last() =~= text.take(i as int));
            assert(text.take(i + 1).last() == c);
        }
        if cursor_y >= SSD1306_HEIGHT as i32 {
            proof {
                assert forall|a: int, b: int| in_bounds(a, b) implies text_ink(
                    font,
                    x as int,
                    y as int,
                    text,
                    a,
                    b,
                ) == text_ink(font, x as int, y as int, text.take(i as int), a, b) by {
                    lemma_text_below(font, x as int, y as int, text, i as int, a, b);
                }
            }
            return ;
        }
        let next = draw_next(display, x, cursor_x, cursor_y, c);
        cursor_x = next.0;
        cursor_y = next.1;
        i += 1;
    }
    proof {
        assert(text.take(text.len() as int) =~= text);
    }
}

/// Fills the rectangle with corner `(x, y)`, width `w` and height `h`: each of
/// its pixels that lies on the display is lit if `color` is not zero and
/// cleared if it is. No other pixel changes.
pub fn fill_rect<R: RegisterAccess>(
    display: &mut Ssd1306<R>,
    x: i32,
    y: i32,
    w: i32,
    h: i32,
    color: u8,
)
    ensures
        final(display).bus() == old(display).bus(),
        final(display).addr() == old(display).addr(),
        final(display).font() == old(display).font(),
        final(display).buffer().len() == SSD1306_BUFFER_LEN,
        forall|a: int, b: int|
            in_bounds(a, b) ==> #[trigger] pixel(final(display).buffer(), a, b) == if in_rect(
                x as int,
                y as int,
                w as int,
                h as int,
                a,
                b,
            ) {
                color != 0
            } else {
                pixel(old(display).buffer(), a, b)
            },
{
    let ghost before = display.buffer();
    proof {
        display.lemma_buffer_len();
    }
    let right = x as i64 + w as i64;
    let bottom = y as i64 + h as i64;
    let x0: i32 = if x < 0 {
        0
    } else {
        x
    };
    let y0: i32 = if y < 0 {
        0
    } else {
        y
    };
    let x1: i32 = if right > SSD1306_WIDTH as i64 {
        SSD1306_WIDTH as i32
    } else if right < 0 {
        0
    } else {
        right as i32
    };
    let y1: i32 = if bottom > SSD1306_HEIGHT as i64 {
        SSD1306_HEIGHT as i32
    } else if bottom < 0 {
        0
    } else {
        bottom as i32
    };

    let mut i: i32 = x0;
    while i < x1
        invariant
            x0 <= i || x1 <= i,
            0 <= x0,
            0 <= y0,
            x0 == clamped(x as int, i32::MAX as int),
            y0 == clamped(y as int, i32::MAX as int),
            x1 == clamped(x + w, SSD1306_WIDTH as int),
            y1 == clamped(y + h, SSD1306_HEIGHT as int),
            before == old(display).buffer(),
            display.bus() == old(display).bus(),
            display.addr() == old(display).addr(),
            display.font() == old(display).font(),
            display.buffer().len() == SSD1306_BUFFER_LEN,
            forall|a: int, b: int|
                in_bounds(a, b) ==> #[trigger] pixel(display.buffer(), a, b) == if in_rect(
                    x as int,
                    y as int,
                    w as int,
                    h as int,
                    a,
                    b,
                ) && a < i {
                    color != 0
                } else {
                    pixel(before, a, b)
                },
        decreases x1 - i,
    {
        let mut j: i32 = y0;
        while j < y1
            invariant
                x0 <= i < x1,
                y0 <= j || y1 <= j,
                0 <= x0,
                0 <= y0,
                x0 == clamped(x as int, i32::MAX as int),
                y0 == clamped(y as int, i32::MAX as int),
                x1 == clamped(x + w, SSD1306_WIDTH as int),
                y1 == clamped(y + h, SSD1306_HEIGHT as int),
                display.bus() == old(display).bus(),
                display.addr() == old(display).addr(),
                display.font() == old(display).font(),
                display.buffer().len() == SSD1306_BUFFER_LEN,
                forall|a: int, b: int|
                    in_bounds(a, b) ==> #[trigger] pixel(display.buffer(), a, b) == if in_rect(
                        x as int,
                        y as int,
                        w as int,
                        h as int,
                        a,
                        b,
                    ) && (a < i || (a == i && b < j)) {
                        color != 0
                    } else {
                        pixel(before, a, b)
                    },
            decreases y1 - j,
        {
            let ghost was = display.buffer();
            set_pixel(display, i, j, color);
            proof {
                lemma_with_pixel(was, i as int, j as int, color != 0);
            }
            j += 1;
        }
        i += 1;
    }
}

/// Sends one command byte to the controller. Returns whether every byte of
/// the transaction was acknowledged.
fn send_command<R: RegisterAccess>(bus: &mut I2c<R>, addr: u8, cmd: u8) -> (ok: bool)
    requires
        old(bus).wf(),
    ensures
        is_transfer(old(bus).wiring(), command_frame(addr, cmd), final(bus).heard_since(old(bus))),
        final(bus).after(
            old(bus),
            transaction_events(
                old(bus).wiring(),
                command_frame(addr, cmd),
                final(bus).heard_since(old(bus)),
            ),
            final(bus).heard_since(old(bus)),
        ),
        ok == all_acked(
            old(bus).wiring(),
            command_frame(addr, cmd),
            final(bus).heard_since(old(bus)),
        ),
{
    let data = [SSD1306_CONTROL_CMD_SINGLE, cmd];
    proof {
        assert(data@ =~= seq![SSD1306_CONTROL_CMD_SINGLE, cmd]);
    }
    crate::i2c::write(bus, addr, &data)
}

/// Streams `data` into the display memory of the controller. Returns whether
/// every byte of the transaction was acknowledged.
fn send_data<R: RegisterAccess>(bus: &mut I2c<R>, addr: u8, data: &[u8]) -> (ok: bool)
    requires
        old(bus).wf(),
    ensures
        is_transfer(old(bus).wiring(), data_frame(addr, data@), final(bus).heard_since(old(bus))),
        final(bus).after(
            old(bus),
            transaction_events(
                old(bus).wiring(),
                data_frame(addr, data@),
                final(bus).heard_since(old(bus)),
            ),
            final(bus).heard_since(old(bus)),
        ),
        ok == all_acked(
            old(bus).wiring(),
            data_frame(addr, data@),
            final(bus).heard_since(old(bus)),
        ),
{
    crate::i2c::write_reg(bus, addr, SSD1306_CONTROL_DATA_STREAM, data)
}

/// Sends the command bytes of `cmds`, each in a transaction of its own,
/// whether or not the ones before were acknowledged.
fn send_commands<R: RegisterAccess>(bus: &mut I2c<R>, addr: u8, cmds: &[u8])
    requires
        old(bus).wf(),
    ensures
        are_transfers(
            old(bus).wiring(),
            command_frames(addr, cmds@),
            final(bus).heard_since(old(bus)),
        ),
        final(bus).after(
            old(bus),
            frames_events(
                old(bus).wiring(),
                command_frames(addr, cmds@),
                final(bus).heard_since(old(bus)),
            ),
            final(bus).heard_since(old(bus)),
        ),
{
    let ghost before = *bus;
    let ghost w = bus.wiring();
    let ghost mut heard: Seq<u32> = Seq::empty();
    let mut i: usize = 0;
    proof {
        assert(command_frames(addr, cmds@.take(0)) =~= Seq::<Seq<u8>>::empty());
        assert(bus.trace() =~= before.trace() + Seq::<Event>::empty());
        assert(bus.answers() =~= before.answers() + heard);
    }
    while i < cmds.len()
        invariant
            i <= cmds.len(),
            bus.wf(),
            before == *old(bus),
            w == before.wiring(),
            are_transfers(w, command_frames(addr, cmds@.take(i as int)), heard),
            bus.after(
                &before,
                frames_events(w, command_frames(addr, cmds@.take(i as int)), heard),
                heard,
            ),
        decreases cmds.len() - i,
    {
        let ghost was = *bus;
        let ghost done = command_frames(addr, cmds@.take(i as int));
        send_command(bus, addr, cmds[i]);
        proof {
            let frame = command_frame(addr, cmds@[i as int]);
            let samples = bus.heard_since(&was);
            lemma_frames_next(w, done, heard, frame, samples);
            assert(command_frames(addr, cmds@.take(i + 1)) =~= done.push(frame));
            lemma_two_steps(
                before.trace(),
                frames_events(w, done, heard),
                transaction_events(w, frame, samples),
                was.trace(),
                bus.trace(),
            );
            lemma_two_steps(before.answers(), heard, samples, was.answers(), bus.answers());
            heard = heard + samples;
        }
        i += 1;
    }
    proof {
        assert(cmds@.take(cmds@.len() as int) =~= cmds@);
        assert(bus.heard_since(&before) =~= heard);
    }
}

/// Sends the framebuffer to the display: the window is set to the whole
/// display memory, then the framebuffer is streamed in one transaction.
pub fn display<R: RegisterAccess>(display: &mut Ssd1306<R>)
    requires
        old(display).wf(),
    ensures
        final(display).sent(
            old(display),
            flush_frames(old(display).addr(), old(display).buffer()),
        ),
{
    let ghost before = display.bus;
    let ghost w = display.bus.wiring();
    let ghost addr = display.i2c_addr;
    send_commands(&mut display.bus, display.i2c_addr, &SSD1306_WINDOW_SEQUENCE);
    let ghost windowed = display.bus;
    send_data(&mut display.bus, display.i2c_addr, &display.buffer);
    proof {
        let cmds = command_frames(addr, SSD1306_WINDOW_SEQUENCE@);
        let frame = data_frame(addr, display.buffer());
        let h1 = windowed.heard_since(&before);
        let h2 = display.bus.heard_since(&windowed);
        lemma_frames_next(w, cmds, h1, frame, h2);
        lemma_two_steps(
            before.trace(),
            frames_events(w, cmds, h1),
            transaction_events(w, frame, h2),
            windowed.trace(),
            display.bus.trace(),
        );
        lemma_two_steps(before.answers(), h1, h2, windowed.answers(), display.bus.answers());
        assert(display.bus.heard_since(&before) =~= h1 + h2);
    }
}

/// Brings the display up: takes the address, configures the bus master on the
/// given pins at 400 kHz, waits for the power to settle, sends the bring-up
/// commands, then blanks the framebuffer and sends it. No acknowledgment is
/// looked at: the result is `true` whether or not a display answered.
pub fn init<R: RegisterAccess>(display: &mut Ssd1306<R>, config: &Ssd1306Config) -> (ok: bool)
    requires
        pin_in_word(config.scl_pin),
        pin_in_word(config.sda_pin),
    ensures
        ok,
        final(display).wf(),
        final(display).addr() == config.i2c_addr,
        final(display).font() == old(display).font(),
        final(display).buffer() == blank(),
        final(display).bus().wiring() == wiring_of(bus_config(*config)),
        init_reads(*config) <= final(display).bus().heard_since(&old(display).bus()).len(),
        are_transfers(
            wiring_of(bus_config(*config)),
            init_frames(config.i2c_addr),
            final(display).bus().heard_since(&old(display).bus()).skip(init_reads(*config) as int),
        ),
        final(display).bus().trace() == old(display).bus().trace() + init_events(
            *config,
            final(display).bus().heard_since(&old(display).bus()),
        ),
        final(display).bus().answers() == old(display).bus().answers()
            + final(display).bus().heard_since(&old(display).bus()),
{
    let ghost before = display.bus;
    let ghost w = wiring_of(bus_config(*config));
    let ghost addr = config.i2c_addr;
    display.i2c_addr = config.i2c_addr;

    let i2c_cfg = I2cConfig {
        scl_pin: config.scl_pin,
        sda_pin: config.sda_pin,
        freq_hz: SSD1306_BUS_HZ,
    };
    crate::i2c::init(&mut display.bus, &i2c_cfg);
    let ghost configured = display.bus;

    display.bus.pause(SSD1306_POWER_UP_CYCLES);
    let ghost settled = display.bus;

    send_commands(&mut display.bus, display.i2c_addr, &SSD1306_INIT_SEQUENCE);
    let ghost commanded = display.bus;

    clear(display);
    self::display(display);

    proof {
        let n = init_reads(*config) as int;
        let h0 = configured.heard_since(&before);
        let h1 = commanded.heard_since(&settled);
        let h2 = display.bus.heard_since(&commanded);
        let heard = h0 + (h1 + h2);
        let bring_up = command_frames(addr, SSD1306_INIT_SEQUENCE@);
        let flush = flush_frames(addr, blank());
        let e0 = crate::i2c::init_events(i2c_cfg, h0);
        let e1 = seq![Event::Delay { cycles: SSD1306_POWER_UP_CYCLES }];
        let e2 = frames_events(w, bring_up, h1);
        let e3 = frames_events(w, flush, h2);
        lemma_frames_concat(w, bring_up, h1, flush, h2);
        lemma_two_steps(settled.answers(), h1, h2, commanded.answers(), display.bus.answers());
        assert(settled.answers() == configured.answers() + Seq::<u32>::empty());
        assert(settled.answers() =~= before.answers() + h0);
        lemma_two_steps(before.answers(), h0, h1 + h2, settled.answers(), display.bus.answers());
        assert(display.bus.heard_since(&before) =~= heard);
        assert(heard.take(n) =~= h0);
        assert(heard.skip(n) =~= h1 + h2);
        lemma_two_steps(settled.trace(), e2, e3, commanded.trace(), display.bus.trace());
        lemma_two_steps(before.trace(), e0, e1, configured.trace(), settled.trace());
        lemma_two_steps(before.trace(), e0 + e1, e2 + e3, settled.trace(), display.bus.trace());
    }
    true
}

/// Sets the brightness of the display: the contrast command, then `contrast`.
pub fn set_contrast<R: RegisterAccess>(display: &mut Ssd1306<R>, contrast: u8)
    requires
        old(display).wf(),
    ensures
        final(display).sent(
            old(display),
            command_frames(old(display).addr(), seq![SSD1306_CMD_SET_CONTRAST, contrast]),
        ),
{
    let ghost before = display.bus;
    let ghost w = display.bus.wiring();
    let ghost addr = display.i2c_addr;
    send_command(&mut display.bus, display.i2c_addr, SSD1306_CMD_SET_CONTRAST);
    let ghost mid = display.bus;
    send_command(&mut display.bus, display.i2c_addr, contrast);
    proof {
        let f1 = command_frame(addr, SSD1306_CMD_SET_CONTRAST);
        let f2 = command_frame(addr, contrast);
        let h1 = mid.heard_since(&before);
        let h2 = display.bus.heard_since(&mid);
        lemma_single_frame(w, f1, h1);
        lemma_frames_next(w, seq![f1], h1, f2, h2);
        assert(command_frames(addr, seq![SSD1306_CMD_SET_CONTRAST, contrast]) =~= seq![f1].push(
            f2,
        ));
        lemma_two_steps(
            before.trace(),
            frames_events(w, seq![f1], h1),
            transaction_events(w, f2, h2),
            mid.trace(),
            display.bus.trace(),
        );
        lemma_two_steps(before.answers(), h1, h2, mid.answers(), display.bus.answers());
        assert(display.bus.heard_since(&before) =~= h1 + h2);
    }
}

/// Switches the panel on or off with one command.
pub fn display_on<R: RegisterAccess>(display: &mut Ssd1306<R>, on: bool)
    requires
        old(display).wf(),
    ensures
        final(display).sent(
            old(display),
            command_frames(
                old(display).addr(),
                seq![if on { SSD1306_CMD_DISPLAY_ON } else { SSD1306_CMD_DISPLAY_OFF }],
            ),
        ),
{
    let ghost before = display.bus;
    let cmd = if on {
        SSD1306_CMD_DISPLAY_ON
    } else {
        SSD1306_CMD_DISPLAY_OFF
    };
    send_command(&mut display.bus, display.i2c_addr, cmd);
    proof {
        let frame = command_frame(display.i2c_addr, cmd);
        lemma_single_frame(before.wiring(), frame, display.bus.heard_since(&before));
        assert(command_frames(display.i2c_addr, seq![cmd]) =~= seq![frame]);
    }
}

/// Shows the picture inverted or as it is, with one command.
pub fn invert_display<R: RegisterAccess>(display: &mut Ssd1306<R>, invert: bool)
    requires
        old(display).wf(),
    ensures
        final(display).sent(
            old(display),
            command_frames(
                old(display).addr(),
                seq![if invert { SSD1306_CMD_INVERT_DISPLAY } else { SSD1306_CMD_NORMAL_DISPLAY }],
            ),
        ),
{
    let ghost before = display.bus;
    let cmd = if invert {
        SSD1306_CMD_INVERT_DISPLAY
    } else {
        SSD1306_CMD_NORMAL_DISPLAY
    };
    send_command(&mut display.bus, display.i2c_addr, cmd);
    proof {
        let frame = command_frame(display.i2c_addr, cmd);
        lemma_single_frame(before.wiring(), frame, display.bus.heard_since(&before));
        assert(command_frames(display.i2c_addr, seq![cmd]) =~= seq![frame]);
    }
}

} // verus!
