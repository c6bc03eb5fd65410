//! Console output and input over the USB serial peripheral.
//!
//! Output is collected in a buffer of 64 bytes and handed to the peripheral's
//! transmit FIFO when the buffer is full or a string ends. Input is polled.

use vstd::prelude::*;
use crate::cstr::{bytes_text, c_len, c_str, lemma_c_len_bounds, str_len};
use crate::trace::{lemma_two_steps, Event, RegisterAccess, Traced};

verus! {

/// Base address of the USB serial register block.
pub const USB_SERIAL_JTAG_BASE: u32 = 0x6004_3000;

/// Transmit FIFO: each write queues one byte.
pub const USB_SERIAL_JTAG_EP1_REG: u32 = USB_SERIAL_JTAG_BASE + 0x0000;

/// Transmit control.
pub const USB_SERIAL_JTAG_EP1_CONF_REG: u32 = USB_SERIAL_JTAG_BASE + 0x0004;

/// Receive FIFO: each read takes one byte.
pub const USB_SERIAL_JTAG_EP0_REG: u32 = USB_SERIAL_JTAG_BASE + 0x0010;

/// Raw interrupt status.
pub const USB_SERIAL_JTAG_INT_RAW_REG: u32 = USB_SERIAL_JTAG_BASE + 0x0034;

/// Interrupt clear.
pub const USB_SERIAL_JTAG_INT_CLR_REG: u32 = USB_SERIAL_JTAG_BASE + 0x0038;

/// Status bit: a packet was received.
pub const USB_SERIAL_JTAG_SERIAL_OUT_RECV_PKT: u32 = 1 << 1;

/// Control bit: the queued bytes are to be sent.
pub const USB_SERIAL_JTAG_WR_DONE: u32 = 1 << 0;

/// Size of the output buffer in bytes.
pub const BUFFER_SIZE: usize = 64;

/// Spin-loop iterations to wait after the queued bytes were handed over.
pub const FLUSH_WAIT_CYCLES: u32 = 10_000;

/// What the console says when it is initialized.
pub const GREETING: &'static str = "console initialized successfully!\n";

/// A console on a register interface.
pub struct Console<R: RegisterAccess> {
    io: Traced<R>,
    buffer: [u8; 64],
    pos: usize,
}

/// One write to the transmit FIFO for each of `bytes`, in order.
pub open spec fn fifo_events(bytes: Seq<u8>) -> Seq<Event> {
    Seq::new(
        bytes.len(),
        |i: int| Event::Write { addr: USB_SERIAL_JTAG_EP1_REG, val: bytes[i] as u32 },
    )
}

/// What flushing does when `pending` is buffered: nothing if it is empty, else
/// the bytes are queued, the peripheral is told to send, and a wait follows.
pub open spec fn flush_events(pending: Seq<u8>) -> Seq<Event> {
    if pending.len() == 0 {
        Seq::empty()
    } else {
        fifo_events(pending) + seq![
            Event::Write { addr: USB_SERIAL_JTAG_EP1_CONF_REG, val: USB_SERIAL_JTAG_WR_DONE },
            Event::Delay { cycles: FLUSH_WAIT_CYCLES },
        ]
    }
}

/// What is buffered after `byte` was put with `pending` buffered: the byte is
/// added, and a buffer that is full with it is flushed.
pub open spec fn pending_after_byte(pending: Seq<u8>, byte: u8) -> Seq<u8> {
    if pending.len() + 1 >= BUFFER_SIZE {
        Seq::empty()
    } else {
        pending.push(byte)
    }
}

/// What putting `byte` does with `pending` buffered.
pub open spec fn byte_events(pending: Seq<u8>, byte: u8) -> Seq<Event> {
    if pending.len() + 1 >= BUFFER_SIZE {
        flush_events(pending.push(byte))
    } else {
        Seq::empty()
    }
}

/// What is buffered after `bytes` were put one by one with `pending` buffered.
pub open spec fn pending_after(pending: Seq<u8>, bytes: Seq<u8>) -> Seq<u8>
    decreases bytes.len(),
{
    if bytes.len() == 0 {
        pending
    } else {
        pending_after_byte(pending_after(pending, bytes.drop_last()), bytes.last())
    }
}

/// What putting `bytes` one by one does with `pending` buffered.
pub open spec fn bytes_events(pending: Seq<u8>, bytes: Seq<u8>) -> Seq<Event>
    decreases bytes.len(),
{
    if bytes.len() == 0 {
        Seq::empty()
    } else {
        bytes_events(pending, bytes.drop_last()) + byte_events(
            pending_after(pending, bytes.drop_last()),
            bytes.last(),
        )
    }
}

/// The bytes that the console sends for `text`: for each character its code,
/// cut to eight bits, and a carriage return before every line feed.
pub open spec fn wire_bytes(text: Seq<char>) -> Seq<u8>
    decreases text.len(),
{
    if text.len() == 0 {
        Seq::empty()
    } else if text.last() == '\n' {
        wire_bytes(text.drop_last()) + seq![13u8, 10u8]
    } else {
        wire_bytes(text.drop_last()).push(text.last() as u8)
    }
}

/// What writing `text` does with `pending` buffered: its bytes are put one by
/// one, then the buffer is flushed.
pub open spec fn text_events(pending: Seq<u8>, text: Seq<char>) -> Seq<Event> {
    bytes_events(pending, wire_bytes(text)) + flush_events(
        pending_after(pending, wire_bytes(text)),
    )
}

/// What [`getc`] does when the hardware answers `heard`: the status is read;
/// if it shows a packet, a byte is taken from the receive FIFO and the status
/// bit is cleared.
pub open spec fn getc_events(heard: Seq<u32>) -> Seq<Event> {
    if heard[0] & USB_SERIAL_JTAG_SERIAL_OUT_RECV_PKT != 0 {
        seq![
            Event::Read { addr: USB_SERIAL_JTAG_INT_RAW_REG, val: heard[0] },
            Event::Read { addr: USB_SERIAL_JTAG_EP0_REG, val: heard[1] },
            Event::Write {
                addr: USB_SERIAL_JTAG_INT_CLR_REG,
                val: USB_SERIAL_JTAG_SERIAL_OUT_RECV_PKT,
            },
        ]
    } else {
        seq![Event::Read { addr: USB_SERIAL_JTAG_INT_RAW_REG, val: heard[0] }]
    }
}

/// The character that [`getc`] returns when the hardware answers `heard`.
pub open spec fn getc_result(heard: Seq<u32>) -> Option<char> {
    if heard[0] & USB_SERIAL_JTAG_SERIAL_OUT_RECV_PKT != 0 {
        Some((heard[1] as u8) as char)
    } else {
        None
    }
}

/// The bytes written to the transmit FIFO among `events`, in order.
pub open spec fn queued(events: Seq<Event>) -> Seq<u32>
    decreases events.len(),
{
    if events.len() == 0 {
        Seq::empty()
    } else {
        match events.last() {
            Event::Write { addr, val } => if addr == USB_SERIAL_JTAG_EP1_REG {
                queued(events.drop_last()).push(val)
            } else {
                queued(events.drop_last())
            },
            _ => queued(events.drop_last()),
        }
    }
}

impl<R: RegisterAccess> Console<R> {
    /// The buffer is never full between two operations.
    pub closed spec fn wf(&self) -> bool {
        self.pos < BUFFER_SIZE
    }

    /// The bytes that are buffered and not yet handed to the peripheral.
    pub closed spec fn pending(&self) -> Seq<u8> {
        self.buffer@.take(self.pos as int)
    }

    /// The register interface underneath.
    pub closed spec fn regs(&self) -> R {
        self.io.regs()
    }

    /// Every register access and wait made so far.
    pub closed spec fn trace(&self) -> Seq<Event> {
        self.io.trace()
    }

    /// Every value read from a register so far.
    pub closed spec fn answers(&self) -> Seq<u32> {
        self.io.answers()
    }

    /// `self` is what became of `before` when the console did `events`, the
    /// hardware having answered `heard` to the reads among them.
    pub open spec fn after(&self, before: &Self, events: Seq<Event>, heard: Seq<u32>) -> bool {
        &&& self.trace() == before.trace() + events
        &&& self.answers() == before.answers() + heard
    }

    /// The answers received since the console was in the state `before`.
    pub open spec fn heard_since(&self, before: &Self) -> Seq<u32> {
        self.answers().skip(before.answers().len() as int)
    }

    /// Less than a buffer's size is pending.
    pub proof fn lemma_pending_len(&self)
        requires
            self.wf(),
        ensures
            self.pending().len() < BUFFER_SIZE,
    {
        broadcast use vstd::array::group_array_axioms;

    }

    proof fn lemma_pending(&self)
        requires
            self.pos <= BUFFER_SIZE,
        ensures
            self.pending().len() == self.pos,
    {
        broadcast use vstd::array::group_array_axioms;

    }

    /// A console with an empty buffer.
    pub fn new(regs: R) -> (console: Self)
        ensures
            console.wf(),
            console.pending() == Seq::<u8>::empty(),
            console.trace() == Seq::<Event>::empty(),
            console.answers() == Seq::<u32>::empty(),
    {
        let console = Console { io: Traced::new(regs), buffer: [0u8;64], pos: 0 };
        proof {
            assert(console.pending() =~= Seq::<u8>::empty());
        }
        console
    }

    /// The register interface underneath, for reading.
    pub fn registers(&self) -> (regs: &R)
        ensures
            *regs == self.regs(),
    {
        self.io.registers()
    }

    /// Gives the register interface back; what is still buffered is dropped.
    pub fn into_registers(self) -> (regs: R)
        ensures
            regs == self.regs(),
    {
        self.io.into_registers()
    }
}

/// Hands the buffered bytes to the peripheral and empties the buffer.
fn flush_buffer<R: RegisterAccess>(console: &mut Console<R>)
    requires
        old(console).pos <= BUFFER_SIZE,
    ensures
        final(console).wf(),
        final(console).pending() == Seq::<u8>::empty(),
        final(console).after(old(console), flush_events(old(console).pending()), Seq::empty()),
{
    let ghost pending = console.pending();
    proof {
        console.lemma_pending();
        broadcast use vstd::array::group_array_axioms;

        assert(console.answers() =~= old(console).answers() + Seq::<u32>::empty());
        assert(console.trace() =~= old(console).trace() + Seq::<Event>::empty());
    }
    if console.pos == 0 {
        return ;
    }
    let mut i: usize = 0;
    while i < console.pos
        invariant
            i <= console.pos <= BUFFER_SIZE,
            console.pos == old(console).pos,
            console.buffer == old(console).buffer,
            pending == old(console).pending(),
            pending.len() == console.pos,
            console.trace() == old(console).trace() + fifo_events(pending.take(i as int)),
            console.answers() == old(console).answers(),
        decreases console.pos - i,
    {
        let byte = console.buffer[i];
        console.io.write(USB_SERIAL_JTAG_EP1_REG, byte as u32);
        proof {
            broadcast use vstd::array::group_array_axioms;

            assert(pending[i as int] == byte);
            assert(fifo_events(pending.take(i + 1)) =~= fifo_events(pending.take(i as int)) + seq![
                Event::Write { addr: USB_SERIAL_JTAG_EP1_REG, val: byte as u32 },
            ]);
            assert(console.trace() =~= old(console).trace() + fifo_events(pending.take(i + 1)));
            assert(console.answers() =~= old(console).answers());
        }
        i += 1;
    }
    console.io.write(USB_SERIAL_JTAG_EP1_CONF_REG, USB_SERIAL_JTAG_WR_DONE);
    console.pos = 0;
    console.io.delay(FLUSH_WAIT_CYCLES);
    proof {
        assert(pending.take(pending.len() as int) =~= pending);
        assert(console.trace() =~= old(console).trace() + flush_events(pending));
        assert(console.answers() =~= old(console).answers() + Seq::<u32>::empty());
        assert(console.pending() =~= Seq::<u8>::empty());
    }
}

/// Puts one byte into the buffer and flushes the buffer if that fills it.
fn put_byte<R: RegisterAccess>(console: &mut Console<R>, byte: u8)
    requires
        old(console).wf(),
    ensures
        final(console).wf(),
        final(console).pending() == pending_after_byte(old(console).pending(), byte),
        final(console).after(
            old(console),
            byte_events(old(console).pending(), byte),
            Seq::empty(),
        ),
{
    let ghost pending = console.pending();
    proof {
        console.lemma_pending();
    }
    console.buffer[console.pos] = byte;
    console.pos += 1;
    proof {
        broadcast use vstd::array::group_array_axioms;

        console.lemma_pending();
        assert(console.pending() =~= pending.push(byte));
    }
    if console.pos >= BUFFER_SIZE {
        flush_buffer(console);
    } else {
        proof {
            assert(console.answers() =~= old(console).answers() + Seq::<u32>::empty());
            assert(console.trace() =~= old(console).trace() + Seq::<Event>::empty());
        }
    }
}

/// Writes one character: its code, cut to eight bits, goes into the buffer,
/// and the buffer is flushed if that fills it.
pub fn putc<R: RegisterAccess>(console: &mut Console<R>, c: char)
    requires
        old(console).wf(),
    ensures
        final(console).wf(),
        final(console).pending() == pending_after_byte(old(console).pending(), c as u8),
        final(console).after(
            old(console),
            byte_events(old(console).pending(), c as u8),
            Seq::empty(),
        ),
{
    put_byte(console, #[verifier::truncate] (c as u8));
}

/// Putting one more byte after a run of bytes.
proof fn lemma_put_next(pending: Seq<u8>, bytes: Seq<u8>, byte: u8)
    ensures
        pending_after(pending, bytes.push(byte)) == pending_after_byte(
            pending_after(pending, bytes),
            byte,
        ),
        bytes_events(pending, bytes.push(byte)) == bytes_events(pending, bytes) + byte_events(
            pending_after(pending, bytes),
            byte,
        ),
{
    assert(bytes.push(byte).drop_last() =~= bytes);
}

/// Writes one character the way [`puts`] does: a line feed is preceded by a
/// carriage return.
fn put_text_char<R: RegisterAccess>(console: &mut Console<R>, c: char)
    requires
        old(console).wf(),
    ensures
        final(console).wf(),
        final(console).pending() == pending_after(
            old(console).pending(),
            wire_bytes(seq![c]),
        ),
        final(console).after(
            old(console),
            bytes_events(old(console).pending(), wire_bytes(seq![c])),
            Seq::empty(),
        ),
{
    let ghost pending = console.pending();
    let ghost start = *console;
    proof {
        assert(seq![c].drop_last() =~= Seq::<char>::empty());
        assert(wire_bytes(Seq::<char>::empty()) =~= Seq::<u8>::empty());
        assert(pending_after(pending, Seq::<u8>::empty()) == pending);
        assert(bytes_events(pending, Seq::<u8>::empty()) =~= Seq::<Event>::empty());
    }
    if c == '\n' {
        putc(console, '\r');
        let ghost mid = *console;
        putc(console, c);
        proof {
            let one = Seq::<u8>::empty().push(13u8);
            assert(wire_bytes(seq![c]) =~= one.push(10u8));
            lemma_put_next(pending, Seq::empty(), 13u8);
            lemma_put_next(pending, one, 10u8);
            assert(Seq::<Event>::empty() + byte_events(pending, 13u8) =~= byte_events(
                pending,
                13u8,
            ));
            lemma_two_steps(
                start.trace(),
                byte_events(pending, 13u8),
                byte_events(mid.pending(), 10u8),
                mid.trace(),
                console.trace(),
            );
            assert(console.answers() =~= start.answers() + Seq::<u32>::empty());
        }
    } else {
        putc(console, c);
        proof {
            assert(wire_bytes(seq![c]) =~= Seq::<u8>::empty().push(c as u8));
            lemma_put_next(pending, Seq::empty(), c as u8);
            assert(Seq::<Event>::empty() + byte_events(pending, c as u8) =~= byte_events(
                pending,
                c as u8,
            ));
        }
    }
}

/// Putting two runs of bytes in a row is putting the one run that joins
/// them.
pub proof fn lemma_put_concat(pending: Seq<u8>, a: Seq<u8>, b: Seq<u8>)
    ensures
        pending_after(pending, a + b) == pending_after(pending_after(pending, a), b),
        bytes_events(pending, a + b) == bytes_events(pending, a) + bytes_events(
            pending_after(pending, a),
            b,
        ),
    decreases b.len(),
{
    let mid = pending_after(pending, a);
    if b.len() == 0 {
        assert(a + b =~= a);
        assert(bytes_events(pending, a) + bytes_events(mid, b) =~= bytes_events(pending, a));
    } else {
        lemma_put_concat(pending, a, b.drop_last());
        assert((a + b).drop_last() =~= a + b.drop_last());
        assert((a + b).last() == b.last());
        assert(bytes_events(pending, a + b) =~= bytes_events(pending, a) + bytes_events(mid, b));
    }
}

/// The bytes of a text with one more character are the bytes of the text
/// followed by those of the character.
pub proof fn lemma_wire_bytes_push(text: Seq<char>, c: char)
    ensures
        wire_bytes(text.push(c)) == wire_bytes(text) + wire_bytes(seq![c]),
{
    assert(text.push(c).drop_last() =~= text);
    assert(seq![c].drop_last() =~= Seq::<char>::empty());
    assert(wire_bytes(Seq::<char>::empty()) =~= Seq::<u8>::empty());
    if c == '\n' {
        assert(wire_bytes(seq![c]) =~= seq![13u8, 10u8]);
    } else {
        assert(wire_bytes(seq![c]) =~= seq![c as u8]);
        assert(wire_bytes(text.push(c)) =~= wire_bytes(text) + wire_bytes(seq![c]));
    }
}

/// Writes `s` to the console, with a carriage return before every line feed,
/// and flushes the buffer.
pub fn puts<R: RegisterAccess>(console: &mut Console<R>, s: &str)
    requires
        old(console).wf(),
    ensures
        final(console).wf(),
        final(console).pending() == Seq::<u8>::empty(),
        final(console).after(old(console), text_events(old(console).pending(), s@), Seq::empty()),
{
    let ghost start = *console;
    let ghost pending = console.pending();
    proof {
        assert(s@.take(0) =~= Seq::<char>::empty());
        assert(wire_bytes(s@.take(0)) =~= Seq::<u8>::empty());
        assert(console.trace() =~= start.trace() + bytes_events(pending, wire_bytes(s@.take(0))));
    }
    for c in it: s.chars()
        invariant
            it.seq() == s@,
            start == *old(console),
            pending == start.pending(),
            console.wf(),
            console.pending() == pending_after(pending, wire_bytes(s@.take(it.index() as int))),
            console.trace() == start.trace() + bytes_events(
                pending,
                wire_bytes(s@.take(it.index() as int)),
            ),
            console.answers() == start.answers(),
    {
        let ghost k = it.index() as int;
        let ghost was = *console;
        put_text_char(console, c);
        proof {
            let done = wire_bytes(s@.take(k));
            let more = wire_bytes(seq![c]);
            assert(s@.take(k + 1) =~= s@.take(k).push(c));
            lemma_wire_bytes_push(s@.take(k), c);
            lemma_put_concat(pending, done, more);
            lemma_two_steps(
                start.trace(),
                bytes_events(pending, done),
                bytes_events(was.pending(), more),
                was.trace(),
                console.trace(),
            );
            assert(console.answers() =~= start.answers());
        }
    }
    let ghost put = *console;
    proof {
        console.lemma_pending_len();
        assert(s@.take(s@.len() as int) =~= s@);
    }
    flush_buffer(console);
    proof {
        lemma_two_steps(
            start.trace(),
            bytes_events(pending, wire_bytes(s@)),
            flush_events(put.pending()),
            put.trace(),
            console.trace(),
        );
        assert(console.answers() =~= start.answers() + Seq::<u32>::empty());
    }
}

/// Writes the text in `bytes`, which ends at the first zero byte if there is
/// one, as [`puts`] writes a string: each byte stands for the character with
/// its code.
pub fn put_bytes<R: RegisterAccess>(console: &mut Console<R>, bytes: &[u8])
    requires
        old(console).wf(),
    ensures
        final(console).wf(),
        final(console).pending() == Seq::<u8>::empty(),
        final(console).after(
            old(console),
            text_events(old(console).pending(), bytes_text(c_str(bytes@))),
            Seq::empty(),
        ),
{
    let ghost start = *console;
    let ghost pending = console.pending();
    let ghost text = bytes_text(c_str(bytes@));
    proof {
        lemma_c_len_bounds(bytes@);
        assert(text.take(0) =~= Seq::<char>::empty());
        assert(wire_bytes(text.take(0)) =~= Seq::<u8>::empty());
        assert(console.trace() =~= start.trace() + bytes_events(pending, wire_bytes(text.take(0))));
    }
    let len = str_len(bytes);
    let mut i: usize = 0;
    while i < len
        invariant
            i <= len,
            len == c_len(bytes@),
            len <= bytes.len(),
            text == bytes_text(c_str(bytes@)),
            text.len() == len,
            start == *old(console),
            pending == start.pending(),
            console.wf(),
            console.pending() == pending_after(pending, wire_bytes(text.take(i as int))),
            console.trace() == start.trace() + bytes_events(
                pending,
                wire_bytes(text.take(i as int)),
            ),
            console.answers() == start.answers(),
        decreases len - i,
    {
        let ghost was = *console;
        let c = bytes[i] as char;
        put_text_char(console, c);
        proof {
            let done = wire_bytes(text.take(i as int));
            let more = wire_bytes(seq![c]);
            assert(text.take(i + 1) =~= text.take(i as int).push(c));
            lemma_wire_bytes_push(text.take(i as int), c);
            lemma_put_concat(pending, done, more);
            lemma_two_steps(
                start.trace(),
                bytes_events(pending, done),
                bytes_events(was.pending(), more),
                was.trace(),
                console.trace(),
            );
            assert(console.answers() =~= start.answers());
        }
        i += 1;
    }
    let ghost put = *console;
    proof {
        console.lemma_pending_len();
        assert(text.take(text.len() as int) =~= text);
    }
    flush_buffer(console);
    proof {
        lemma_two_steps(
            start.trace(),
            bytes_events(pending, wire_bytes(text)),
            flush_events(put.pending()),
            put.trace(),
            console.trace(),
        );
        assert(console.answers() =~= start.answers() + Seq::<u32>::empty());
    }
}

/// Starts the console over: whatever is buffered is dropped, and the greeting
/// is written.
pub fn init<R: RegisterAccess>(console: &mut Console<R>)
    ensures
        final(console).wf(),
        final(console).pending() == Seq::<u8>::empty(),
        final(console).after(
            old(console),
            text_events(Seq::empty(), GREETING@),
            Seq::empty(),
        ),
{
    console.pos = 0;
    proof {
        assert(console.pending() =~= Seq::<u8>::empty());
    }
    puts(console, GREETING);
}

/// Polls the console for input: the character that was received, if the
/// peripheral reports a packet, and `None` if it does not.
pub fn getc<R: RegisterAccess>(console: &mut Console<R>) -> (c: Option<char>)
    ensures
        final(console).wf() == old(console).wf(),
        final(console).pending() == old(console).pending(),
        final(console).heard_since(old(console)).len() == if c is Some {
            2nat
        } else {
            1nat
        },
        final(console).after(
            old(console),
            getc_events(final(console).heard_since(old(console))),
            final(console).heard_since(old(console)),
        ),
        c == getc_result(final(console).heard_since(old(console))),
{
    let int_raw = console.io.read(USB_SERIAL_JTAG_INT_RAW_REG);
    if (int_raw & USB_SERIAL_JTAG_SERIAL_OUT_RECV_PKT) != 0 {
        let word = console.io.read(USB_SERIAL_JTAG_EP0_REG);
        let c = #[verifier::truncate] (word as u8);
        console.io.write(USB_SERIAL_JTAG_INT_CLR_REG, USB_SERIAL_JTAG_SERIAL_OUT_RECV_PKT);
        proof {
            let heard = seq![int_raw, word];
            assert(console.answers() =~= old(console).answers() + heard);
            assert(console.heard_since(old(console)) =~= heard);
            assert(console.trace() =~= old(console).trace() + getc_events(heard));
        }
        return Some(c as char);
    }
    proof {
        let heard = seq![int_raw];
        assert(console.answers() =~= old(console).answers() + heard);
        assert(console.heard_since(old(console)) =~= heard);
        assert(console.trace() =~= old(console).trace() + getc_events(heard));
    }
    None
}

/// The words that stand for `bytes` in the transmit FIFO.
pub open spec fn as_words(bytes: Seq<u8>) -> Seq<u32> {
    Seq::new(bytes.len(), |i: int| bytes[i] as u32)
}

/// What two runs of events queue is what the first queues followed by what
/// the second queues.
pub proof fn lemma_queued_concat(a: Seq<Event>, b: Seq<Event>)
    ensures
        queued(a + b) == queued(a) + queued(b),
    decreases b.len(),
{
    if b.len() == 0 {
        assert(a + b =~= a);
        assert(queued(a) + queued(b) =~= queued(a));
    } else {
        lemma_queued_concat(a, b.drop_last());
        assert((a + b).drop_last() =~= a + b.drop_last());
        assert((a + b).last() == b.last());
        assert(queued(a + b) =~= queued(a) + queued(b));
    }
}

/// A flush queues exactly the bytes that were buffered.
pub proof fn lemma_flush_queues(pending: Seq<u8>)
    ensures
        queued(flush_events(pending)) == as_words(pending),
{
    lemma_fifo_queues(pending);
    if pending.len() == 0 {
        assert(as_words(pending) =~= Seq::<u32>::empty());
    } else {
        let tail = seq![
            Event::Write { addr: USB_SERIAL_JTAG_EP1_CONF_REG, val: USB_SERIAL_JTAG_WR_DONE },
            Event::Delay { cycles: FLUSH_WAIT_CYCLES },
        ];
        let first = tail.drop_last();
        assert(first.drop_last() =~= Seq::<Event>::empty());
        assert(queued(first.drop_last()) =~= Seq::<u32>::empty());
        assert(queued(first) =~= Seq::<u32>::empty());
        assert(queued(tail) =~= Seq::<u32>::empty());
        lemma_queued_concat(fifo_events(pending), tail);
        assert(as_words(pending) + Seq::<u32>::empty() =~= as_words(pending));
    }
}

/// Writes to the transmit FIFO queue what they write.
proof fn lemma_fifo_queues(bytes: Seq<u8>)
    ensures
        queued(fifo_events(bytes)) == as_words(bytes),
    decreases bytes.len(),
{
    if bytes.len() == 0 {
        assert(queued(fifo_events(bytes)) =~= as_words(bytes));
    } else {
        lemma_fifo_queues(bytes.drop_last());
        assert(fifo_events(bytes).drop_last() =~= fifo_events(bytes.drop_last()));
        assert(queued(fifo_events(bytes)) =~= as_words(bytes));
    }
}

/// While bytes are put, what was queued so far and what is still buffered
/// make up what was buffered before and the bytes that were put.
pub proof fn lemma_nothing_lost(pending: Seq<u8>, bytes: Seq<u8>)
    ensures
        queued(bytes_events(pending, bytes)) + as_words(pending_after(pending, bytes)) == as_words(
            pending + bytes,
        ),
    decreases bytes.len(),
{
    if bytes.len() == 0 {
        assert(pending + bytes =~= pending);
        assert(queued(bytes_events(pending, bytes)) + as_words(pending) =~= as_words(pending));
    } else {
        let earlier = bytes.drop_last();
        let held = pending_after(pending, earlier);
        lemma_nothing_lost(pending, earlier);
        lemma_queued_concat(bytes_events(pending, earlier), byte_events(held, bytes.last()));
        lemma_flush_queues(held.push(bytes.last()));
        assert(as_words(pending + bytes) =~= as_words(pending + earlier).push(
            bytes.last() as u32,
        ));
        assert(as_words(held.push(bytes.last())) =~= as_words(held).push(bytes.last() as u32));
        assert(queued(bytes_events(pending, bytes)) + as_words(pending_after(pending, bytes))
            =~= as_words(pending + bytes));
    }
}

/// Writing a text hands to the transmit FIFO, in order and with nothing lost,
/// what was buffered before and then the bytes of the text.
pub proof fn law_text_delivered(pending: Seq<u8>, text: Seq<char>)
    ensures
        queued(text_events(pending, text)) == as_words(pending + wire_bytes(text)),
{
    let bytes = wire_bytes(text);
    lemma_nothing_lost(pending, bytes);
    lemma_flush_queues(pending_after(pending, bytes));
    lemma_queued_concat(bytes_events(pending, bytes), flush_events(pending_after(pending, bytes)));
}

} // verus!
