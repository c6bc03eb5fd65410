//! The two lines as the bus master drives them.
//!
//! A run of events is read as a waveform: each write to the set or clear
//! register moves the lines. Two things are read off the waveform. The data
//! line is taken at every rising edge of the clock, which is when a receiver
//! samples it; and every change of the data line while the clock is high is
//! noted, which is how a receiver tells start and stop conditions from data.

use vstd::prelude::*;
use crate::gpio::{pin_mask, GPIO_OUT_W1TC_REG, GPIO_OUT_W1TS_REG};
use crate::i2c::{
    acked,
    bit_events,
    bits_msb_first,
    byte_bit,
    bytes_events,
    config_ok,
    data_bits_events,
    drive_events,
    init_events,
    opendrain_events,
    opendrain_reads,
    pin_in_word,
    sample_events,
    scl_high_events,
    scl_low_events,
    sda_events,
    sda_high_events,
    sda_low_events,
    start_events,
    stop_events,
    transaction_events,
    wiring_of,
    write_byte_events,
    I2cConfig,
    Wiring,
};
use crate::trace::Event;

verus! {

/// The levels at which the bus master drives the two lines; `true` is high.
pub struct Levels {
    pub scl: bool,
    pub sda: bool,
}

/// What a receiver reads off a waveform.
pub struct Reading {
    /// The levels after the last event.
    pub levels: Levels,
    /// The level of the data line at each rising edge of the clock.
    pub clocked: Seq<bool>,
    /// The changes of the data line while the clock is high: `false` for a
    /// fall, which is a start condition, and `true` for a rise, which is a
    /// stop condition.
    pub conditions: Seq<bool>,
}

/// Both lines released.
pub open spec fn idle() -> Levels {
    Levels { scl: true, sda: true }
}

/// Whether the wiring puts the two lines on two different bits of a register.
pub open spec fn distinct_lines(w: Wiring) -> bool {
    &&& pin_in_word(w.scl_pin)
    &&& pin_in_word(w.sda_pin)
    &&& w.scl_pin != w.sda_pin
}

/// The levels after one event: a write to the set register raises the lines
/// whose bit is set, a write to the clear register lowers them, and nothing
/// else moves a line.
pub open spec fn step(w: Wiring, l: Levels, e: Event) -> Levels {
    match e {
        Event::Write { addr, val } => {
            if addr == GPIO_OUT_W1TS_REG {
                Levels {
                    scl: l.scl || val & pin_mask(w.scl_pin) != 0,
                    sda: l.sda || val & pin_mask(w.sda_pin) != 0,
                }
            } else if addr == GPIO_OUT_W1TC_REG {
                Levels {
                    scl: l.scl && val & pin_mask(w.scl_pin) == 0,
                    sda: l.sda && val & pin_mask(w.sda_pin) == 0,
                }
            } else {
                l
            }
        },
        _ => l,
    }
}

/// What is read off the waveform of one more event `e` after `r`.
pub open spec fn read_on(w: Wiring, r: Reading, e: Event) -> Reading {
    let now = step(w, r.levels, e);
    Reading {
        levels: now,
        clocked: if !r.levels.scl && now.scl {
            r.clocked.push(now.sda)
        } else {
            r.clocked
        },
        conditions: if r.levels.scl && now.scl && r.levels.sda != now.sda {
            r.conditions.push(now.sda)
        } else {
            r.conditions
        },
    }
}

/// What is read off the waveform of `events`, with the lines at `l` before.
pub open spec fn reading(w: Wiring, l: Levels, events: Seq<Event>) -> Reading
    decreases events.len(),
{
    if events.len() == 0 {
        Reading { levels: l, clocked: Seq::empty(), conditions: Seq::empty() }
    } else {
        read_on(w, reading(w, l, events.drop_last()), events.last())
    }
}

/// The levels after `events`, starting from `l`.
pub open spec fn levels_after(w: Wiring, l: Levels, events: Seq<Event>) -> Levels {
    reading(w, l, events).levels
}

/// The level of the data line at each rising edge of the clock during
/// `events`, starting from `l`.
pub open spec fn clocked_in(w: Wiring, l: Levels, events: Seq<Event>) -> Seq<bool> {
    reading(w, l, events).clocked
}

/// The start and stop conditions during `events`, starting from `l`: `false`
/// for each fall of the data line while the clock is high, `true` for each
/// rise.
pub open spec fn conditions(w: Wiring, l: Levels, events: Seq<Event>) -> Seq<bool> {
    reading(w, l, events).conditions
}

/// A reading with nothing clocked and no condition, at the levels `l`.
pub open spec fn still(l: Levels) -> Reading {
    Reading { levels: l, clocked: Seq::empty(), conditions: Seq::empty() }
}

/// The reading of two runs in a row: the second starts at the levels that
/// the first ends with, and what it reads follows what the first read.
pub open spec fn joined(first: Reading, second: Reading) -> Reading {
    Reading {
        levels: second.levels,
        clocked: first.clocked + second.clocked,
        conditions: first.conditions + second.conditions,
    }
}

/// Two single-bit words share a bit only if they are the same.
proof fn lemma_mask_bits(p: u32, q: u32)
    by (bit_vector)
    requires
        p < 32,
        q < 32,
    ensures
        ((1u32 << p) & (1u32 << q) != 0) == (p == q),
{
}

/// Two pins of a register share a mask bit only if they are the same pin.
proof fn lemma_pin_masks(p: i32, q: i32)
    requires
        pin_in_word(p),
        pin_in_word(q),
    ensures
        (pin_mask(p) & pin_mask(q) != 0) == (p == q),
{
    lemma_mask_bits(p as u32, q as u32);
}

/// The waveform of two runs in a row is the waveform of the first followed by
/// that of the second, which starts at the levels that the first ends with.
pub proof fn lemma_waveform_concat(w: Wiring, l: Levels, a: Seq<Event>, b: Seq<Event>)
    ensures
        reading(w, l, a + b) == joined(reading(w, l, a), reading(w, levels_after(w, l, a), b)),
    decreases b.len(),
{
    let first = reading(w, l, a);
    let mid = first.levels;
    if b.len() == 0 {
        assert(a + b =~= a);
        assert(first.clocked + Seq::<bool>::empty() =~= first.clocked);
        assert(first.conditions + Seq::<bool>::empty() =~= first.conditions);
    } else {
        lemma_waveform_concat(w, l, a, b.drop_last());
        assert((a + b).drop_last() =~= a + b.drop_last());
        assert((a + b).last() == b.last());
        let before = reading(w, mid, b.drop_last());
        let now = step(w, before.levels, b.last());
        assert((first.clocked + before.clocked).push(now.sda) =~= first.clocked
            + before.clocked.push(now.sda));
        assert((first.conditions + before.conditions).push(now.sda) =~= first.conditions
            + before.conditions.push(now.sda));
    }
}

/// One line transition is read as its write is; its wait moves nothing.
proof fn lemma_drive(w: Wiring, l: Levels, reg: u32, pin: i32)
    ensures
        reading(w, l, drive_events(w, reg, pin)) == read_on(
            w,
            still(l),
            Event::Write { addr: reg, val: pin_mask(pin) },
        ),
{
    let write = Event::Write { addr: reg, val: pin_mask(pin) };
    let events = drive_events(w, reg, pin);
    let first = events.drop_last();
    assert(first =~= seq![write]);
    assert(first.drop_last() =~= Seq::<Event>::empty());
    assert(reading(w, l, first.drop_last()) == still(l));
    assert(reading(w, l, first) == read_on(w, still(l), write));
}

/// Raising the clock: the clock ends high, the data line stays, and if the
/// clock was low the data line is clocked in.
pub proof fn lemma_scl_high(w: Wiring, l: Levels)
    requires
        distinct_lines(w),
    ensures
        reading(w, l, scl_high_events(w)) == (Reading {
            levels: Levels { scl: true, sda: l.sda },
            clocked: if l.scl {
                Seq::<bool>::empty()
            } else {
                seq![l.sda]
            },
            conditions: Seq::empty(),
        }),
{
    lemma_drive(w, l, GPIO_OUT_W1TS_REG, w.scl_pin);
    lemma_pin_masks(w.scl_pin, w.scl_pin);
    lemma_pin_masks(w.scl_pin, w.sda_pin);
    assert(Seq::<bool>::empty().push(l.sda) =~= seq![l.sda]);
}

/// Lowering the clock: the clock ends low, the data line stays, and nothing
/// is read.
pub proof fn lemma_scl_low(w: Wiring, l: Levels)
    requires
        distinct_lines(w),
    ensures
        reading(w, l, scl_low_events(w)) == still(Levels { scl: false, sda: l.sda }),
{
    lemma_drive(w, l, GPIO_OUT_W1TC_REG, w.scl_pin);
    lemma_pin_masks(w.scl_pin, w.scl_pin);
    lemma_pin_masks(w.scl_pin, w.sda_pin);
}

/// Moving the data line: it ends at `level`, the clock stays, nothing is
/// clocked in, and a change while the clock is high is a condition.
pub proof fn lemma_sda(w: Wiring, l: Levels, level: bool)
    requires
        distinct_lines(w),
    ensures
        reading(w, l, sda_events(w, level)) == (Reading {
            levels: Levels { scl: l.scl, sda: level },
            clocked: Seq::empty(),
            conditions: if l.scl && l.sda != level {
                seq![level]
            } else {
                Seq::<bool>::empty()
            },
        }),
{
    lemma_drive(w, l, GPIO_OUT_W1TS_REG, w.sda_pin);
    lemma_drive(w, l, GPIO_OUT_W1TC_REG, w.sda_pin);
    lemma_pin_masks(w.sda_pin, w.sda_pin);
    lemma_pin_masks(w.sda_pin, w.scl_pin);
    assert(Seq::<bool>::empty().push(level) =~= seq![level]);
}

/// Sampling the data line moves nothing.
pub proof fn lemma_sample(w: Wiring, l: Levels, sample: u32)
    ensures
        reading(w, l, sample_events(sample)) == still(l),
{
    let events = sample_events(sample);
    assert(events.drop_last() =~= Seq::<Event>::empty());
    assert(reading(w, l, events.drop_last()) == still(l));
}

/// A start condition begun with both lines released is one fall of the data
/// line while the clock is high; it ends with both lines low and clocks
/// nothing in.
pub proof fn lemma_start(w: Wiring, l: Levels)
    requires
        distinct_lines(w),
    ensures
        levels_after(w, l, start_events(w)) == (Levels { scl: false, sda: false }),
        l == idle() ==> reading(w, l, start_events(w)) == (Reading {
            levels: Levels { scl: false, sda: false },
            clocked: Seq::empty(),
            conditions: seq![false],
        }),
{
    let l1 = Levels { scl: l.scl, sda: true };
    let l2 = Levels { scl: true, sda: true };
    let l3 = Levels { scl: true, sda: false };
    let e1 = sda_high_events(w);
    let e2 = scl_high_events(w);
    let e3 = sda_low_events(w);
    let e4 = scl_low_events(w);
    lemma_sda(w, l, true);
    lemma_scl_high(w, l1);
    lemma_sda(w, l2, false);
    lemma_scl_low(w, l3);
    lemma_waveform_concat(w, l, e1, e2);
    lemma_waveform_concat(w, l, e1 + e2, e3);
    lemma_waveform_concat(w, l, e1 + e2 + e3, e4);
    if l == idle() {
        let r = reading(w, l, start_events(w));
        assert(r.clocked =~= Seq::<bool>::empty());
        assert(r.conditions =~= seq![false]);
    }
}

/// A stop condition ends with both lines released, whatever the levels
/// before it. Begun with the clock low it is one rise of the data line while
/// the clock is high, and the low data line is clocked in on the way.
pub proof fn lemma_stop(w: Wiring, l: Levels)
    requires
        distinct_lines(w),
    ensures
        levels_after(w, l, stop_events(w)) == idle(),
        !l.scl ==> reading(w, l, stop_events(w)) == (Reading {
            levels: idle(),
            clocked: seq![false],
            conditions: seq![true],
        }),
{
    let l1 = Levels { scl: l.scl, sda: false };
    let l2 = Levels { scl: true, sda: false };
    let e1 = sda_low_events(w);
    let e2 = scl_high_events(w);
    let e3 = sda_high_events(w);
    lemma_sda(w, l, false);
    lemma_scl_high(w, l1);
    lemma_sda(w, l2, true);
    lemma_waveform_concat(w, l, e1, e2);
    lemma_waveform_concat(w, l, e1 + e2, e3);
    if !l.scl {
        let r = reading(w, l, stop_events(w));
        assert(r.clocked =~= seq![false]);
        assert(r.conditions =~= seq![true]);
    }
}

/// A start condition followed at once by a stop condition leaves both lines
/// released, whatever the levels before.
pub proof fn law_start_stop_idle(w: Wiring, l: Levels)
    requires
        distinct_lines(w),
    ensures
        levels_after(w, l, start_events(w) + stop_events(w)) == idle(),
{
    lemma_start(w, l);
    lemma_stop(w, levels_after(w, l, start_events(w)));
    lemma_waveform_concat(w, l, start_events(w), stop_events(w));
}

/// One bit cell that begins with the clock low clocks in exactly `level`,
/// moves the data line only while the clock is low, and ends with the clock
/// low again.
pub proof fn lemma_bit_cell(w: Wiring, l: Levels, level: bool)
    requires
        distinct_lines(w),
        !l.scl,
    ensures
        reading(w, l, bit_events(w, level)) == (Reading {
            levels: Levels { scl: false, sda: level },
            clocked: seq![level],
            conditions: Seq::empty(),
        }),
{
    let l1 = Levels { scl: false, sda: level };
    let l2 = Levels { scl: true, sda: level };
    let e1 = sda_events(w, level);
    let e2 = scl_high_events(w);
    let e3 = scl_low_events(w);
    lemma_sda(w, l, level);
    lemma_scl_high(w, l1);
    lemma_scl_low(w, l2);
    lemma_waveform_concat(w, l, e1, e2);
    lemma_waveform_concat(w, l, e1 + e2, e3);
    let r = reading(w, l, bit_events(w, level));
    assert(r.clocked =~= seq![level]);
    assert(r.conditions =~= Seq::<bool>::empty());
}

/// The bit cells of the `n` most significant bits of `data`, begun with the
/// clock low, clock in those bits in order and make no condition.
pub proof fn lemma_data_bits(w: Wiring, l: Levels, data: u8, n: nat)
    requires
        distinct_lines(w),
        !l.scl,
        n <= 8,
    ensures
        !levels_after(w, l, data_bits_events(w, data, n)).scl,
        clocked_in(w, l, data_bits_events(w, data, n)) == bits_msb_first(data).take(n as int),
        conditions(w, l, data_bits_events(w, data, n)) == Seq::<bool>::empty(),
    decreases n,
{
    if n == 0 {
        assert(clocked_in(w, l, data_bits_events(w, data, n)) =~= bits_msb_first(data).take(0));
    } else {
        let earlier = data_bits_events(w, data, (n - 1) as nat);
        let level = byte_bit(data, (8 - n) as u32);
        lemma_data_bits(w, l, data, (n - 1) as nat);
        lemma_bit_cell(w, levels_after(w, l, earlier), level);
        lemma_waveform_concat(w, l, earlier, bit_events(w, level));
        assert(bits_msb_first(data)[n - 1] == level);
        assert(clocked_in(w, l, data_bits_events(w, data, n)) =~= bits_msb_first(data).take(
            n as int,
        ));
        assert(conditions(w, l, data_bits_events(w, data, n)) =~= Seq::<bool>::empty());
    }
}

/// For any byte sent with the clock low at the beginning, as a start
/// condition leaves it, the levels of the data line at the rising edges of the
/// clock are the eight bits of the byte, most significant first, and then the
/// released line in the acknowledgment slot. The data line moves only while
/// the clock is low, and the byte ends with the clock low and the data line
/// released.
pub proof fn law_byte_clocked_msb_first(w: Wiring, l: Levels, data: u8, sample: u32)
    requires
        distinct_lines(w),
        !l.scl,
    ensures
        clocked_in(w, l, write_byte_events(w, data, sample)) == bits_msb_first(data).push(true),
        clocked_in(w, l, write_byte_events(w, data, sample)).take(8) == bits_msb_first(data),
        conditions(w, l, write_byte_events(w, data, sample)) == Seq::<bool>::empty(),
        levels_after(w, l, write_byte_events(w, data, sample)) == (Levels {
            scl: false,
            sda: true,
        }),
{
    let e1 = data_bits_events(w, data, 8);
    let e2 = sda_high_events(w);
    let e3 = scl_high_events(w);
    let e4 = sample_events(sample);
    let e5 = scl_low_events(w);
    let l1 = levels_after(w, l, e1);
    let l2 = Levels { scl: false, sda: true };
    let l3 = Levels { scl: true, sda: true };
    lemma_data_bits(w, l, data, 8);
    lemma_sda(w, l1, true);
    lemma_scl_high(w, l2);
    lemma_sample(w, l3, sample);
    lemma_scl_low(w, l3);
    lemma_waveform_concat(w, l, e1, e2);
    lemma_waveform_concat(w, l, e1 + e2, e3);
    lemma_waveform_concat(w, l, e1 + e2 + e3, e4);
    lemma_waveform_concat(w, l, e1 + e2 + e3 + e4, e5);
    let events = write_byte_events(w, data, sample);
    assert(bits_msb_first(data).take(8) =~= bits_msb_first(data));
    assert(clocked_in(w, l, events) =~= bits_msb_first(data).push(true));
    assert(bits_msb_first(data).push(true).take(8) =~= bits_msb_first(data));
    assert(conditions(w, l, events) =~= Seq::<bool>::empty());
}

/// What a receiver clocks in while `bytes` are sent and the acknowledgment
/// slots are answered by `samples`: for each byte that is sent its eight bits,
/// most significant first, and the released line of its acknowledgment slot.
pub open spec fn frame_bits(w: Wiring, bytes: Seq<u8>, samples: Seq<u32>) -> Seq<bool>
    decreases bytes.len(),
{
    if bytes.len() == 0 || samples.len() == 0 {
        Seq::empty()
    } else {
        bits_msb_first(bytes[0]).push(true) + if acked(w, samples[0]) {
            frame_bits(w, bytes.skip(1), samples.skip(1))
        } else {
            Seq::empty()
        }
    }
}

/// Bytes sent with the clock low at the beginning clock in their bits, byte
/// after byte, make no condition, and end with the clock low.
pub proof fn lemma_bytes_waveform(w: Wiring, l: Levels, bytes: Seq<u8>, samples: Seq<u32>)
    requires
        distinct_lines(w),
        !l.scl,
    ensures
        !levels_after(w, l, bytes_events(w, bytes, samples)).scl,
        clocked_in(w, l, bytes_events(w, bytes, samples)) == frame_bits(w, bytes, samples),
        conditions(w, l, bytes_events(w, bytes, samples)) == Seq::<bool>::empty(),
    decreases bytes.len(),
{
    if bytes.len() == 0 || samples.len() == 0 {
        assert(clocked_in(w, l, bytes_events(w, bytes, samples)) =~= frame_bits(w, bytes, samples));
    } else {
        let first = write_byte_events(w, bytes[0], samples[0]);
        let l1 = levels_after(w, l, first);
        law_byte_clocked_msb_first(w, l, bytes[0], samples[0]);
        if acked(w, samples[0]) {
            let rest = bytes_events(w, bytes.skip(1), samples.skip(1));
            lemma_bytes_waveform(w, l1, bytes.skip(1), samples.skip(1));
            lemma_waveform_concat(w, l, first, rest);
            assert(conditions(w, l, first + rest) =~= Seq::<bool>::empty());
        } else {
            assert(first + Seq::<Event>::empty() =~= first);
            assert(bits_msb_first(bytes[0]).push(true) + Seq::<bool>::empty() =~= bits_msb_first(
                bytes[0],
            ).push(true));
        }
    }
}

/// A write transaction begun with both lines released clocks in the bits of
/// every byte that is sent, each followed by its acknowledgment slot, and at
/// last the low data line of the stop condition. The data line changes while
/// the clock is high exactly twice: it falls at the beginning, which is the
/// start condition, and rises at the end, which is the stop condition. That
/// holds of failed transactions too, and both lines are released afterwards.
pub proof fn law_transaction_waveform(w: Wiring, frame: Seq<u8>, samples: Seq<u32>)
    requires
        distinct_lines(w),
    ensures
        clocked_in(w, idle(), transaction_events(w, frame, samples)) == frame_bits(
            w,
            frame,
            samples,
        ).push(false),
        conditions(w, idle(), transaction_events(w, frame, samples)) == seq![false, true],
        levels_after(w, idle(), transaction_events(w, frame, samples)) == idle(),
{
    let e1 = start_events(w);
    let e2 = bytes_events(w, frame, samples);
    let e3 = stop_events(w);
    let l1 = levels_after(w, idle(), e1);
    let l2 = levels_after(w, l1, e2);
    lemma_start(w, idle());
    lemma_bytes_waveform(w, l1, frame, samples);
    lemma_stop(w, l2);
    lemma_waveform_concat(w, idle(), e1, e2);
    lemma_waveform_concat(w, idle(), e1 + e2, e3);
    let r = reading(w, idle(), transaction_events(w, frame, samples));
    assert(r.clocked =~= frame_bits(w, frame, samples).push(false));
    assert(r.conditions =~= seq![false, true]);
}

/// Events that write neither to the set nor to the clear register move no
/// line.
pub proof fn lemma_quiet(w: Wiring, l: Levels, events: Seq<Event>)
    requires
        forall|i: int|
            0 <= i < events.len() ==> (#[trigger] events[i] matches Event::Write { addr, val }
                ==> addr != GPIO_OUT_W1TS_REG && addr != GPIO_OUT_W1TC_REG),
    ensures
        reading(w, l, events) == still(l),
    decreases events.len(),
{
    if events.len() > 0 {
        lemma_quiet(w, l, events.drop_last());
        assert(events.last() == events[events.len() - 1]);
    }
}

/// Configuring the bus master leaves both lines released, whatever the
/// levels before and whatever the registers read as.
pub proof fn law_init_idle(config: I2cConfig, l: Levels, heard: Seq<u32>)
    requires
        config_ok(config),
        config.scl_pin != config.sda_pin,
    ensures
        levels_after(wiring_of(config), l, init_events(config, heard)) == idle(),
{
    let w = wiring_of(config);
    let e1 = opendrain_events(config.scl_pin, heard);
    let e2 = opendrain_events(config.sda_pin, heard.skip(opendrain_reads(config.scl_pin) as int));
    let e3 = sda_high_events(w);
    let e4 = scl_high_events(w);
    lemma_quiet(w, l, e1);
    lemma_quiet(w, l, e2);
    lemma_sda(w, l, true);
    lemma_scl_high(w, Levels { scl: l.scl, sda: true });
    lemma_waveform_concat(w, l, e1, e2);
    lemma_waveform_concat(w, l, e1 + e2, e3);
    lemma_waveform_concat(w, l, e1 + e2 + e3, e4);
}

} // verus!
