//! A software-timed two-wire bus master.
//!
//! Both lines are driven through the GPIO set and clear registers, and every
//! transition is followed by a busy-wait of a quarter of a bit time. The
//! contracts describe each operation by the exact run of register accesses and
//! waits that it makes; [`crate::waveform`] reads such a run as line levels.

use vstd::prelude::*;
use crate::gpio::{
    gpio_pin_mux_reg,
    is_gpio,
    mux_drive,
    mux_function,
    mux_reg,
    mux_rest,
    pin_mask,
    reg_set_bit,
    set_bit_events,
    FUN_DRV_SHIFT,
    FUN_IE,
    FUN_WPD,
    FUN_WPU,
    GPIO_ENABLE_REG,
    GPIO_IN_REG,
    GPIO_MAX,
    GPIO_OUT_W1TC_REG,
    GPIO_OUT_W1TS_REG,
    MCU_SEL_SHIFT,
};
use crate::trace::{lemma_two_steps, Event, RegisterAccess, Traced};

verus! {

/// The processor clock that the delay loop is calibrated for.
pub const CPU_HZ: u32 = 160_000_000;

/// Which pins carry the bus, and how fast it is to run.
pub struct I2cConfig {
    pub scl_pin: i32,
    pub sda_pin: i32,
    pub freq_hz: u32,
}

/// The pins of the two lines and the length of one busy-wait.
pub struct Wiring {
    pub scl_pin: i32,
    pub sda_pin: i32,
    pub delay_cycles: u32,
}

/// A bus master on a register interface.
pub struct I2c<R: RegisterAccess> {
    io: Traced<R>,
    wiring: Wiring,
}

/// Whether `pin` can be a bit of a 32-bit register.
pub open spec fn pin_in_word(pin: i32) -> bool {
    0 <= pin < 32
}

/// Whether `config` can be handed to [`init`]: both pins are bits of a
/// register and the frequency is not zero.
pub open spec fn config_ok(config: I2cConfig) -> bool {
    &&& pin_in_word(config.scl_pin)
    &&& pin_in_word(config.sda_pin)
    &&& config.freq_hz > 0
}

/// The wiring that [`init`] derives from `config`: four waits to a bit cell.
pub open spec fn wiring_of(config: I2cConfig) -> Wiring {
    Wiring {
        scl_pin: config.scl_pin,
        sda_pin: config.sda_pin,
        delay_cycles: ((CPU_HZ / config.freq_hz) / 4) as u32,
    }
}

/// The wiring of a bus master that was never configured.
pub open spec fn unconfigured() -> Wiring {
    Wiring { scl_pin: 0, sda_pin: 0, delay_cycles: 0 }
}

// ---------------------------------------------------------------------------
// What each operation does, as a run of events.
// ---------------------------------------------------------------------------
/// One line transition: a write of the pin's bit to `reg`, then one wait.
pub open spec fn drive_events(w: Wiring, reg: u32, pin: i32) -> Seq<Event> {
    seq![Event::Write { addr: reg, val: pin_mask(pin) }, Event::Delay { cycles: w.delay_cycles }]
}

/// The clock line is released.
pub open spec fn scl_high_events(w: Wiring) -> Seq<Event> {
    drive_events(w, GPIO_OUT_W1TS_REG, w.scl_pin)
}

/// The clock line is pulled low.
pub open spec fn scl_low_events(w: Wiring) -> Seq<Event> {
    drive_events(w, GPIO_OUT_W1TC_REG, w.scl_pin)
}

/// The data line is released.
pub open spec fn sda_high_events(w: Wiring) -> Seq<Event> {
    drive_events(w, GPIO_OUT_W1TS_REG, w.sda_pin)
}

/// The data line is pulled low.
pub open spec fn sda_low_events(w: Wiring) -> Seq<Event> {
    drive_events(w, GPIO_OUT_W1TC_REG, w.sda_pin)
}

/// The data line is put at `level`.
pub open spec fn sda_events(w: Wiring, level: bool) -> Seq<Event> {
    if level {
        sda_high_events(w)
    } else {
        sda_low_events(w)
    }
}

/// One read of the pin input register, answered by `sample`.
pub open spec fn sample_events(sample: u32) -> Seq<Event> {
    seq![Event::Read { addr: GPIO_IN_REG, val: sample }]
}

/// Whether the data line is high in `sample`, a value of the input register.
pub open spec fn line_high(w: Wiring, sample: u32) -> bool {
    sample & pin_mask(w.sda_pin) != 0
}

/// Whether `sample`, taken in the acknowledgment slot, shows an
/// acknowledgment: the receiver holds the data line low.
pub open spec fn acked(w: Wiring, sample: u32) -> bool {
    !line_high(w, sample)
}

/// The start condition and the fall of the clock that follows it.
pub open spec fn start_events(w: Wiring) -> Seq<Event> {
    sda_high_events(w) + scl_high_events(w) + sda_low_events(w) + scl_low_events(w)
}

/// The stop condition.
pub open spec fn stop_events(w: Wiring) -> Seq<Event> {
    sda_low_events(w) + scl_high_events(w) + sda_high_events(w)
}

/// Bit `i` of `data`, bit 0 being the least significant.
pub open spec fn byte_bit(data: u8, i: u32) -> bool {
    data & (1u8 << i) != 0
}

/// The eight bits of `data`, most significant first.
pub open spec fn bits_msb_first(data: u8) -> Seq<bool> {
    Seq::new(8, |k: int| byte_bit(data, (7 - k) as u32))
}

/// One bit cell: the data line is put at `level`, then the clock is pulsed.
pub open spec fn bit_events(w: Wiring, level: bool) -> Seq<Event> {
    sda_events(w, level) + scl_high_events(w) + scl_low_events(w)
}

/// The bit cells of the `n` most significant bits of `data`, in order.
pub open spec fn data_bits_events(w: Wiring, data: u8, n: nat) -> Seq<Event>
    decreases n,
{
    if n == 0 {
        Seq::empty()
    } else {
        data_bits_events(w, data, (n - 1) as nat) + bit_events(w, byte_bit(data, (8 - n) as u32))
    }
}

/// What [`write_byte`] does: eight bit cells, then the data line is released
/// and the clock raised, the data line is sampled once, and the clock falls.
pub open spec fn write_byte_events(w: Wiring, data: u8, sample: u32) -> Seq<Event> {
    data_bits_events(w, data, 8) + sda_high_events(w) + scl_high_events(w) + sample_events(sample)
        + scl_low_events(w)
}

/// One read slot for each of `samples`: the clock is raised, the data line is
/// sampled, and the clock falls.
pub open spec fn read_bits_events(w: Wiring, samples: Seq<u32>) -> Seq<Event>
    decreases samples.len(),
{
    if samples.len() == 0 {
        Seq::empty()
    } else {
        read_bits_events(w, samples.drop_last()) + scl_high_events(w) + sample_events(
            samples.last(),
        ) + scl_low_events(w)
    }
}

/// What [`read_byte`] does when the input register answers the eight
/// `samples`: the data line is released, the bits are sampled, then an
/// acknowledgment (data low) or its refusal (data released) is clocked out and
/// the data line is released.
pub open spec fn read_byte_events(w: Wiring, send_ack: bool, samples: Seq<u32>) -> Seq<Event> {
    sda_high_events(w) + read_bits_events(w, samples) + sda_events(w, !send_ack)
        + scl_high_events(w) + scl_low_events(w) + sda_high_events(w)
}

/// The levels of the data line in `samples`.
pub open spec fn sampled_levels(w: Wiring, samples: Seq<u32>) -> Seq<bool> {
    Seq::new(samples.len(), |k: int| line_high(w, samples[k]))
}

/// How many bytes of `bytes` are clocked out when the acknowledgment slots
/// are answered by `samples`: all up to and including the first that is not
/// acknowledged.
pub open spec fn clocked(w: Wiring, bytes: Seq<u8>, samples: Seq<u32>) -> nat
    decreases bytes.len(),
{
    if bytes.len() == 0 || samples.len() == 0 {
        0
    } else if !acked(w, samples[0]) {
        1
    } else {
        1 + clocked(w, bytes.skip(1), samples.skip(1))
    }
}

/// Whether every byte of `bytes` is acknowledged by `samples`.
pub open spec fn all_acked(w: Wiring, bytes: Seq<u8>, samples: Seq<u32>) -> bool {
    &&& samples.len() >= bytes.len()
    &&& forall|k: int| 0 <= k < bytes.len() ==> acked(w, #[trigger] samples[k])
}

/// Whether `samples` are the acknowledgment slots of one transfer of `bytes`:
/// one for every byte sent, where sending ends with the first byte that is not
/// acknowledged, or else with the last byte.
pub open spec fn is_transfer(w: Wiring, bytes: Seq<u8>, samples: Seq<u32>) -> bool {
    &&& samples.len() <= bytes.len()
    &&& forall|k: int| 0 <= k < samples.len() - 1 ==> acked(w, #[trigger] samples[k])
    &&& samples.len() == bytes.len() || (samples.len() > 0 && !acked(w, samples.last()))
}

/// The bytes of `bytes` clocked out in order, stopping after the first that is
/// not acknowledged; `samples[k]` is what the acknowledgment slot of byte `k`
/// reads.
pub open spec fn bytes_events(w: Wiring, bytes: Seq<u8>, samples: Seq<u32>) -> Seq<Event>
    decreases bytes.len(),
{
    if bytes.len() == 0 || samples.len() == 0 {
        Seq::empty()
    } else {
        write_byte_events(w, bytes[0], samples[0]) + if acked(w, samples[0]) {
            bytes_events(w, bytes.skip(1), samples.skip(1))
        } else {
            Seq::empty()
        }
    }
}

/// A whole write transaction of `frame`: start, the bytes up to the first
/// that is not acknowledged, stop.
pub open spec fn transaction_events(w: Wiring, frame: Seq<u8>, samples: Seq<u32>) -> Seq<Event> {
    start_events(w) + bytes_events(w, frame, samples) + stop_events(w)
}

/// Several write transactions in a row, one for each of `frames`, answered by
/// `stream`: each takes from the front of the stream the samples of the bytes
/// it sends and leaves the rest to the next.
pub open spec fn frames_events(w: Wiring, frames: Seq<Seq<u8>>, stream: Seq<u32>) -> Seq<Event>
    decreases frames.len(),
{
    if frames.len() == 0 {
        Seq::empty()
    } else {
        transaction_events(w, frames[0], stream) + frames_events(
            w,
            frames.skip(1),
            stream.skip(clocked(w, frames[0], stream) as int),
        )
    }
}

/// Whether `stream` is exactly what the transactions of `frames` sample, one
/// complete transfer after the other, with nothing left over.
pub open spec fn are_transfers(w: Wiring, frames: Seq<Seq<u8>>, stream: Seq<u32>) -> bool
    decreases frames.len(),
{
    if frames.len() == 0 {
        stream.len() == 0
    } else {
        let n = clocked(w, frames[0], stream) as int;
        &&& n <= stream.len()
        &&& is_transfer(w, frames[0], stream.take(n))
        &&& are_transfers(w, frames.skip(1), stream.skip(n))
    }
}

/// The address byte of a write to the 7-bit address `addr`: the address in
/// bits 7 to 1, and 0 for "write" in bit 0.
pub open spec fn write_address(addr: u8) -> u8 {
    addr << 1
}

/// The bytes that [`write`] puts on the bus.
pub open spec fn write_frame(addr: u8, data: Seq<u8>) -> Seq<u8> {
    seq![write_address(addr)] + data
}

/// The bytes that [`write_reg`] puts on the bus.
pub open spec fn write_reg_frame(addr: u8, reg: u8, data: Seq<u8>) -> Seq<u8> {
    seq![write_address(addr), reg] + data
}

/// A multiplexer word changed to select the GPIO function with input and
/// pull-up enabled, pull-down disabled and medium drive strength; every other
/// bit is kept.
pub open spec fn opendrain_mux(v: u32) -> u32 {
    let function = (v & !(0x7u32 << MCU_SEL_SHIFT)) | (1u32 << MCU_SEL_SHIFT);
    let pulls = (function | (FUN_IE | FUN_WPU)) & !FUN_WPD;
    (pulls & !(0x3u32 << FUN_DRV_SHIFT)) | (2u32 << FUN_DRV_SHIFT)
}

/// How many registers are read to configure `pin`.
pub open spec fn opendrain_reads(pin: i32) -> nat {
    if is_gpio(pin) {
        2
    } else {
        0
    }
}

/// What configuring `pin` as a bus line does when the hardware answers
/// `heard`: nothing for a number that names no pin, else the multiplexer word
/// is read and rewritten and the pin's output is enabled.
pub open spec fn opendrain_events(pin: i32, heard: Seq<u32>) -> Seq<Event> {
    if is_gpio(pin) {
        seq![
            Event::Read { addr: mux_reg(pin), val: heard[0] },
            Event::Write { addr: mux_reg(pin), val: opendrain_mux(heard[0]) },
        ] + set_bit_events(GPIO_ENABLE_REG, pin_mask(pin), heard[1])
    } else {
        Seq::empty()
    }
}

/// What [`init`] does for `config` when the hardware answers `heard`: both
/// pins are configured, clock first, then both lines are released, data first.
pub open spec fn init_events(config: I2cConfig, heard: Seq<u32>) -> Seq<Event> {
    opendrain_events(config.scl_pin, heard) + opendrain_events(
        config.sda_pin,
        heard.skip(opendrain_reads(config.scl_pin) as int),
    ) + sda_high_events(wiring_of(config)) + scl_high_events(wiring_of(config))
}

// ---------------------------------------------------------------------------
// The bus master.
// ---------------------------------------------------------------------------
impl<R: RegisterAccess> I2c<R> {
    /// Both pins are bits of a register. [`I2c::new`] and [`init`] establish
    /// this, and no operation changes the wiring afterwards.
    pub open spec fn wf(&self) -> bool {
        pin_in_word(self.wiring().scl_pin) && pin_in_word(self.wiring().sda_pin)
    }

    /// The pins and the delay in use.
    pub closed spec fn wiring(&self) -> Wiring {
        self.wiring
    }

    /// The register interface underneath.
    pub closed spec fn regs(&self) -> R {
        self.io.regs()
    }

    /// Every register access and wait made so far.
    pub closed spec fn trace(&self) -> Seq<Event> {
        self.io.trace()
    }

    /// Every value read from a register so far.
    pub closed spec fn answers(&self) -> Seq<u32> {
        self.io.answers()
    }

    /// `self` is `before` after the bus master did `events`, the hardware
    /// having answered `heard` to the reads among them. The wiring is the
    /// same.
    pub open spec fn after(&self, before: &Self, events: Seq<Event>, heard: Seq<u32>) -> bool {
        &&& self.wiring() == before.wiring()
        &&& self.trace() == before.trace() + events
        &&& self.answers() == before.answers() + heard
    }

    /// The answers received since the bus master was in the state `before`.
    pub open spec fn heard_since(&self, before: &Self) -> Seq<u32> {
        self.answers().skip(before.answers().len() as int)
    }

    /// The answers are those of the reads in the trace, in order.
    pub proof fn law_answers_of_trace(&self)
        ensures
            self.answers() == crate::trace::answers_of(self.trace()),
    {
    }

    /// A bus master that is not configured yet: both lines on pin 0 and no
    /// delay.
    pub fn new(regs: R) -> (bus: Self)
        ensures
            bus.wf(),
            bus.wiring() == unconfigured(),
            bus.trace() == Seq::<Event>::empty(),
            bus.answers() == Seq::<u32>::empty(),
    {
        I2c { io: Traced::new(regs), wiring: Wiring { scl_pin: 0, sda_pin: 0, delay_cycles: 0 } }
    }

    /// The register interface underneath, for reading.
    pub fn registers(&self) -> (regs: &R)
        ensures
            *regs == self.regs(),
    {
        self.io.registers()
    }

    /// Busy-waits for `cycles` iterations of a spin loop, leaving the lines as
    /// they are.
    pub fn pause(&mut self, cycles: u32)
        ensures
            final(self).after(old(self), seq![Event::Delay { cycles }], Seq::empty()),
    {
        self.io.delay(cycles);
        proof {
            assert(self.answers() =~= old(self).answers() + Seq::<u32>::empty());
        }
    }

    /// Gives the register interface back.
    pub fn into_registers(self) -> (regs: R)
        ensures
            regs == self.regs(),
    {
        self.io.into_registers()
    }

    /// The clock pin in use.
    pub fn scl_pin(&self) -> (pin: i32)
        ensures
            pin == self.wiring().scl_pin,
    {
        self.wiring.scl_pin
    }

    /// The data pin in use.
    pub fn sda_pin(&self) -> (pin: i32)
        ensures
            pin == self.wiring().sda_pin,
    {
        self.wiring.sda_pin
    }

    /// The length of one busy-wait, in iterations of the spin loop.
    pub fn delay_cycles(&self) -> (cycles: u32)
        ensures
            cycles == self.wiring().delay_cycles,
    {
        self.wiring.delay_cycles
    }
}

/// Waits a quarter of a bit time.
fn i2c_delay<R: RegisterAccess>(bus: &mut I2c<R>)
    ensures
        final(bus).after(
            old(bus),
            seq![Event::Delay { cycles: old(bus).wiring().delay_cycles }],
            Seq::empty(),
        ),
{
    bus.io.delay(bus.wiring.delay_cycles);
    proof {
        assert(bus.answers() =~= old(bus).answers() + Seq::<u32>::empty());
    }
}

/// Configures `gpio_num` as a bus line: GPIO function, input and pull-up
/// enabled, output enabled. A number that names no pin is ignored.
fn gpio_set_opendrain<R: RegisterAccess>(io: &mut Traced<R>, gpio_num: i32)
    ensures
        final(io).heard_since(old(io)).len() == opendrain_reads(gpio_num),
        final(io).after(
            old(io),
            opendrain_events(gpio_num, final(io).heard_since(old(io))),
            final(io).heard_since(old(io)),
        ),
{
    if gpio_num < 0 || gpio_num > GPIO_MAX {
        proof {
            assert(io.heard_since(old(io)) =~= Seq::empty());
        }
        return ;
    }
    let n = gpio_num as u32;
    let mux_reg = gpio_pin_mux_reg(n);
    let mut mux_val = io.read(mux_reg);
    let ghost mux_was = mux_val;

    mux_val &= !(0x7 << MCU_SEL_SHIFT);
    mux_val |= 1 << MCU_SEL_SHIFT;

    mux_val |= FUN_IE | FUN_WPU;
    mux_val &= !FUN_WPD;

    mux_val &= !(0x3 << FUN_DRV_SHIFT);
    mux_val |= 2 << FUN_DRV_SHIFT;

    io.write(mux_reg, mux_val);

    reg_set_bit(io, GPIO_ENABLE_REG, 1 << n);
    proof {
        let heard = seq![mux_was, io.answers().last()];
        assert(io.answers() =~= old(io).answers() + heard);
        assert(io.heard_since(old(io)) =~= heard);
        assert(io.trace() =~= old(io).trace() + opendrain_events(gpio_num, heard));
    }
}

/// Releases the clock line.
fn scl_high<R: RegisterAccess>(bus: &mut I2c<R>)
    requires
        old(bus).wf(),
    ensures
        final(bus).after(old(bus), scl_high_events(old(bus).wiring()), Seq::empty()),
{
    bus.io.write(GPIO_OUT_W1TS_REG, 1 << bus.wiring.scl_pin);
    i2c_delay(bus);
    proof {
        assert(bus.trace() =~= old(bus).trace() + scl_high_events(old(bus).wiring()));
        assert(bus.answers() =~= old(bus).answers() + Seq::<u32>::empty());
    }
}

/// Pulls the clock line low.
fn scl_low<R: RegisterAccess>(bus: &mut I2c<R>)
    requires
        old(bus).wf(),
    ensures
        final(bus).after(old(bus), scl_low_events(old(bus).wiring()), Seq::empty()),
{
    bus.io.write(GPIO_OUT_W1TC_REG, 1 << bus.wiring.scl_pin);
    i2c_delay(bus);
    proof {
        assert(bus.trace() =~= old(bus).trace() + scl_low_events(old(bus).wiring()));
        assert(bus.answers() =~= old(bus).answers() + Seq::<u32>::empty());
    }
}

/// Releases the data line.
fn sda_high<R: RegisterAccess>(bus: &mut I2c<R>)
    requires
        old(bus).wf(),
    ensures
        final(bus).after(old(bus), sda_high_events(old(bus).wiring()), Seq::empty()),
{
    bus.io.write(GPIO_OUT_W1TS_REG, 1 << bus.wiring.sda_pin);
    i2c_delay(bus);
    proof {
        assert(bus.trace() =~= old(bus).trace() + sda_high_events(old(bus).wiring()));
        assert(bus.answers() =~= old(bus).answers() + Seq::<u32>::empty());
    }
}

/// Pulls the data line low.
fn sda_low<R: RegisterAccess>(bus: &mut I2c<R>)
    requires
        old(bus).wf(),
    ensures
        final(bus).after(old(bus), sda_low_events(old(bus).wiring()), Seq::empty()),
{
    bus.io.write(GPIO_OUT_W1TC_REG, 1 << bus.wiring.sda_pin);
    i2c_delay(bus);
    proof {
        assert(bus.trace() =~= old(bus).trace() + sda_low_events(old(bus).wiring()));
        assert(bus.answers() =~= old(bus).answers() + Seq::<u32>::empty());
    }
}

/// Samples the data line: whether it is high, and the word that was read.
fn sda_read<R: RegisterAccess>(bus: &mut I2c<R>) -> (high: bool)
    requires
        old(bus).wf(),
    ensures
        final(bus).answers().len() == old(bus).answers().len() + 1,
        final(bus).after(
            old(bus),
            sample_events(final(bus).answers().last()),
            seq![final(bus).answers().last()],
        ),
        high == line_high(old(bus).wiring(), final(bus).answers().last()),
{
    let word = bus.io.read(GPIO_IN_REG);
    (word & (1 << bus.wiring.sda_pin)) != 0
}

/// Issues a start condition: with both lines released, the data line falls
/// while the clock is high; then the clock is pulled low. Always succeeds.
pub fn start<R: RegisterAccess>(bus: &mut I2c<R>) -> (ok: bool)
    requires
        old(bus).wf(),
    ensures
        ok,
        final(bus).after(old(bus), start_events(old(bus).wiring()), Seq::empty()),
{
    sda_high(bus);
    scl_high(bus);
    sda_low(bus);
    scl_low(bus);
    proof {
        assert(bus.trace() =~= old(bus).trace() + start_events(old(bus).wiring()));
        assert(bus.answers() =~= old(bus).answers() + Seq::<u32>::empty());
    }
    true
}

/// Issues a stop condition: with the data line low, the clock is released and
/// then the data line rises while the clock is high.
pub fn stop<R: RegisterAccess>(bus: &mut I2c<R>)
    requires
        old(bus).wf(),
    ensures
        final(bus).after(old(bus), stop_events(old(bus).wiring()), Seq::empty()),
{
    sda_low(bus);
    scl_high(bus);
    sda_high(bus);
    proof {
        assert(bus.trace() =~= old(bus).trace() + stop_events(old(bus).wiring()));
        assert(bus.answers() =~= old(bus).answers() + Seq::<u32>::empty());
    }
}

/// Sends one byte, most significant bit first, and samples the
/// acknowledgment slot. Returns whether the receiver acknowledged, that is
/// whether it held the data line low in that slot.
pub fn write_byte<R: RegisterAccess>(bus: &mut I2c<R>, data: u8) -> (ack: bool)
    requires
        old(bus).wf(),
    ensures
        final(bus).answers().len() == old(bus).answers().len() + 1,
        final(bus).after(
            old(bus),
            write_byte_events(old(bus).wiring(), data, final(bus).answers().last()),
            seq![final(bus).answers().last()],
        ),
        ack == acked(old(bus).wiring(), final(bus).answers().last()),
{
    let ghost before = *bus;
    let ghost w = bus.wiring();
    let mut i: u32 = 8;
    while i > 0
        invariant
            i <= 8,
            bus.wf(),
            bus.wiring() == w,
            bus.trace() == before.trace() + data_bits_events(w, data, (8 - i) as nat),
            bus.answers() == before.answers(),
        decreases i,
    {
        i -= 1;
        if (data & (1 << i)) != 0 {
            sda_high(bus);
        } else {
            sda_low(bus);
        }
        scl_high(bus);
        scl_low(bus);
        proof {
            assert(bus.trace() =~= before.trace() + data_bits_events(w, data, (8 - i) as nat));
            assert(bus.answers() =~= before.answers());
        }
    }

    sda_high(bus);
    scl_high(bus);
    let ack = !sda_read(bus);
    scl_low(bus);
    proof {
        let sample = bus.answers().last();
        assert(bus.answers() =~= before.answers() + seq![sample]);
        assert(bus.trace() =~= before.trace() + write_byte_events(w, data, sample));
    }
    ack
}

/// Setting bit `i` of a byte changes that bit and no other.
proof fn lemma_set_bit(d: u8, i: u32, j: u32)
    by (bit_vector)
    requires
        i < 8,
        j < 8,
    ensures
        ((d | (1u8 << i)) & (1u8 << j) != 0) == (i == j || d & (1u8 << j) != 0),
        0u8 & (1u8 << j) == 0,
{
}

/// Receives one byte, most significant bit first, then answers with an
/// acknowledgment if `ack` is set and with its refusal if not.
pub fn read_byte<R: RegisterAccess>(bus: &mut I2c<R>, ack: bool) -> (data: u8)
    requires
        old(bus).wf(),
    ensures
        final(bus).heard_since(old(bus)).len() == 8,
        final(bus).after(
            old(bus),
            read_byte_events(old(bus).wiring(), ack, final(bus).heard_since(old(bus))),
            final(bus).heard_since(old(bus)),
        ),
        bits_msb_first(data) == sampled_levels(
            old(bus).wiring(),
            final(bus).heard_since(old(bus)),
        ),
{
    let ghost before = *bus;
    let ghost w = bus.wiring();
    let ghost mut samples: Seq<u32> = Seq::empty();
    let mut data: u8 = 0;

    sda_high(bus);
    proof {
        assert forall|j: u32| j < 8 implies !#[trigger] byte_bit(data, j) by {
            lemma_set_bit(0, j, j);
        }
        assert(bus.trace() =~= before.trace() + sda_high_events(w) + read_bits_events(w, samples));
        assert(bus.answers() =~= before.answers() + samples);
    }

    let mut i: u32 = 8;
    while i > 0
        invariant
            i <= 8,
            bus.wf(),
            bus.wiring() == w,
            samples.len() == 8 - i,
            bus.trace() == before.trace() + sda_high_events(w) + read_bits_events(w, samples),
            bus.answers() == before.answers() + samples,
            forall|j: u32|
                i <= j < 8 ==> byte_bit(data, j) == line_high(w, #[trigger] samples[7 - j]),
            forall|j: u32| j < i ==> !#[trigger] byte_bit(data, j),
        decreases i,
    {
        i -= 1;
        let ghost data_was = data;
        let ghost samples_was = samples;
        scl_high(bus);
        if sda_read(bus) {
            data |= 1 << i;
        }
        scl_low(bus);
        proof {
            let sample = bus.answers().last();
            samples = samples_was.push(sample);
            assert(samples.drop_last() =~= samples_was);
            assert(bus.answers() =~= before.answers() + samples);
            assert(bus.trace() =~= before.trace() + sda_high_events(w) + read_bits_events(
                w,
                samples,
            ));
            assert forall|j: u32| j < 8 implies byte_bit(data, j) == (if j == i {
                line_high(w, sample)
            } else {
                byte_bit(data_was, j)
            }) by {
                lemma_set_bit(data_was, i, j);
            }
            assert forall|j: u32| i <= j < 8 implies byte_bit(data, j) == line_high(
                w,
                #[trigger] samples[7 - j],
            ) by {
                if j != i {
                    assert(samples[7 - j] == samples_was[7 - j]);
                }
            }
        }
    }

    if ack {
        sda_low(bus);
    } else {
        sda_high(bus);
    }
    scl_high(bus);
    scl_low(bus);
    sda_high(bus);
    proof {
        assert(bus.heard_since(&before) =~= samples);
        assert(bus.answers() =~= before.answers() + samples);
        assert(bus.trace() =~= before.trace() + read_byte_events(w, ack, samples));
        assert(bits_msb_first(data) =~= sampled_levels(w, samples)) by {
            assert forall|k: int| 0 <= k < 8 implies bits_msb_first(data)[k] == sampled_levels(
                w,
                samples,
            )[k] by {
                let j = (7 - k) as u32;
                assert(samples[7 - j] == samples[k]);
            }
        }
    }
    data
}

/// A frame and its samples, split after the first byte: that byte is sent,
/// and the rest follows only if it was acknowledged.
pub proof fn lemma_frame_head(w: Wiring, head: u8, tail: Seq<u8>, sample: u32, rest: Seq<u32>)
    ensures
        bytes_events(w, seq![head] + tail, seq![sample] + rest) == write_byte_events(
            w,
            head,
            sample,
        ) + if acked(w, sample) {
            bytes_events(w, tail, rest)
        } else {
            Seq::empty()
        },
        clocked(w, seq![head] + tail, seq![sample] + rest) == if acked(w, sample) {
            1 + clocked(w, tail, rest)
        } else {
            1
        },
        all_acked(w, seq![head] + tail, seq![sample] + rest) == (acked(w, sample) && all_acked(
            w,
            tail,
            rest,
        )),
        is_transfer(w, seq![head] + tail, seq![sample] + rest) == if acked(w, sample) {
            is_transfer(w, tail, rest)
        } else {
            rest.len() == 0
        },
{
    let bytes = seq![head] + tail;
    let samples = seq![sample] + rest;
    assert(bytes.skip(1) =~= tail);
    assert(samples.skip(1) =~= rest);
    assert(bytes[0] == head && samples[0] == sample);
    if is_transfer(w, bytes, samples) {
        if rest.len() > 0 {
            assert(acked(w, samples[0]));
            assert(samples.last() == rest.last());
            assert forall|k: int| 0 <= k < rest.len() - 1 implies acked(w, #[trigger] rest[k]) by {
                assert(acked(w, samples[k + 1]));
            }
        }
    }
    if acked(w, sample) && is_transfer(w, tail, rest) {
        assert forall|k: int| 0 <= k < samples.len() - 1 implies acked(
            w,
            #[trigger] samples[k],
        ) by {
            if k > 0 {
                assert(acked(w, rest[k - 1]));
            }
        }
        if rest.len() > 0 {
            assert(samples.last() == rest.last());
        }
    }
    if all_acked(w, bytes, samples) {
        assert(acked(w, samples[0]));
        assert forall|k: int| 0 <= k < tail.len() implies acked(w, #[trigger] rest[k]) by {
            assert(acked(w, samples[k + 1]));
        }
    }
    if acked(w, sample) && all_acked(w, tail, rest) {
        assert forall|k: int| 0 <= k < bytes.len() implies acked(w, #[trigger] samples[k]) by {
            if k > 0 {
                assert(acked(w, rest[k - 1]));
            }
        }
    }
}

/// A multiplexer word set up for a bus line selects function 1, the GPIO, at
/// drive strength 2, with the input and the pull-up enabled and the pull-down
/// disabled, and is otherwise what it was.
pub proof fn law_opendrain_mux(v: u32)
    ensures
        mux_function(opendrain_mux(v)) == 1,
        mux_drive(opendrain_mux(v)) == 2,
        opendrain_mux(v) & FUN_IE == FUN_IE,
        opendrain_mux(v) & FUN_WPU == FUN_WPU,
        opendrain_mux(v) & FUN_WPD == 0,
        mux_rest(opendrain_mux(v)) == mux_rest(v),
{
    assert(mux_function(opendrain_mux(v)) == 1) by (bit_vector);
    assert(mux_drive(opendrain_mux(v)) == 2) by (bit_vector);
    assert(opendrain_mux(v) & FUN_IE == FUN_IE) by (bit_vector);
    assert(opendrain_mux(v) & FUN_WPU == FUN_WPU) by (bit_vector);
    assert(opendrain_mux(v) & FUN_WPD == 0) by (bit_vector);
    assert(mux_rest(opendrain_mux(v)) == mux_rest(v)) by (bit_vector);
}

/// When the address byte of a write is not acknowledged, the transaction is
/// the start condition, that one byte and the stop condition: no byte of the
/// payload is sent, and the write fails.
pub proof fn law_unacknowledged_address(w: Wiring, addr: u8, data: Seq<u8>, samples: Seq<u32>)
    requires
        samples.len() > 0,
        !acked(w, samples[0]),
    ensures
        transaction_events(w, write_frame(addr, data), samples) == start_events(w)
            + write_byte_events(w, write_address(addr), samples[0]) + stop_events(w),
        clocked(w, write_frame(addr, data), samples) == 1,
        !all_acked(w, write_frame(addr, data), samples),
{
    assert(samples =~= seq![samples[0]] + samples.skip(1));
    lemma_frame_head(w, write_address(addr), data, samples[0], samples.skip(1));
    assert(write_byte_events(w, write_address(addr), samples[0]) + Seq::<Event>::empty()
        =~= write_byte_events(w, write_address(addr), samples[0]));
}

/// What a transfer does is decided by its own samples: whatever follows them
/// in the stream is not looked at.
pub proof fn lemma_transfer_prefix(w: Wiring, bytes: Seq<u8>, samples: Seq<u32>, rest: Seq<u32>)
    requires
        is_transfer(w, bytes, samples),
    ensures
        clocked(w, bytes, samples + rest) == samples.len(),
        bytes_events(w, bytes, samples + rest) == bytes_events(w, bytes, samples),
        transaction_events(w, bytes, samples + rest) == transaction_events(w, bytes, samples),
        (samples + rest).take(samples.len() as int) == samples,
        (samples + rest).skip(samples.len() as int) == rest,
    decreases bytes.len(),
{
    let stream = samples + rest;
    assert(stream.take(samples.len() as int) =~= samples);
    assert(stream.skip(samples.len() as int) =~= rest);
    if bytes.len() == 0 {
        assert(samples.len() == 0);
    } else if samples.len() == 0 {
        assert(false);
    } else {
        let tail = bytes.skip(1);
        let later = samples.skip(1);
        assert(bytes =~= seq![bytes[0]] + tail);
        assert(samples =~= seq![samples[0]] + later);
        assert(stream =~= seq![samples[0]] + (later + rest));
        lemma_frame_head(w, bytes[0], tail, samples[0], later);
        lemma_frame_head(w, bytes[0], tail, samples[0], later + rest);
        if acked(w, samples[0]) {
            lemma_transfer_prefix(w, tail, later, rest);
        } else {
            assert(later.len() == 0);
        }
    }
}

/// One more transaction after a run of transactions: it adds its events and
/// its samples at the end.
pub proof fn lemma_frames_next(
    w: Wiring,
    frames: Seq<Seq<u8>>,
    stream: Seq<u32>,
    frame: Seq<u8>,
    samples: Seq<u32>,
)
    requires
        are_transfers(w, frames, stream),
        is_transfer(w, frame, samples),
    ensures
        are_transfers(w, frames.push(frame), stream + samples),
        frames_events(w, frames.push(frame), stream + samples) == frames_events(w, frames, stream)
            + transaction_events(w, frame, samples),
    decreases frames.len(),
{
    let all = frames.push(frame);
    let both = stream + samples;
    if frames.len() == 0 {
        assert(both =~= samples);
        assert(samples =~= samples + Seq::<u32>::empty());
        lemma_transfer_prefix(w, frame, samples, Seq::empty());
        assert(all[0] == frame);
        assert(all.skip(1) =~= Seq::<Seq<u8>>::empty());
        assert(samples.take(samples.len() as int) =~= samples);
        assert(samples.skip(samples.len() as int) =~= Seq::<u32>::empty());
        assert(frames_events(w, all.skip(1), both.skip(samples.len() as int)) =~= Seq::<
            Event,
        >::empty());
        assert(frames_events(w, frames, stream) =~= Seq::<Event>::empty());
        assert(frames_events(w, all, both) =~= frames_events(w, frames, stream)
            + transaction_events(w, frame, samples));
        assert(clocked(w, all[0], both) == samples.len());
        assert(both.take(samples.len() as int) =~= samples);
        assert(are_transfers(w, all.skip(1), both.skip(samples.len() as int)));
    } else {
        let n = clocked(w, frames[0], stream) as int;
        let head = stream.take(n);
        let tail = stream.skip(n);
        assert(stream =~= head + tail);
        assert(both =~= head + (tail + samples));
        lemma_transfer_prefix(w, frames[0], head, tail);
        lemma_transfer_prefix(w, frames[0], head, tail + samples);
        assert(all[0] == frames[0]);
        assert(all.skip(1) =~= frames.skip(1).push(frame));
        assert(both.skip(n) =~= tail + samples);
        assert(both.take(n) =~= head);
        lemma_frames_next(w, frames.skip(1), tail, frame, samples);
        assert(frames_events(w, all, both) =~= frames_events(w, frames, stream)
            + transaction_events(w, frame, samples));
    }
}

/// Two runs of transactions in a row are one run: the events of the first
/// followed by those of the second, answered by the samples of the first
/// followed by those of the second.
pub proof fn lemma_frames_concat(
    w: Wiring,
    first: Seq<Seq<u8>>,
    heard_first: Seq<u32>,
    second: Seq<Seq<u8>>,
    heard_second: Seq<u32>,
)
    requires
        are_transfers(w, first, heard_first),
        are_transfers(w, second, heard_second),
    ensures
        are_transfers(w, first + second, heard_first + heard_second),
        frames_events(w, first + second, heard_first + heard_second) == frames_events(
            w,
            first,
            heard_first,
        ) + frames_events(w, second, heard_second),
    decreases first.len(),
{
    let all = first + second;
    let both = heard_first + heard_second;
    if first.len() == 0 {
        assert(all =~= second);
        assert(both =~= heard_second);
        assert(frames_events(w, first, heard_first) + frames_events(w, second, heard_second)
            =~= frames_events(w, second, heard_second));
    } else {
        let n = clocked(w, first[0], heard_first) as int;
        let head = heard_first.take(n);
        let tail = heard_first.skip(n);
        assert(heard_first =~= head + tail);
        assert(both =~= head + (tail + heard_second));
        lemma_transfer_prefix(w, first[0], head, tail);
        lemma_transfer_prefix(w, first[0], head, tail + heard_second);
        assert(all[0] == first[0]);
        assert(all.skip(1) =~= first.skip(1) + second);
        assert(both.skip(n) =~= tail + heard_second);
        assert(both.take(n) =~= head);
        lemma_frames_concat(w, first.skip(1), tail, second, heard_second);
        assert(frames_events(w, all, both) =~= frames_events(w, first, heard_first)
            + frames_events(w, second, heard_second));
    }
}

/// A single transaction is a run of one.
pub proof fn lemma_single_frame(w: Wiring, frame: Seq<u8>, samples: Seq<u32>)
    requires
        is_transfer(w, frame, samples),
    ensures
        are_transfers(w, seq![frame], samples),
        frames_events(w, seq![frame], samples) == transaction_events(w, frame, samples),
{
    lemma_frames_next(w, Seq::empty(), Seq::empty(), frame, samples);
    assert(Seq::<Seq<u8>>::empty().push(frame) =~= seq![frame]);
    assert(Seq::<u32>::empty() + samples =~= samples);
    assert(Seq::<Event>::empty() + transaction_events(w, frame, samples) =~= transaction_events(
        w,
        frame,
        samples,
    ));
}

/// When every sample so far is an acknowledgment and a byte is left, sending
/// the next byte adds its events and counts it, whatever its slot reads.
pub proof fn lemma_bytes_events_next(w: Wiring, bytes: Seq<u8>, samples: Seq<u32>, next: u32)
    requires
        samples.len() < bytes.len(),
        forall|k: int| 0 <= k < samples.len() ==> acked(w, #[trigger] samples[k]),
    ensures
        bytes_events(w, bytes, samples.push(next)) == bytes_events(w, bytes, samples)
            + write_byte_events(w, bytes[samples.len() as int], next),
        clocked(w, bytes, samples.push(next)) == samples.len() + 1,
        clocked(w, bytes, samples) == samples.len(),
    decreases samples.len(),
{
    let more = samples.push(next);
    let sent = write_byte_events(w, bytes[samples.len() as int], next);
    assert(bytes =~= seq![bytes[0]] + bytes.skip(1));
    if samples.len() == 0 {
        assert(more =~= seq![next] + Seq::<u32>::empty());
        lemma_frame_head(w, bytes[0], bytes.skip(1), next, Seq::empty());
        assert(bytes_events(w, bytes.skip(1), Seq::<u32>::empty()) =~= Seq::<Event>::empty());
        assert(clocked(w, bytes.skip(1), Seq::<u32>::empty()) == 0);
        assert(bytes_events(w, bytes, samples) =~= Seq::<Event>::empty());
        assert(bytes_events(w, bytes, more) =~= bytes_events(w, bytes, samples) + sent);
    } else {
        let tail_samples = samples.skip(1);
        assert(acked(w, samples[0]));
        assert(samples =~= seq![samples[0]] + tail_samples);
        assert(more =~= seq![samples[0]] + tail_samples.push(next));
        assert forall|k: int| 0 <= k < tail_samples.len() implies acked(
            w,
            #[trigger] tail_samples[k],
        ) by {
            assert(tail_samples[k] == samples[k + 1]);
        }
        lemma_bytes_events_next(w, bytes.skip(1), tail_samples, next);
        lemma_frame_head(w, bytes[0], bytes.skip(1), samples[0], tail_samples);
        lemma_frame_head(w, bytes[0], bytes.skip(1), samples[0], tail_samples.push(next));
        assert(bytes.skip(1)[tail_samples.len() as int] == bytes[samples.len() as int]);
        assert(bytes_events(w, bytes, more) =~= bytes_events(w, bytes, samples) + sent);
    }
}

/// Sends `data` byte by byte until one is not acknowledged. Returns whether
/// all were acknowledged.
fn write_bytes<R: RegisterAccess>(bus: &mut I2c<R>, data: &[u8]) -> (ok: bool)
    requires
        old(bus).wf(),
    ensures
        is_transfer(old(bus).wiring(), data@, final(bus).heard_since(old(bus))),
        final(bus).after(
            old(bus),
            bytes_events(old(bus).wiring(), data@, final(bus).heard_since(old(bus))),
            final(bus).heard_since(old(bus)),
        ),
        ok == all_acked(old(bus).wiring(), data@, final(bus).heard_since(old(bus))),
{
    let ghost before = *bus;
    let ghost w = bus.wiring();
    let ghost mut samples: Seq<u32> = Seq::empty();
    let mut i: usize = 0;
    while i < data.len()
        invariant
            i <= data.len(),
            bus.wf(),
            bus.wiring() == w,
            before == *old(bus),
            w == before.wiring(),
            samples.len() == i,
            forall|k: int| 0 <= k < samples.len() ==> acked(w, #[trigger] samples[k]),
            bus.trace() == before.trace() + bytes_events(w, data@, samples),
            bus.answers() == before.answers() + samples,
        decreases data.len() - i,
    {
        let ack = write_byte(bus, data[i]);
        proof {
            let sample = bus.answers().last();
            lemma_bytes_events_next(w, data@, samples, sample);
            let more = samples.push(sample);
            assert(bus.answers() =~= before.answers() + more);
            assert(bus.trace() =~= before.trace() + bytes_events(w, data@, more));
            samples = more;
        }
        if !ack {
            proof {
                assert(bus.heard_since(&before) =~= samples);
                assert(!acked(w, samples[i as int]));
            }
            return false;
        }
        i += 1;
    }
    proof {
        assert(bus.heard_since(&before) =~= samples);
        if samples.len() > 0 {
            lemma_bytes_events_next(w, data@, samples.drop_last(), samples.last());
            assert(samples.drop_last().push(samples.last()) =~= samples);
        }
    }
    true
}

/// Writes `data` to the device at the 7-bit address `addr`: start, the
/// address byte with the write bit, the bytes of `data` in order, stop. A byte
/// that is not acknowledged ends the transfer: the stop condition follows at
/// once and the result is `false`. Returns `true` only if every byte was
/// acknowledged.
pub fn write<R: RegisterAccess>(bus: &mut I2c<R>, addr: u8, data: &[u8]) -> (ok: bool)
    requires
        old(bus).wf(),
    ensures
        is_transfer(old(bus).wiring(), write_frame(addr, data@), final(bus).heard_since(old(bus))),
        final(bus).after(
            old(bus),
            transaction_events(
                old(bus).wiring(),
                write_frame(addr, data@),
                final(bus).heard_since(old(bus)),
            ),
            final(bus).heard_since(old(bus)),
        ),
        ok == all_acked(
            old(bus).wiring(),
            write_frame(addr, data@),
            final(bus).heard_since(old(bus)),
        ),
{
    let ghost before = *bus;
    let ghost w = bus.wiring();
    let ghost frame = write_frame(addr, data@);
    let ghost nothing = Seq::<u32>::empty();
    if !start(bus) {
        return false;
    }
    let ghost started = *bus;
    let ack = write_byte(bus, addr << 1);
    let ghost addressed = *bus;
    let ghost first = bus.answers().last();
    let ghost head = write_byte_events(w, write_address(addr), first);
    if !ack {
        stop(bus);
        proof {
            let heard = seq![first] + nothing;
            lemma_frame_head(w, write_address(addr), data@, first, nothing);
            assert(bus.answers() =~= before.answers() + heard);
            assert(bus.heard_since(&before) =~= heard);
            assert(head + Seq::<Event>::empty() =~= head);
            lemma_two_steps(
                before.trace(),
                start_events(w),
                head,
                started.trace(),
                addressed.trace(),
            );
            lemma_two_steps(
                before.trace(),
                start_events(w) + head,
                stop_events(w),
                addressed.trace(),
                bus.trace(),
            );
        }
        return false;
    }
    let ok = write_bytes(bus, data);
    let ghost sent = *bus;
    stop(bus);
    proof {
        let rest = sent.heard_since(&addressed);
        let heard = seq![first] + rest;
        lemma_frame_head(w, write_address(addr), data@, first, rest);
        assert(bus.answers() =~= before.answers() + heard);
        assert(bus.heard_since(&before) =~= heard);
        lemma_two_steps(
            started.trace(),
            head,
            bytes_events(w, data@, rest),
            addressed.trace(),
            sent.trace(),
        );
        lemma_two_steps(
            before.trace(),
            start_events(w),
            bytes_events(w, frame, heard),
            started.trace(),
            sent.trace(),
        );
        lemma_two_steps(
            before.trace(),
            start_events(w) + bytes_events(w, frame, heard),
            stop_events(w),
            sent.trace(),
            bus.trace(),
        );
    }
    ok
}

/// Writes `data` to register `reg` of the device at the 7-bit address `addr`:
/// as [`write`], with the byte `reg` sent right after the address byte.
pub fn write_reg<R: RegisterAccess>(bus: &mut I2c<R>, addr: u8, reg: u8, data: &[u8]) -> (ok: bool)
    requires
        old(bus).wf(),
    ensures
        is_transfer(
            old(bus).wiring(),
            write_reg_frame(addr, reg, data@),
            final(bus).heard_since(old(bus)),
        ),
        final(bus).after(
            old(bus),
            transaction_events(
                old(bus).wiring(),
                write_reg_frame(addr, reg, data@),
                final(bus).heard_since(old(bus)),
            ),
            final(bus).heard_since(old(bus)),
        ),
        ok == all_acked(
            old(bus).wiring(),
            write_reg_frame(addr, reg, data@),
            final(bus).heard_since(old(bus)),
        ),
{
    let ghost before = *bus;
    let ghost w = bus.wiring();
    let ghost frame = write_reg_frame(addr, reg, data@);
    let ghost tail = seq![reg] + data@;
    let ghost nothing = Seq::<u32>::empty();
    proof {
        assert(frame =~= seq![write_address(addr)] + tail);
    }
    if !start(bus) {
        return false;
    }
    let ghost started = *bus;
    let ack = write_byte(bus, addr << 1);
    let ghost addressed = *bus;
    let ghost first = bus.answers().last();
    let ghost head = write_byte_events(w, write_address(addr), first);
    if !ack {
        stop(bus);
        proof {
            let heard = seq![first] + nothing;
            lemma_frame_head(w, write_address(addr), tail, first, nothing);
            assert(bus.answers() =~= before.answers() + heard);
            assert(bus.heard_since(&before) =~= heard);
            assert(head + Seq::<Event>::empty() =~= head);
            lemma_two_steps(
                before.trace(),
                start_events(w),
                head,
                started.trace(),
                addressed.trace(),
            );
            lemma_two_steps(
                before.trace(),
                start_events(w) + head,
                stop_events(w),
                addressed.trace(),
                bus.trace(),
            );
        }
        return false;
    }
    let ack = write_byte(bus, reg);
    let ghost selected = *bus;
    let ghost second = bus.answers().last();
    let ghost selector = write_byte_events(w, reg, second);
    if !ack {
        stop(bus);
        proof {
            let after_first = seq![second] + nothing;
            let heard = seq![first] + after_first;
            lemma_frame_head(w, reg, data@, second, nothing);
            lemma_frame_head(w, write_address(addr), tail, first, after_first);
            assert(bus.answers() =~= before.answers() + heard);
            assert(bus.heard_since(&before) =~= heard);
            assert(selector + Seq::<Event>::empty() =~= selector);
            lemma_two_steps(started.trace(), head, selector, addressed.trace(), selected.trace());
            lemma_two_steps(
                before.trace(),
                start_events(w),
                bytes_events(w, frame, heard),
                started.trace(),
                selected.trace(),
            );
            lemma_two_steps(
                before.trace(),
                start_events(w) + bytes_events(w, frame, heard),
                stop_events(w),
                selected.trace(),
                bus.trace(),
            );
        }
        return false;
    }
    let ok = write_bytes(bus, data);
    let ghost sent = *bus;
    stop(bus);
    proof {
        let rest = sent.heard_since(&selected);
        let after_first = seq![second] + rest;
        let heard = seq![first] + after_first;
        lemma_frame_head(w, reg, data@, second, rest);
        lemma_frame_head(w, write_address(addr), tail, first, after_first);
        assert(bus.answers() =~= before.answers() + heard);
        assert(bus.heard_since(&before) =~= heard);
        lemma_two_steps(
            addressed.trace(),
            selector,
            bytes_events(w, data@, rest),
            selected.trace(),
            sent.trace(),
        );
        lemma_two_steps(
            started.trace(),
            head,
            bytes_events(w, tail, after_first),
            addressed.trace(),
            sent.trace(),
        );
        lemma_two_steps(
            before.trace(),
            start_events(w),
            bytes_events(w, frame, heard),
            started.trace(),
            sent.trace(),
        );
        lemma_two_steps(
            before.trace(),
            start_events(w) + bytes_events(w, frame, heard),
            stop_events(w),
            sent.trace(),
            bus.trace(),
        );
    }
    ok
}

/// Configures the bus master: takes the pins and derives the busy-wait from
/// the frequency, sets both pins up as bus lines, and releases both lines.
pub fn init<R: RegisterAccess>(bus: &mut I2c<R>, config: &I2cConfig)
    requires
        config_ok(*config),
    ensures
        final(bus).wf(),
        final(bus).wiring() == wiring_of(*config),
        final(bus).heard_since(old(bus)).len() == opendrain_reads(config.scl_pin) + opendrain_reads(
            config.sda_pin,
        ),
        final(bus).trace() == old(bus).trace() + init_events(
            *config,
            final(bus).heard_since(old(bus)),
        ),
        final(bus).answers() == old(bus).answers() + final(bus).heard_since(old(bus)),
{
    let ghost before = *bus;
    bus.wiring =
    Wiring {
        scl_pin: config.scl_pin,
        sda_pin: config.sda_pin,
        delay_cycles: (CPU_HZ / config.freq_hz) / 4,
    };

    gpio_set_opendrain(&mut bus.io, config.scl_pin);
    let ghost mid = *bus;
    gpio_set_opendrain(&mut bus.io, config.sda_pin);
    let ghost configured = *bus;

    sda_high(bus);
    scl_high(bus);
    proof {
        let h1 = mid.io.heard_since(&before.io);
        let h2 = configured.io.heard_since(&mid.io);
        let heard = h1 + h2;
        assert(bus.answers() =~= before.answers() + heard);
        assert(bus.heard_since(&before) =~= heard);
        assert(heard.skip(opendrain_reads(config.scl_pin) as int) =~= h2);
        assert(opendrain_events(config.scl_pin, heard) =~= opendrain_events(config.scl_pin, h1));
        assert(bus.trace() =~= before.trace() + init_events(*config, heard));
    }
}

} // verus!
