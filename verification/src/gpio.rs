//! General-purpose pins: the register map, and direct control of single pins.

use vstd::prelude::*;
use crate::trace::{Event, RegisterAccess, Traced};

verus! {

/// Base address of the GPIO register block.
pub const GPIO_BASE: u32 = 0x6000_4000;

/// Base address of the pin multiplexer block.
pub const IO_MUX_BASE: u32 = 0x6000_9000;

/// Output latch of all pins.
pub const GPIO_OUT_REG: u32 = GPIO_BASE + 0x0004;

/// Writing a 1 bit drives the matching pin high.
pub const GPIO_OUT_W1TS_REG: u32 = GPIO_BASE + 0x0008;

/// Writing a 1 bit drives the matching pin low.
pub const GPIO_OUT_W1TC_REG: u32 = GPIO_BASE + 0x000C;

/// Output enable of all pins.
pub const GPIO_ENABLE_REG: u32 = GPIO_BASE + 0x0020;

/// Input level of all pins.
pub const GPIO_IN_REG: u32 = GPIO_BASE + 0x003C;

/// Pull-up enable bit of a multiplexer register.
pub const FUN_WPU: u32 = 1 << 7;

/// Pull-down enable bit of a multiplexer register.
pub const FUN_WPD: u32 = 1 << 8;

/// Input enable bit of a multiplexer register.
pub const FUN_IE: u32 = 1 << 9;

/// Position of the two-bit drive strength field of a multiplexer register.
pub const FUN_DRV_SHIFT: u32 = 10;

/// Position of the three-bit function field of a multiplexer register.
pub const MCU_SEL_SHIFT: u32 = 12;

/// The highest pin number that the chip has.
pub const GPIO_MAX: i32 = 21;

/// Whether `gpio_num` names a pin of the chip.
pub open spec fn is_gpio(gpio_num: i32) -> bool {
    0 <= gpio_num <= GPIO_MAX
}

/// The word with only the bit of pin `pin` set.
pub open spec fn pin_mask(pin: i32) -> u32 {
    1u32 << pin
}

/// Address of the multiplexer register of pin `n`.
pub open spec fn mux_reg(n: i32) -> u32 {
    (IO_MUX_BASE + 0x0004 + n * 4) as u32
}

/// A multiplexer word changed to select the GPIO function at medium drive
/// strength; every other bit is kept.
pub open spec fn output_mux(v: u32) -> u32 {
    let function = (v & !(0x7u32 << MCU_SEL_SHIFT)) | (1u32 << MCU_SEL_SHIFT);
    (function & !(0x3u32 << FUN_DRV_SHIFT)) | (2u32 << FUN_DRV_SHIFT)
}

/// What setting `bit` in the register at `addr` does, when the register reads
/// as `was`.
pub open spec fn set_bit_events(addr: u32, bit: u32, was: u32) -> Seq<Event> {
    seq![Event::Read { addr, val: was }, Event::Write { addr, val: was | bit }]
}

/// What [`set_output`] does for pin `gpio_num` when the hardware answers
/// `heard`: nothing for a pin that does not exist, else the multiplexer word is
/// read and rewritten and the pin's output is enabled.
pub open spec fn set_output_events(gpio_num: i32, heard: Seq<u32>) -> Seq<Event> {
    if is_gpio(gpio_num) {
        seq![
            Event::Read { addr: mux_reg(gpio_num), val: heard[0] },
            Event::Write { addr: mux_reg(gpio_num), val: output_mux(heard[0]) },
        ] + set_bit_events(GPIO_ENABLE_REG, pin_mask(gpio_num), heard[1])
    } else {
        Seq::empty()
    }
}

/// What [`toggle`] does for pin `gpio_num` when the output latch reads as
/// `latch`.
pub open spec fn toggle_events(gpio_num: i32, latch: u32) -> Seq<Event> {
    seq![
        Event::Read { addr: GPIO_OUT_REG, val: latch },
        Event::Write {
            addr: if latch & pin_mask(gpio_num) != 0 {
                GPIO_OUT_W1TC_REG
            } else {
                GPIO_OUT_W1TS_REG
            },
            val: pin_mask(gpio_num),
        },
    ]
}

/// The function field of a multiplexer word.
pub open spec fn mux_function(v: u32) -> u32 {
    (v >> MCU_SEL_SHIFT) & 0x7
}

/// The drive strength field of a multiplexer word.
pub open spec fn mux_drive(v: u32) -> u32 {
    (v >> FUN_DRV_SHIFT) & 0x3
}

/// The bits of a multiplexer word outside the function and drive strength
/// fields and the input and pull enables.
pub open spec fn mux_rest(v: u32) -> u32 {
    v & !((0x7u32 << MCU_SEL_SHIFT) | (0x3u32 << FUN_DRV_SHIFT) | FUN_IE | FUN_WPU | FUN_WPD)
}

/// A multiplexer word set up for output selects function 1, the GPIO, at
/// drive strength 2, and is otherwise what it was.
pub proof fn law_output_mux(v: u32)
    ensures
        mux_function(output_mux(v)) == 1,
        mux_drive(output_mux(v)) == 2,
        output_mux(v) & FUN_IE == v & FUN_IE,
        output_mux(v) & FUN_WPU == v & FUN_WPU,
        output_mux(v) & FUN_WPD == v & FUN_WPD,
        mux_rest(output_mux(v)) == mux_rest(v),
{
    assert(mux_function(output_mux(v)) == 1) by (bit_vector);
    assert(mux_drive(output_mux(v)) == 2) by (bit_vector);
    assert(output_mux(v) & FUN_IE == v & FUN_IE) by (bit_vector);
    assert(output_mux(v) & FUN_WPU == v & FUN_WPU) by (bit_vector);
    assert(output_mux(v) & FUN_WPD == v & FUN_WPD) by (bit_vector);
    assert(mux_rest(output_mux(v)) == mux_rest(v)) by (bit_vector);
}

/// Address of the multiplexer register of pin `n`.
pub(crate) fn gpio_pin_mux_reg(n: u32) -> (addr: u32)
    requires
        n <= GPIO_MAX,
    ensures
        addr == mux_reg(n as i32),
{
    IO_MUX_BASE + 0x0004 + (n * 4)
}

/// Sets the bits of `bit` in the register at `addr`, keeping the others.
pub(crate) fn reg_set_bit<R: RegisterAccess>(io: &mut Traced<R>, addr: u32, bit: u32)
    ensures
        final(io).answers().len() == old(io).answers().len() + 1,
        final(io).after(
            old(io),
            set_bit_events(addr, bit, final(io).answers().last()),
            seq![final(io).answers().last()],
        ),
{
    let was = io.read(addr);
    io.write(addr, was | bit);
    proof {
        assert(io.answers() =~= old(io).answers() + seq![was]);
        assert(io.trace() =~= old(io).trace() + set_bit_events(addr, bit, was));
    }
}

/// Makes pin `gpio_num` a GPIO output at medium drive strength. A number that
/// names no pin is ignored.
pub fn set_output<R: RegisterAccess>(io: &mut Traced<R>, gpio_num: i32)
    ensures
        final(io).heard_since(old(io)).len() == (if is_gpio(gpio_num) { 2nat } else { 0nat }),
        final(io).after(
            old(io),
            set_output_events(gpio_num, final(io).heard_since(old(io))),
            final(io).heard_since(old(io)),
        ),
{
    if gpio_num < 0 || gpio_num > GPIO_MAX {
        proof {
            assert(io.heard_since(old(io)) =~= Seq::empty());
        }
        return ;
    }
    let n = gpio_num as u32;
    let mux_reg = gpio_pin_mux_reg(n);
    let mut mux_val = io.read(mux_reg);
    let ghost mux_val_read = mux_val;

    mux_val &= !(0x7 << MCU_SEL_SHIFT);
    mux_val |= 1 << MCU_SEL_SHIFT;

    mux_val &= !(0x3 << FUN_DRV_SHIFT);
    mux_val |= 2 << FUN_DRV_SHIFT;

    io.write(mux_reg, mux_val);

    reg_set_bit(io, GPIO_ENABLE_REG, 1 << n);
    proof {
        let heard = seq![mux_val_read, io.answers().last()];
        assert(io.answers() =~= old(io).answers() + heard);
        assert(io.heard_since(old(io)) =~= heard);
        assert(io.trace() =~= old(io).trace() + set_output_events(gpio_num, heard));
    }
}

/// Drives pin `gpio_num` high. A number that names no pin is ignored.
pub fn set_high<R: RegisterAccess>(io: &mut Traced<R>, gpio_num: i32)
    ensures
        final(io).after(
            old(io),
            if is_gpio(gpio_num) {
                seq![Event::Write { addr: GPIO_OUT_W1TS_REG, val: pin_mask(gpio_num) }]
            } else {
                Seq::empty()
            },
            Seq::empty(),
        ),
{
    if gpio_num < 0 || gpio_num > GPIO_MAX {
        return ;
    }
    io.write(GPIO_OUT_W1TS_REG, 1 << gpio_num);
}

/// Drives pin `gpio_num` low. A number that names no pin is ignored.
pub fn set_low<R: RegisterAccess>(io: &mut Traced<R>, gpio_num: i32)
    ensures
        final(io).after(
            old(io),
            if is_gpio(gpio_num) {
                seq![Event::Write { addr: GPIO_OUT_W1TC_REG, val: pin_mask(gpio_num) }]
            } else {
                Seq::empty()
            },
            Seq::empty(),
        ),
{
    if gpio_num < 0 || gpio_num > GPIO_MAX {
        return ;
    }
    io.write(GPIO_OUT_W1TC_REG, 1 << gpio_num);
}

/// Inverts the output of pin `gpio_num`, going by the output latch. A number
/// that names no pin is ignored.
pub fn toggle<R: RegisterAccess>(io: &mut Traced<R>, gpio_num: i32)
    ensures
        !is_gpio(gpio_num) ==> final(io).after(old(io), Seq::empty(), Seq::empty()),
        is_gpio(gpio_num) ==> final(io).answers().len() == old(io).answers().len() + 1
            && final(io).after(
            old(io),
            toggle_events(gpio_num, final(io).answers().last()),
            seq![final(io).answers().last()],
        ),
{
    if gpio_num < 0 || gpio_num > GPIO_MAX {
        return ;
    }
    let current = io.read(GPIO_OUT_REG);
    if (current & (1 << gpio_num)) != 0 {
        set_low(io, gpio_num);
    } else {
        set_high(io, gpio_num);
    }
    proof {
        assert(io.answers() =~= old(io).answers() + seq![current]);
        assert(io.trace() =~= old(io).trace() + toggle_events(gpio_num, current));
    }
}

} // verus!
