//! Drivers for a small bare-metal system on an ESP32-C3: a software-timed
//! two-wire bus master, an SSD1306 display on that bus, the USB serial console
//! and a command shell on top of the three.
//!
//! Everything that touches hardware goes through a [`trace::Traced`], which
//! wraps a two-operation register interface and keeps a ghost record of each
//! register access and each busy-wait. The contracts say exactly which
//! accesses an operation makes, in which order, and how what it does and
//! returns depends on what the hardware answered. [`waveform`] reads such a
//! record as levels on the two bus lines.

pub mod console;
pub mod cstr;
pub mod gpio;
pub mod i2c;
pub mod shell;
pub mod sim;
pub mod ssd1306;
pub mod trace;
pub mod waveform;
