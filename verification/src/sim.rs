//! A register file in memory, to run the drivers without hardware.

use vstd::prelude::*;
use crate::trace::{Event, RegisterAccess};

verus! {

/// A simulated register file: it keeps every access in a log, and answers
/// reads from a script.
pub struct SimRegisters {
    script: Vec<u32>,
    next: usize,
    fallback: u32,
    log: Vec<Event>,
}

impl SimRegisters {
    /// Every access made so far, oldest first.
    pub closed spec fn accesses(&self) -> Seq<Event> {
        self.log@
    }

    /// The answers that are still to be given, in order; when they are used
    /// up, every read is answered by [`SimRegisters::fallback`].
    pub closed spec fn script(&self) -> Seq<u32> {
        self.script@.skip(self.next as int)
    }

    /// The answer to every read after the script is used up.
    pub closed spec fn fallback(&self) -> u32 {
        self.fallback
    }

    /// Whether the position in the script is within it.
    pub closed spec fn wf(&self) -> bool {
        self.next <= self.script@.len()
    }

    /// A register file that answers the next reads by `script`, in order, and
    /// every read after them by `fallback`.
    pub fn new(script: Vec<u32>, fallback: u32) -> (sim: Self)
        ensures
            sim.wf(),
            sim.accesses() == Seq::<Event>::empty(),
            sim.script() == script@,
            sim.fallback() == fallback,
    {
        let sim = SimRegisters { script, next: 0, fallback, log: Vec::new() };
        proof {
            assert(sim.script() =~= script@);
        }
        sim
    }

    /// The log of accesses.
    pub fn log(&self) -> (log: &Vec<Event>)
        ensures
            log@ == self.accesses(),
    {
        &self.log
    }

    /// How many answers of the script are still to be given.
    pub fn unread(&self) -> (n: usize)
        requires
            self.wf(),
        ensures
            n == self.script().len(),
    {
        self.script.len() - self.next
    }
}

impl RegisterAccess for SimRegisters {
    fn read(&mut self, addr: u32) -> (val: u32)
        ensures
            old(self).wf() ==> final(self).wf(),
            final(self).fallback() == old(self).fallback(),
            final(self).accesses() == old(self).accesses().push(Event::Read { addr, val }),
            old(self).wf() && old(self).script().len() > 0 ==> val == old(self).script()[0]
                && final(self).script() == old(self).script().skip(1),
            old(self).wf() && old(self).script().len() == 0 ==> val == old(self).fallback()
                && final(self).script() == old(self).script(),
    {
        let val = if self.next < self.script.len() {
            let val = self.script[self.next];
            self.next += 1;
            val
        } else {
            self.fallback
        };
        self.log.push(Event::Read { addr, val });
        proof {
            if old(self).wf() && old(self).script().len() > 0 {
                assert(self.script() =~= old(self).script().skip(1));
            }
        }
        val
    }

    fn write(&mut self, addr: u32, val: u32)
        ensures
            final(self).wf() == old(self).wf(),
            final(self).fallback() == old(self).fallback(),
            final(self).script() == old(self).script(),
            final(self).accesses() == old(self).accesses().push(Event::Write { addr, val }),
    {
        self.log.push(Event::Write { addr, val });
    }
}

} // verus!
