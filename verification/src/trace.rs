//! Register access and busy-waiting, with a ghost record of both.

use vstd::prelude::*;

verus! {

/// One interaction with the hardware.
#[derive(Clone, Copy, Debug, PartialEq, Eq)]
pub enum Event {
    /// A 32-bit word was written to a register.
    Write { addr: u32, val: u32 },
    /// A register was read and the hardware answered `val`.
    Read { addr: u32, val: u32 },
    /// The processor spun for `cycles` iterations.
    Delay { cycles: u32 },
}

/// Raw access to memory-mapped 32-bit registers.
///
/// Nothing is assumed of an implementation: a read may answer anything, and
/// the library's contracts hold whatever it answers.
pub trait RegisterAccess {
    /// Reads the word at `addr`.
    fn read(&mut self, addr: u32) -> u32;

    /// Writes `val` to the word at `addr`.
    fn write(&mut self, addr: u32, val: u32);
}

/// `core::hint::spin_loop`, the standard library's hint to the processor that
/// the program is busy-waiting. Nothing is claimed of it but that it can be
/// called and returns.
pub assume_specification[ core::hint::spin_loop ]();

/// The answers that the hardware gave to the reads among `events`, in order.
pub open spec fn answers_of(events: Seq<Event>) -> Seq<u32>
    decreases events.len(),
{
    if events.len() == 0 {
        Seq::empty()
    } else {
        let before = answers_of(events.drop_last());
        match events.last() {
            Event::Read { addr, val } => before.push(val),
            _ => before,
        }
    }
}

/// Recording one more event adds its answer, if it has one, to the answers.
proof fn lemma_answers_push(events: Seq<Event>, e: Event)
    ensures
        answers_of(events.push(e)) == match e {
            Event::Read { addr, val } => answers_of(events).push(val),
            _ => answers_of(events),
        },
        events.push(e) == events + seq![e],
{
    assert(events.push(e).drop_last() =~= events);
    assert(events.push(e) =~= events + seq![e]);
}

/// Adding `a` and then `b` to a sequence adds `a + b` to it.
pub proof fn lemma_two_steps<A>(start: Seq<A>, a: Seq<A>, b: Seq<A>, mid: Seq<A>, end: Seq<A>)
    requires
        mid == start + a,
        end == mid + b,
    ensures
        end == start + (a + b),
{
    assert(end =~= start + (a + b));
}

/// A register interface together with the record of everything that was asked
/// of it.
///
/// The record is ghost state: it costs nothing at run time. The fields are
/// private, so the record can only grow, and only through [`Traced::read`],
/// [`Traced::write`] and [`Traced::delay`], each of which makes the access
/// that it records. What a read answers is up to the hardware; the record
/// keeps the answer, and the contracts of the drivers say what they do for
/// every answer.
pub struct Traced<R: RegisterAccess> {
    regs: R,
    log: Ghost<Seq<Event>>,
}

impl<R: RegisterAccess> Traced<R> {
    /// Every access and wait made so far, oldest first.
    pub closed spec fn trace(&self) -> Seq<Event> {
        self.log@
    }

    /// The register interface underneath.
    pub closed spec fn regs(&self) -> R {
        self.regs
    }

    /// Every value read so far, oldest first.
    pub open spec fn answers(&self) -> Seq<u32> {
        answers_of(self.trace())
    }

    /// `self` is `before` after `events` were added to the record, the
    /// hardware having answered `heard` to the reads among them.
    pub open spec fn after(&self, before: &Self, events: Seq<Event>, heard: Seq<u32>) -> bool {
        &&& self.trace() == before.trace() + events
        &&& self.answers() == before.answers() + heard
    }

    /// The answers received since the state `before`.
    pub open spec fn heard_since(&self, before: &Self) -> Seq<u32> {
        self.answers().skip(before.answers().len() as int)
    }

    /// Wraps a register interface; nothing has been recorded yet.
    pub fn new(regs: R) -> (io: Self)
        ensures
            io.trace() == Seq::<Event>::empty(),
            io.answers() == Seq::<u32>::empty(),
    {
        Traced { regs, log: Ghost(Seq::empty()) }
    }

    /// Reads the register at `addr`.
    pub fn read(&mut self, addr: u32) -> (val: u32)
        ensures
            final(self).after(old(self), seq![Event::Read { addr, val }], seq![val]),
    {
        let val = self.regs.read(addr);
        proof {
            self.log@ = self.log@.push(Event::Read { addr, val });
            lemma_answers_push(old(self).trace(), Event::Read { addr, val });
            assert(old(self).answers().push(val) =~= old(self).answers() + seq![val]);
        }
        val
    }

    /// Writes `val` to the register at `addr`.
    pub fn write(&mut self, addr: u32, val: u32)
        ensures
            final(self).after(old(self), seq![Event::Write { addr, val }], Seq::empty()),
    {
        self.regs.write(addr, val);
        proof {
            self.log@ = self.log@.push(Event::Write { addr, val });
            lemma_answers_push(old(self).trace(), Event::Write { addr, val });
        }
    }

    /// Busy-waits for `cycles` iterations of a spin loop.
    pub fn delay(&mut self, cycles: u32)
        ensures
            final(self).after(old(self), seq![Event::Delay { cycles }], Seq::empty()),
    {
        let mut i: u32 = 0;
        while i < cycles
            invariant
                i <= cycles,
            decreases cycles - i,
        {
            core::hint::spin_loop();
            i += 1;
        }
        proof {
            self.log@ = self.log@.push(Event::Delay { cycles });
            lemma_answers_push(old(self).trace(), Event::Delay { cycles });
        }
    }

    /// The register interface underneath, for reading.
    pub fn registers(&self) -> (regs: &R)
        ensures
            *regs == self.regs(),
    {
        &self.regs
    }

    /// Gives the register interface back; the record ends here.
    pub fn into_registers(self) -> (regs: R)
        ensures
            regs == self.regs(),
    {
        self.regs
    }
}

} // verus!
