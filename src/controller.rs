use vstd::prelude::*;
use crate::pin::{failure, pulse, pulsed, GpioOut, GpioValue, PinWrite};
use crate::protocol::{
    bit_level, commit_ops, entries, init_ops, lemma_entries_push, lemma_commit_last, lemma_prefix_before_commit,
    lemma_transfer_complete, lemma_update_layout, op, pulses, step_ops, transfer_len, update_ops,
    Line, PinOp, BITS_PER_CHANNEL, CHANNELS, GRAYSCALE_STEPS,
};

verus! {

/// Drives `pin` to `level`.
fn drive<P: GpioOut>(pin: &mut P, level: GpioValue) -> (r: Result<(), P::Error>)
    ensures
        final(pin).log() == old(pin).log().push((level, failure(r))),
{
    match level {
        GpioValue::High => pin.set_high(),
        GpioValue::Low => pin.set_low(),
    }
}

/// Drives a 16-channel grayscale LED sink over five bit-banged lines.
pub struct TlcController<Pin> {
    sin: Pin,
    sclk: Pin,
    blank: Pin,
    xlat: Pin,
    gsclk: Pin,
    values: [u16; 16],
}

impl<Pin, Error> TlcController<Pin> where Pin: GpioOut<Error = Error> {
    /// The channel buffer.
    pub closed spec fn channels(&self) -> Seq<u16> {
        self.values@
    }

    /// The log of the pin wired to `line`.
    pub closed spec fn line_log(&self, line: Line) -> Seq<PinWrite<Error>> {
        match line {
            Line::Data => self.sin.log(),
            Line::Clock => self.sclk.log(),
            Line::Blank => self.blank.log(),
            Line::Latch => self.xlat.log(),
            Line::GrayscaleClock => self.gsclk.log(),
        }
    }

    /// Every pin of `after` has the log of the same pin of `before`, extended
    /// by the writes `ops` to it, all of which succeeded.
    pub open spec fn ran_ok(before: Self, after: Self, ops: Seq<PinOp>) -> bool {
        forall|l: Line| #[trigger]
            after.line_log(l) == before.line_log(l) + entries::<Error>(ops, l)
    }

    /// Every pin of `after` has the log of the same pin of `before`, extended
    /// by the writes `ops` to it, where all but the last succeeded and the last
    /// had outcome `r`.
    pub open spec fn ran(before: Self, after: Self, ops: Seq<PinOp>, r: Result<(), Error>) -> bool {
        &&& ops.len() > 0
        &&& forall|l: Line| #[trigger]
            after.line_log(l) == {
                let prior = before.line_log(l) + entries::<Error>(ops.drop_last(), l);
                if ops.last().line == l {
                    prior.push((ops.last().level, failure(r)))
                } else {
                    prior
                }
            }
    }

    /// Some prefix of `plan` was written, in order, every write but the last
    /// succeeding and the last with outcome `r`; the whole of `plan` was
    /// written when `r` is `Ok`.
    pub open spec fn performed(
        before: Self,
        after: Self,
        plan: Seq<PinOp>,
        r: Result<(), Error>,
    ) -> bool {
        exists|k: int|
            0 < k <= plan.len() && #[trigger] Self::ran(before, after, plan.take(k), r) && (r is Ok
                ==> k == plan.len())
    }

    /// When an update succeeds, the log of each pin grew by exactly the
    /// writes of `update_ops` to its line, every one succeeding.
    pub proof fn lemma_update_ok(before: Self, after: Self, r: Result<(), Error>)
        requires
            Self::performed(before, after, update_ops(before.channels()), r),
            r is Ok,
        ensures
            Self::ran_ok(before, after, update_ops(before.channels())),
    {
        let plan = update_ops(before.channels());
        let k = choose|k: int|
            0 < k <= plan.len() && #[trigger] Self::ran(before, after, plan.take(k), r) && (r is Ok
                ==> k == plan.len());
        assert(plan.take(k) =~= plan);
        assert forall|l: Line| #[trigger]
            after.line_log(l) == before.line_log(l) + entries::<Error>(plan, l) by {
            if plan.last().line == l {
                assert(before.line_log(l) + entries::<Error>(plan, l) =~= (before.line_log(l)
                    + entries::<Error>(plan.drop_last(), l)).push((plan.last().level, None)));
            }
        }
    }

    /// When an update fails before the grayscale clock has had its 4096
    /// pulses, the commit was not started: the latch was never written and
    /// blank was written at most once (the low write that opens an update).
    pub proof fn lemma_update_failure(before: Self, after: Self, r: Result<(), Error>)
        requires
            Self::performed(before, after, update_ops(before.channels()), r),
            r is Err,
        ensures
            after.line_log(Line::GrayscaleClock) == before.line_log(Line::GrayscaleClock)
                + pulses::<Error>(4096) || (after.line_log(Line::Latch) == before.line_log(Line::Latch)
                && after.line_log(Line::Blank).len() <= before.line_log(Line::Blank).len() + 1),
    {
        let plan = update_ops(before.channels());
        let k = choose|k: int|
            0 < k <= plan.len() && #[trigger] Self::ran(before, after, plan.take(k), r) && (r is Ok
                ==> k == plan.len());
        lemma_commit_last(before.channels());
        let ops = plan.take(k);
        assert(ops.drop_last() =~= plan.take(k - 1));
        assert(ops.last() == plan[k - 1]);
        if k <= plan.len() - 3 {
            lemma_prefix_before_commit::<Error>(before.channels(), k - 1);
            assert(after.line_log(Line::Latch) =~= before.line_log(Line::Latch));
        } else {
            lemma_transfer_complete::<Error>(before.channels(), k - 1);
        }
    }

    /// Assembles a controller, first driving data, clock, latch and grayscale
    /// clock low, in that order, and then blank high (the writes of `init_ops`).
    /// The first failing write is returned and no later write is made, so blank
    /// is written only once the four low writes have succeeded. All channels
    /// start at zero.
    pub fn new(sin: Pin, sclk: Pin, blank: Pin, xlat: Pin, gsclk: Pin) -> (r: Result<Self, Error>)
        ensures
            r matches Ok(c) ==> {
                &&& c.channels() == Seq::new(16, |i: int| 0u16)
                &&& c.line_log(Line::Data) == sin.log().push((GpioValue::Low, None))
                &&& c.line_log(Line::Clock) == sclk.log().push((GpioValue::Low, None))
                &&& c.line_log(Line::Latch) == xlat.log().push((GpioValue::Low, None))
                &&& c.line_log(Line::GrayscaleClock) == gsclk.log().push((GpioValue::Low, None))
                &&& c.line_log(Line::Blank) == blank.log().push((GpioValue::High, None))
            },
    {
        let mut c = TlcController { sin, sclk, blank, xlat, gsclk, values: [0u16; 16] };
        let ghost start = c;
        let r = c.init();
        match r {
            Ok(()) => {
                proof {
                    Self::lemma_init_ok(start, c, r);
                }
                assert(c.channels() =~= Seq::new(16, |i: int| 0u16));
                Ok(c)
            },
            Err(e) => Err(e),
        }
    }

    proof fn lemma_init_ok(before: Self, after: Self, r: Result<(), Error>)
        requires
            Self::performed(before, after, init_ops(), r),
            r is Ok,
        ensures
            after.line_log(Line::Data) == before.line_log(Line::Data).push((GpioValue::Low, None)),
            after.line_log(Line::Clock) == before.line_log(Line::Clock).push((GpioValue::Low, None)),
            after.line_log(Line::Latch) == before.line_log(Line::Latch).push((GpioValue::Low, None)),
            after.line_log(Line::GrayscaleClock) == before.line_log(Line::GrayscaleClock).push(
                (GpioValue::Low, None),
            ),
            after.line_log(Line::Blank) == before.line_log(Line::Blank).push((GpioValue::High, None)),
    {
        let plan = init_ops();
        let k = choose|k: int|
            0 < k <= plan.len() && #[trigger] Self::ran(before, after, plan.take(k), r) && (r is Ok
                ==> k == plan.len());
        let e = Seq::<PinOp>::empty();
        assert(plan.take(k).drop_last() =~= e.push(plan[0]).push(plan[1]).push(plan[2]).push(
            plan[3],
        ));
        assert forall|l: Line| #[trigger] entries::<Error>(e, l) == Seq::<PinWrite<Error>>::empty() by {}
        assert forall|l: Line| #[trigger]
            entries::<Error>(plan.take(k).drop_last(), l) == (if l == Line::Blank {
                Seq::<PinWrite<Error>>::empty()
            } else {
                seq![(GpioValue::Low, None::<Error>)]
            }) by {
            lemma_entries_push::<Error>(e, plan[0], l);
            lemma_entries_push::<Error>(e.push(plan[0]), plan[1], l);
            lemma_entries_push::<Error>(e.push(plan[0]).push(plan[1]), plan[2], l);
            lemma_entries_push::<Error>(e.push(plan[0]).push(plan[1]).push(plan[2]), plan[3], l);
            assert(entries::<Error>(plan.take(k).drop_last(), l) =~= (if l == Line::Blank {
                Seq::<PinWrite<Error>>::empty()
            } else {
                seq![(GpioValue::Low, None::<Error>)]
            }));
        }
        assert(after.line_log(Line::Data) =~= before.line_log(Line::Data).push((GpioValue::Low, None)));
        assert(after.line_log(Line::Clock) =~= before.line_log(Line::Clock).push((GpioValue::Low, None)));
        assert(after.line_log(Line::Latch) =~= before.line_log(Line::Latch).push((GpioValue::Low, None)));
        assert(after.line_log(Line::GrayscaleClock) =~= before.line_log(Line::GrayscaleClock).push(
            (GpioValue::Low, None),
        ));
        assert(after.line_log(Line::Blank) =~= before.line_log(Line::Blank).push(
            (GpioValue::High, None),
        ));
    }

    /// Brings the lines to their safe state: the writes of `init_ops`, in order,
    /// stopping at the first failure, whose error is returned.
    fn init(&mut self) -> (r: Result<(), Error>)
        ensures
            final(self).values == old(self).values,
            Self::performed(*old(self), *final(self), init_ops(), r),
    {
        let ghost start = *self;
        let ghost plan = init_ops();
        proof {
            assert forall|l: Line| #[trigger]
                start.line_log(l) == start.line_log(l) + entries::<Error>(plan.take(0), l) by {
                assert(start.line_log(l) =~= start.line_log(l) + entries::<Error>(plan.take(0), l));
            }
        }
        let r = self.perform(Line::Data, GpioValue::Low, Ghost(start), Ghost(plan), Ghost(0));
        if r.is_err() {
            return r;
        }
        let r = self.perform(Line::Clock, GpioValue::Low, Ghost(start), Ghost(plan), Ghost(1));
        if r.is_err() {
            return r;
        }
        let r = self.perform(Line::Latch, GpioValue::Low, Ghost(start), Ghost(plan), Ghost(2));
        if r.is_err() {
            return r;
        }
        let r = self.perform(
            Line::GrayscaleClock,
            GpioValue::Low,
            Ghost(start),
            Ghost(plan),
            Ghost(3),
        );
        if r.is_err() {
            return r;
        }
        self.perform(Line::Blank, GpioValue::High, Ghost(start), Ghost(plan), Ghost(4))
    }

    /// Overwrites the value of one channel.
    pub fn set_channel(&mut self, channel: usize, color: u16)
        requires
            channel < 16,
        ensures
            final(self).channels() == old(self).channels().update(channel as int, color),
            forall|l: Line| #[trigger] final(self).line_log(l) == old(self).line_log(l),
    {
        self.values[channel] = color;
    }

    /// Overwrites every channel with `value`.
    pub fn set_all(&mut self, value: u16)
        ensures
            final(self).channels() == Seq::new(16, |i: int| value),
            forall|l: Line| #[trigger] final(self).line_log(l) == old(self).line_log(l),
    {
        let mut i: usize = 0;
        while i < CHANNELS
            invariant
                0 <= i <= 16,
                forall|j: int| 0 <= j < i ==> self.values[j] == value,
                self.sin == old(self).sin,
                self.sclk == old(self).sclk,
                self.blank == old(self).blank,
                self.xlat == old(self).xlat,
                self.gsclk == old(self).gsclk,
            decreases 16 - i,
        {
            self.values[i] = value;
            i = i + 1;
        }
        assert(self.channels() =~= Seq::new(16, |i: int| value));
    }

    /// Sets every channel to zero.
    pub fn clear(&mut self)
        ensures
            final(self).channels() == Seq::new(16, |i: int| 0u16),
            forall|l: Line| #[trigger] final(self).line_log(l) == old(self).line_log(l),
    {
        self.set_all(0);
    }

    proof fn lemma_extend(
        start: Self,
        mid: Self,
        after: Self,
        plan: Seq<PinOp>,
        n: int,
        r: Result<(), Error>,
    )
        requires
            0 <= n < plan.len(),
            Self::ran_ok(start, mid, plan.take(n)),
            forall|l: Line| #[trigger]
                after.line_log(l) == if l == plan[n].line {
                    mid.line_log(l).push((plan[n].level, failure(r)))
                } else {
                    mid.line_log(l)
                },
        ensures
            Self::ran(start, after, plan.take(n + 1), r),
            r is Ok ==> Self::ran_ok(start, after, plan.take(n + 1)),
    {
        let ops = plan.take(n + 1);
        assert(ops.drop_last() =~= plan.take(n));
        if r is Ok {
            assert forall|l: Line| #[trigger]
                after.line_log(l) == start.line_log(l) + entries::<Error>(ops, l) by {
                if l == plan[n].line {
                    assert(start.line_log(l) + entries::<Error>(ops, l) =~= (start.line_log(l)
                        + entries::<Error>(plan.take(n), l)).push((plan[n].level, None)));
                }
            }
        }
        assert forall|l: Line| #[trigger] after.line_log(l) == {
                let prior = start.line_log(l) + entries::<Error>(ops.drop_last(), l);
                if ops.last().line == l {
                    prior.push((ops.last().level, failure(r)))
                } else {
                    prior
                }
            } by {}
    }

    proof fn lemma_extend_pulse(
        start: Self,
        mid: Self,
        after: Self,
        plan: Seq<PinOp>,
        n: int,
        r: Result<(), Error>,
    )
        requires
            0 <= n,
            n + 1 < plan.len(),
            plan[n].line == plan[n + 1].line,
            Self::ran_ok(start, mid, plan.take(n)),
            forall|l: Line| #[trigger]
                after.line_log(l) == if l == plan[n].line {
                    mid.line_log(l).push((plan[n].level, None)).push((plan[n + 1].level, failure(r)))
                } else {
                    mid.line_log(l)
                },
        ensures
            Self::ran(start, after, plan.take(n + 2), r),
            r is Ok ==> Self::ran_ok(start, after, plan.take(n + 2)),
    {
        let ops = plan.take(n + 2);
        assert(ops.drop_last() =~= plan.take(n + 1));
        assert(plan.take(n + 1).drop_last() =~= plan.take(n));
        assert forall|l: Line| #[trigger] after.line_log(l) == {
                let prior = start.line_log(l) + entries::<Error>(ops.drop_last(), l);
                if ops.last().line == l {
                    prior.push((ops.last().level, failure(r)))
                } else {
                    prior
                }
            } by {
            if l == plan[n].line {
                assert(start.line_log(l) + entries::<Error>(plan.take(n + 1), l) =~= (start.line_log(
                    l,
                ) + entries::<Error>(plan.take(n), l)).push((plan[n].level, None)));
            }
        }
        if r is Ok {
            assert forall|l: Line| #[trigger]
                after.line_log(l) == start.line_log(l) + entries::<Error>(ops, l) by {
                if l == plan[n].line {
                    assert(start.line_log(l) + entries::<Error>(plan.take(n + 1), l) =~= (
                    start.line_log(l) + entries::<Error>(plan.take(n), l)).push((plan[n].level, None)));
                    assert(start.line_log(l) + entries::<Error>(ops, l) =~= (start.line_log(l)
                        + entries::<Error>(plan.take(n + 1), l)).push((plan[n + 1].level, None)));
                }
            }
        }
    }

    /// Writes `level` to `line`, the write at position `n` of `plan`.
    fn perform(
        &mut self,
        line: Line,
        level: GpioValue,
        Ghost(start): Ghost<Self>,
        Ghost(plan): Ghost<Seq<PinOp>>,
        Ghost(n): Ghost<int>,
    ) -> (r: Result<(), Error>)
        requires
            0 <= n < plan.len(),
            plan[n] == op(line, level),
            Self::ran_ok(start, *old(self), plan.take(n)),
        ensures
            final(self).values == old(self).values,
            Self::ran(start, *final(self), plan.take(n + 1), r),
            r is Ok ==> Self::ran_ok(start, *final(self), plan.take(n + 1)),
    {
        let ghost mid = *self;
        let r = match line {
            Line::Data => drive(&mut self.sin, level),
            Line::Clock => drive(&mut self.sclk, level),
            Line::Blank => drive(&mut self.blank, level),
            Line::Latch => drive(&mut self.xlat, level),
            Line::GrayscaleClock => drive(&mut self.gsclk, level),
        };
        proof {
            Self::lemma_extend(start, mid, *self, plan, n, r);
        }
        r
    }

    /// Pulses `line`, the writes at positions `n` and `n + 1` of `plan`.
    fn pulse_line(
        &mut self,
        line: Line,
        Ghost(start): Ghost<Self>,
        Ghost(plan): Ghost<Seq<PinOp>>,
        Ghost(n): Ghost<int>,
    ) -> (r: Result<(), Error>)
        requires
            0 <= n,
            n + 1 < plan.len(),
            plan[n] == op(line, GpioValue::High),
            plan[n + 1] == op(line, GpioValue::Low),
            Self::ran_ok(start, *old(self), plan.take(n)),
        ensures
            final(self).values == old(self).values,
            r is Ok ==> Self::ran_ok(start, *final(self), plan.take(n + 2)),
            Self::ran(start, *final(self), plan.take(n + 1), r) || Self::ran(
                start,
                *final(self),
                plan.take(n + 2),
                r,
            ),
            r is Ok ==> Self::ran(start, *final(self), plan.take(n + 2), r),
    {
        let ghost mid = *self;
        let r = match line {
            Line::Data => pulse(&mut self.sin),
            Line::Clock => pulse(&mut self.sclk),
            Line::Blank => pulse(&mut self.blank),
            Line::Latch => pulse(&mut self.xlat),
            Line::GrayscaleClock => pulse(&mut self.gsclk),
        };
        proof {
            let after = *self;
            assert(pulsed(mid.line_log(line), after.line_log(line), r));
            assert(forall|l: Line| l != line ==> #[trigger] after.line_log(l) == mid.line_log(l));
            if after.line_log(line).len() == mid.line_log(line).len() + 1 {
                Self::lemma_extend(start, mid, after, plan, n, r);
            } else {
                Self::lemma_extend_pulse(start, mid, after, plan, n, r);
            }
        }
        r
    }

    /// Pushes the channel buffer into the chip and latches it, driving one full
    /// grayscale cycle: blank low; for each of 4096 grayscale steps, while data
    /// remains a data bit (channel 15 down to 0, bit 11 down to 0) clocked in by
    /// a serial clock pulse, otherwise data held low, and a grayscale clock pulse;
    /// then blank high and a latch pulse. The writes made are a prefix of
    /// `update_ops`, ending at the first failure, which is returned.
    pub fn update(&mut self) -> (r: Result<(), Error>)
        ensures
            final(self).channels() == old(self).channels(),
            Self::performed(*old(self), *final(self), update_ops(old(self).channels()), r),
    {
        let ghost start = *self;
        let ghost plan = update_ops(self.values@);
        proof {
            lemma_update_layout(self.values@);
        }
        let r = self.update_init(Ghost(start), Ghost(plan));
        if r.is_err() {
            return r;
        }
        let mut channel_counter: isize = (CHANNELS - 1) as isize;
        let mut gsclk_counter: usize = 0;
        let ghost mut n: int = 1;
        while gsclk_counter < GRAYSCALE_STEPS
            invariant
                start == *old(self),
                self.values == start.values,
                plan == update_ops(start.values@),
                -1 <= channel_counter <= 15,
                gsclk_counter <= 4096,
                channel_counter >= 0 ==> gsclk_counter == 12 * (15 - channel_counter),
                channel_counter < 0 ==> gsclk_counter >= 192,
                n == 1 + transfer_len(gsclk_counter as int),
                Self::ran_ok(start, *self, plan.take(n)),
            decreases 4096 - gsclk_counter,
        {
            proof {
                lemma_update_layout(start.values@);
            }
            if channel_counter >= 0 {
                let mut bit: u8 = BITS_PER_CHANNEL as u8;
                while bit > 0
                    invariant
                        start == *old(self),
                        self.values == start.values,
                        plan == update_ops(start.values@),
                        0 <= channel_counter <= 15,
                        bit <= 12,
                        gsclk_counter == 12 * (15 - channel_counter) + (12 - bit),
                        n == 1 + transfer_len(gsclk_counter as int),
                        Self::ran_ok(start, *self, plan.take(n)),
                    decreases bit,
                {
                    proof {
                        lemma_update_layout(start.values@);
                    }
                    bit -= 1;
                    let val = self.get_pin_value_for_channel(channel_counter as usize, bit);
                    proof {
                        let t = gsclk_counter as int;
                        let c = channel_counter as int;
                        assert(t / 12 == 15 - c && t % 12 == 11 - bit) by (nonlinear_arith)
                            requires
                                t == 12 * (15 - c) + (11 - bit),
                                0 <= bit < 12,
                        ;
                        assert(plan[n] == step_ops(start.values@, t)[0]);
                        assert(plan[n + 1] == step_ops(start.values@, t)[1]);
                        assert(plan[n + 2] == step_ops(start.values@, t)[2]);
                        assert(plan[n + 3] == step_ops(start.values@, t)[3]);
                        assert(plan[n + 4] == step_ops(start.values@, t)[4]);
                    }
                    let r = self.shift_bit(val, Ghost(start), Ghost(plan), Ghost(n));
                    if r.is_err() {
                        return r;
                    }
                    gsclk_counter += 1;
                    proof {
                        n = n + 5;
                    }
                }
                channel_counter -= 1;
            } else {
                proof {
                    let t = gsclk_counter as int;
                    assert(plan[n] == step_ops(start.values@, t)[0]);
                    assert(plan[n + 1] == step_ops(start.values@, t)[1]);
                    assert(plan[n + 2] == step_ops(start.values@, t)[2]);
                }
                let r = self.idle_step(Ghost(start), Ghost(plan), Ghost(n));
                if r.is_err() {
                    return r;
                }
                gsclk_counter += 1;
                proof {
                    n = n + 3;
                }
            }
        }
        proof {
            lemma_update_layout(start.values@);
            assert(plan[n] == commit_ops()[0]);
            assert(plan[n + 1] == commit_ops()[1]);
            assert(plan[n + 2] == commit_ops()[2]);
        }
        self.update_post(Ghost(start), Ghost(plan), Ghost(n))
    }

    /// Shifts one data bit: `val` on data, a serial clock pulse, then a
    /// grayscale clock pulse, the writes at positions `n` to `n + 4` of `plan`.
    fn shift_bit(
        &mut self,
        val: GpioValue,
        Ghost(start): Ghost<Self>,
        Ghost(plan): Ghost<Seq<PinOp>>,
        Ghost(n): Ghost<int>,
    ) -> (r: Result<(), Error>)
        requires
            0 < n,
            n + 5 < plan.len(),
            plan[n] == op(Line::Data, val),
            plan[n + 1] == op(Line::Clock, GpioValue::High),
            plan[n + 2] == op(Line::Clock, GpioValue::Low),
            plan[n + 3] == op(Line::GrayscaleClock, GpioValue::High),
            plan[n + 4] == op(Line::GrayscaleClock, GpioValue::Low),
            Self::ran_ok(start, *old(self), plan.take(n)),
        ensures
            final(self).values == old(self).values,
            r is Ok ==> Self::ran_ok(start, *final(self), plan.take(n + 5)),
            r is Err ==> Self::performed(start, *final(self), plan, r),
    {
        let r = self.perform(Line::Data, val, Ghost(start), Ghost(plan), Ghost(n));
        if r.is_err() {
            return r;
        }
        let r = self.pulse_line(Line::Clock, Ghost(start), Ghost(plan), Ghost(n + 1));
        if r.is_err() {
            return r;
        }
        self.pulse_line(Line::GrayscaleClock, Ghost(start), Ghost(plan), Ghost(n + 3))
    }

    /// Holds data low and pulses the grayscale clock, the writes at positions
    /// `n` to `n + 2` of `plan`.
    fn idle_step(
        &mut self,
        Ghost(start): Ghost<Self>,
        Ghost(plan): Ghost<Seq<PinOp>>,
        Ghost(n): Ghost<int>,
    ) -> (r: Result<(), Error>)
        requires
            0 < n,
            n + 3 < plan.len(),
            plan[n] == op(Line::Data, GpioValue::Low),
            plan[n + 1] == op(Line::GrayscaleClock, GpioValue::High),
            plan[n + 2] == op(Line::GrayscaleClock, GpioValue::Low),
            Self::ran_ok(start, *old(self), plan.take(n)),
        ensures
            final(self).values == old(self).values,
            r is Ok ==> Self::ran_ok(start, *final(self), plan.take(n + 3)),
            r is Err ==> Self::performed(start, *final(self), plan, r),
    {
        let r = self.perform(Line::Data, GpioValue::Low, Ghost(start), Ghost(plan), Ghost(n));
        if r.is_err() {
            return r;
        }
        self.pulse_line(Line::GrayscaleClock, Ghost(start), Ghost(plan), Ghost(n + 1))
    }

    /// Opens an update: blank low, the first write of `plan`.
    fn update_init(&mut self, Ghost(start): Ghost<Self>, Ghost(plan): Ghost<Seq<PinOp>>) -> (r:
        Result<(), Error>)
        requires
            start == *old(self),
            plan.len() > 0,
            plan[0] == op(Line::Blank, GpioValue::Low),
        ensures
            final(self).values == old(self).values,
            Self::ran(start, *final(self), plan.take(1), r),
            r is Ok ==> Self::ran_ok(start, *final(self), plan.take(1)),
    {
        proof {
            assert forall|l: Line| #[trigger]
                start.line_log(l) == start.line_log(l) + entries::<Error>(plan.take(0), l) by {
                assert(start.line_log(l) =~= start.line_log(l) + entries::<Error>(plan.take(0), l));
            }
        }
        let r = self.blank.set_low();
        proof {
            Self::lemma_extend(start, start, *self, plan, 0, r);
        }
        r
    }

    /// Closes an update: blank high, then a latch pulse, the last three writes of `plan`.
    fn update_post(
        &mut self,
        Ghost(start): Ghost<Self>,
        Ghost(plan): Ghost<Seq<PinOp>>,
        Ghost(n): Ghost<int>,
    ) -> (r: Result<(), Error>)
        requires
            0 < n,
            n + 3 == plan.len(),
            plan[n] == op(Line::Blank, GpioValue::High),
            plan[n + 1] == op(Line::Latch, GpioValue::High),
            plan[n + 2] == op(Line::Latch, GpioValue::Low),
            Self::ran_ok(start, *old(self), plan.take(n)),
        ensures
            final(self).values == old(self).values,
            Self::performed(start, *final(self), plan, r),
    {
        let ghost mid = *self;
        let r = self.blank.set_high();
        proof {
            Self::lemma_extend(start, mid, *self, plan, n, r);
        }
        if r.is_err() {
            return r;
        }
        let r = self.pulse_line(Line::Latch, Ghost(start), Ghost(plan), Ghost(n + 1));
        proof {
            assert(plan.take(n + 3) == plan.take(plan.len() as int));
        }
        r
    }

    /// The level that bit `bit` of channel `channel` stands for.
    fn get_pin_value_for_channel(&self, channel: usize, bit: u8) -> (r: GpioValue)
        requires
            channel < 16,
            bit < 16,
        ensures
            r == bit_level(self.values[channel as int], bit as u16),
    {
        let value = self.values[channel];
        let b = bit as u16;
        let set = (value & (1u16 << b)) >> b != 0;
        proof {
            assert(((value & (1u16 << b)) >> b != 0) == ((value >> b) & 1 != 0)) by (bit_vector)
                requires
                    b < 16,
            ;
        }
        if set {
            GpioValue::High
        } else {
            GpioValue::Low
        }
    }
}

} // verus!

