use vstd::prelude::*;
use crate::pin::{GpioValue, PinWrite};

verus! {

/// Number of output channels of the chip.
pub const CHANNELS: usize = 16;

/// Number of grayscale bits per channel.
pub const BITS_PER_CHANNEL: usize = 12;

/// Number of grayscale clock pulses in one full PWM cycle.
pub const GRAYSCALE_STEPS: usize = 4096;

/// The five lines wired from the controller to the chip.
#[derive(Debug, Copy, Clone, PartialEq, Eq, Structural)]
pub enum Line {
    /// Serial data in
    Data,
    /// Serial clock
    Clock,
    /// Output blanking
    Blank,
    /// Latch
    Latch,
    /// Grayscale clock
    GrayscaleClock,
}

/// A single write of a level to one line.
#[derive(Debug, Copy, Clone, PartialEq, Eq, Structural)]
pub struct PinOp {
    pub line: Line,
    pub level: GpioValue,
}

pub open spec fn op(line: Line, level: GpioValue) -> PinOp {
    PinOp { line, level }
}

/// The level that bit `bit` of `value` stands for.
pub open spec fn bit_level(value: u16, bit: u16) -> GpioValue {
    if (value >> bit) & 1 == 0 {
        GpioValue::Low
    } else {
        GpioValue::High
    }
}

/// The `t`-th bit shifted out during an update: channels go from the last to
/// the first, and within a channel bits go from 11 down to 0.
pub open spec fn shifted_bit(values: Seq<u16>, t: int) -> GpioValue {
    bit_level(values[15 - t / 12], (11 - t % 12) as u16)
}

/// The writes made for grayscale step `t` of the transfer phase: while data
/// remains, a data bit clocked in by the serial clock, then a grayscale pulse;
/// afterwards only data held low and a grayscale pulse.
pub open spec fn step_ops(values: Seq<u16>, t: int) -> Seq<PinOp> {
    if t < 192 {
        seq![
            op(Line::Data, shifted_bit(values, t)),
            op(Line::Clock, GpioValue::High),
            op(Line::Clock, GpioValue::Low),
            op(Line::GrayscaleClock, GpioValue::High),
            op(Line::GrayscaleClock, GpioValue::Low),
        ]
    } else {
        seq![
            op(Line::Data, GpioValue::Low),
            op(Line::GrayscaleClock, GpioValue::High),
            op(Line::GrayscaleClock, GpioValue::Low),
        ]
    }
}

/// The writes of the first `n` grayscale steps of the transfer phase.
pub open spec fn transfer_ops(values: Seq<u16>, n: nat) -> Seq<PinOp>
    decreases n,
{
    if n == 0 {
        Seq::empty()
    } else {
        transfer_ops(values, (n - 1) as nat) + step_ops(values, n - 1)
    }
}

/// The writes made when a controller is built: data, clock, latch and
/// grayscale clock low, in that order, then blank high.
pub open spec fn init_ops() -> Seq<PinOp> {
    seq![
        op(Line::Data, GpioValue::Low),
        op(Line::Clock, GpioValue::Low),
        op(Line::Latch, GpioValue::Low),
        op(Line::GrayscaleClock, GpioValue::Low),
        op(Line::Blank, GpioValue::High),
    ]
}

/// The writes that commit shifted data: blank high, then a latch pulse.
pub open spec fn commit_ops() -> Seq<PinOp> {
    seq![
        op(Line::Blank, GpioValue::High),
        op(Line::Latch, GpioValue::High),
        op(Line::Latch, GpioValue::Low),
    ]
}

/// Every write of one update, in order: blank low, the transfer phase over a
/// full grayscale cycle, then the commit.
pub open spec fn update_ops(values: Seq<u16>) -> Seq<PinOp> {
    seq![op(Line::Blank, GpioValue::Low)] + transfer_ops(values, 4096) + commit_ops()
}

/// What the writes `ops` add to the log of `line` when all of them succeed.
pub open spec fn entries<E>(ops: Seq<PinOp>, line: Line) -> Seq<PinWrite<E>>
    decreases ops.len(),
{
    if ops.len() == 0 {
        Seq::empty()
    } else {
        let prior = entries(ops.drop_last(), line);
        if ops.last().line == line {
            prior.push((ops.last().level, None))
        } else {
            prior
        }
    }
}

/// How many writes the first `n` grayscale steps of the transfer phase make.
pub open spec fn transfer_len(n: int) -> int {
    if n <= 192 {
        5 * n
    } else {
        960 + 3 * (n - 192)
    }
}

proof fn lemma_transfer_len(values: Seq<u16>, n: nat)
    ensures
        transfer_ops(values, n).len() == transfer_len(n as int),
    decreases n,
{
    if n > 0 {
        lemma_transfer_len(values, (n - 1) as nat);
    }
}

proof fn lemma_transfer_prefix(values: Seq<u16>, c: nat, m: nat)
    requires
        c <= m,
    ensures
        transfer_ops(values, m).take(transfer_len(c as int)) == transfer_ops(values, c),
    decreases m,
{
    lemma_transfer_len(values, c);
    lemma_transfer_len(values, m);
    if c < m {
        lemma_transfer_prefix(values, c, (m - 1) as nat);
        lemma_transfer_len(values, (m - 1) as nat);
        assert(transfer_ops(values, m).take(transfer_len(c as int)) =~= transfer_ops(
            values,
            (m - 1) as nat,
        ).take(transfer_len(c as int)));
    } else {
        assert(transfer_ops(values, m).take(transfer_len(c as int)) =~= transfer_ops(values, m));
    }
}

/// Where each write of an update stands: blank low first, then the writes of
/// grayscale step `t` from position `1 + transfer_len(t)`, then the commit.
pub proof fn lemma_update_layout(values: Seq<u16>)
    ensures
        update_ops(values).len() == transfer_len(4096) + 4,
        update_ops(values)[0] == op(Line::Blank, GpioValue::Low),
        forall|t: int, j: int|
            0 <= t < 4096 && 0 <= j < step_ops(values, t).len() ==> update_ops(values)[1
                + transfer_len(t) + j] == #[trigger] step_ops(values, t)[j],
        forall|j: int|
            0 <= j < 3 ==> update_ops(values)[1 + transfer_len(4096) + j] == #[trigger] commit_ops()[j],
{
    lemma_transfer_len(values, 4096);
    assert forall|t: int, j: int|
        0 <= t < 4096 && 0 <= j < step_ops(values, t).len() implies update_ops(values)[1
            + transfer_len(t) + j] == #[trigger] step_ops(values, t)[j] by {
        lemma_transfer_prefix(values, (t + 1) as nat, 4096);
        lemma_transfer_len(values, t as nat);
        let whole = transfer_ops(values, 4096);
        assert(whole.take(transfer_len(t + 1))[transfer_len(t) + j] == step_ops(values, t)[j]);
    }
}

/// `n` pulses as a pin's log records them: high, then low, each succeeding.
pub open spec fn pulses<E>(n: nat) -> Seq<PinWrite<E>>
    decreases n,
{
    if n == 0 {
        Seq::empty()
    } else {
        pulses::<E>((n - 1) as nat).push((GpioValue::High, None)).push((GpioValue::Low, None))
    }
}

/// The level on the data line during grayscale step `t`: a channel bit while
/// data remains, low afterwards.
pub open spec fn data_level(values: Seq<u16>, t: int) -> GpioValue {
    if t < 192 {
        shifted_bit(values, t)
    } else {
        GpioValue::Low
    }
}

pub(crate) proof fn lemma_entries_push<E>(ops: Seq<PinOp>, o: PinOp, line: Line)
    ensures
        entries::<E>(ops.push(o), line) == if o.line == line {
            entries::<E>(ops, line).push((o.level, None))
        } else {
            entries::<E>(ops, line)
        },
{
    assert(ops.push(o).drop_last() =~= ops);
}

proof fn lemma_entries_append<E>(a: Seq<PinOp>, b: Seq<PinOp>, line: Line)
    ensures
        entries::<E>(a + b, line) == entries::<E>(a, line) + entries::<E>(b, line),
    decreases b.len(),
{
    if b.len() == 0 {
        assert(a + b =~= a);
        assert(entries::<E>(a, line) + entries::<E>(b, line) =~= entries::<E>(a, line));
    } else {
        lemma_entries_append::<E>(a, b.drop_last(), line);
        assert(a + b =~= (a + b.drop_last()).push(b.last()));
        assert(b =~= b.drop_last().push(b.last()));
        lemma_entries_push::<E>(a + b.drop_last(), b.last(), line);
        lemma_entries_push::<E>(b.drop_last(), b.last(), line);
        assert(entries::<E>(a, line) + entries::<E>(b.drop_last(), line).push((b.last().level, None))
            =~= (entries::<E>(a, line) + entries::<E>(b.drop_last(), line)).push(
            (b.last().level, None),
        ));
    }
}

spec fn step_entries<E>(values: Seq<u16>, t: int, line: Line) -> Seq<PinWrite<E>> {
    match line {
        Line::Data => seq![(data_level(values, t), None::<E>)],
        Line::Clock => if t < 192 {
            pulses::<E>(1)
        } else {
            Seq::empty()
        },
        Line::GrayscaleClock => pulses::<E>(1),
        _ => Seq::empty(),
    }
}

proof fn lemma_step_entries<E>(values: Seq<u16>, t: int, l: Line)
    ensures
        entries::<E>(step_ops(values, t), l) == step_entries::<E>(values, t, l),
{
    let s = step_ops(values, t);
    let e = Seq::<PinOp>::empty();
    assert(entries::<E>(e, l) == Seq::<PinWrite<E>>::empty());
    lemma_entries_push::<E>(e, s[0], l);
    lemma_entries_push::<E>(e.push(s[0]), s[1], l);
    lemma_entries_push::<E>(e.push(s[0]).push(s[1]), s[2], l);
    if t < 192 {
        lemma_entries_push::<E>(e.push(s[0]).push(s[1]).push(s[2]), s[3], l);
        lemma_entries_push::<E>(e.push(s[0]).push(s[1]).push(s[2]).push(s[3]), s[4], l);
        assert(s =~= e.push(s[0]).push(s[1]).push(s[2]).push(s[3]).push(s[4]));
    } else {
        assert(s =~= e.push(s[0]).push(s[1]).push(s[2]));
    }
    reveal_with_fuel(pulses, 2);
    match l {
        Line::Data => assert(entries::<E>(s, l) =~= step_entries::<E>(values, t, l)),
        Line::Clock => assert(entries::<E>(s, l) =~= step_entries::<E>(values, t, l)),
        Line::GrayscaleClock => assert(entries::<E>(s, l) =~= step_entries::<E>(values, t, l)),
        Line::Blank => assert(entries::<E>(s, l) =~= step_entries::<E>(values, t, l)),
        Line::Latch => assert(entries::<E>(s, l) =~= step_entries::<E>(values, t, l)),
    }
}

spec fn transfer_entries<E>(values: Seq<u16>, n: nat, line: Line) -> Seq<PinWrite<E>> {
    match line {
        Line::Data => Seq::new(n, |t: int| (data_level(values, t), None::<E>)),
        Line::Clock => pulses::<E>(if n < 192 { n } else { 192 }),
        Line::GrayscaleClock => pulses::<E>(n),
        _ => Seq::empty(),
    }
}

proof fn lemma_pulses_add_one<E>(k: nat)
    ensures
        pulses::<E>(k) + pulses::<E>(1) == pulses::<E>(k + 1),
{
    reveal_with_fuel(pulses, 2);
    assert(pulses::<E>(k) + pulses::<E>(1) =~= pulses::<E>(k + 1));
}

proof fn lemma_transfer_entries<E>(values: Seq<u16>, n: nat, l: Line)
    ensures
        entries::<E>(transfer_ops(values, n), l) == transfer_entries::<E>(values, n, l),
    decreases n,
{
    if n == 0 {
        assert(entries::<E>(transfer_ops(values, n), l) =~= transfer_entries::<E>(values, n, l));
    } else {
        let m = (n - 1) as nat;
        lemma_transfer_entries::<E>(values, m, l);
        lemma_entries_append::<E>(transfer_ops(values, m), step_ops(values, m as int), l);
        lemma_step_entries::<E>(values, m as int, l);
        match l {
            Line::Data => {
                assert(transfer_entries::<E>(values, m, l) + step_entries::<E>(values, m as int, l)
                    =~= transfer_entries::<E>(values, n, l));
            },
            Line::Clock => {
                if m < 192 {
                    lemma_pulses_add_one::<E>(m);
                } else {
                    assert(transfer_entries::<E>(values, m, l) + step_entries::<E>(
                        values,
                        m as int,
                        l,
                    ) =~= transfer_entries::<E>(values, n, l));
                }
            },
            Line::GrayscaleClock => {
                lemma_pulses_add_one::<E>(m);
            },
            _ => {
                assert(transfer_entries::<E>(values, m, l) + step_entries::<E>(values, m as int, l)
                    =~= transfer_entries::<E>(values, n, l));
            },
        }
    }
}

/// What one update asks of each line when every write succeeds: the data
/// line gets the bits of channel 15 down to channel 0, each from bit 11 down
/// to bit 0, then is held low for the rest of the 4096 grayscale steps; the
/// serial clock gets exactly 192 pulses and the grayscale clock exactly 4096;
/// blank goes low then high; the latch gets exactly one pulse. Each data bit
/// is written immediately before the serial clock pulse that shifts it in.
pub proof fn lemma_update_writes<E>(values: Seq<u16>)
    ensures
        entries::<E>(update_ops(values), Line::Data) == Seq::new(
            4096,
            |t: int| (data_level(values, t), None::<E>),
        ),
        entries::<E>(update_ops(values), Line::Clock) == pulses::<E>(192),
        entries::<E>(update_ops(values), Line::GrayscaleClock) == pulses::<E>(4096),
        entries::<E>(update_ops(values), Line::Blank) == seq![
            (GpioValue::Low, None::<E>),
            (GpioValue::High, None::<E>),
        ],
        entries::<E>(update_ops(values), Line::Latch) == pulses::<E>(1),
        forall|t: int|
            0 <= t < 192 ==> update_ops(values)[1 + 5 * t] == op(
                Line::Data,
                #[trigger] shifted_bit(values, t),
            ) && update_ops(values)[2 + 5 * t] == op(Line::Clock, GpioValue::High),
{
    let head = seq![op(Line::Blank, GpioValue::Low)];
    let body = transfer_ops(values, 4096);
    let e = Seq::<PinOp>::empty();
    assert(head =~= e.push(head[0]));
    assert(commit_ops() =~= e.push(commit_ops()[0]).push(commit_ops()[1]).push(commit_ops()[2]));
    reveal_with_fuel(pulses, 2);
    assert forall|l: Line|
        entries::<E>(update_ops(values), l) == entries::<E>(head, l) + transfer_entries::<E>(
            values,
            4096,
            l,
        ) + entries::<E>(commit_ops(), l) by {
        lemma_entries_append::<E>(head, body, l);
        lemma_entries_append::<E>(head + body, commit_ops(), l);
        lemma_transfer_entries::<E>(values, 4096, l);
    }
    assert forall|l: Line|
        entries::<E>(head, l) == (if l == Line::Blank {
            seq![(GpioValue::Low, None::<E>)]
        } else {
            Seq::empty()
        }) && entries::<E>(commit_ops(), l) == (if l == Line::Blank {
            seq![(GpioValue::High, None::<E>)]
        } else if l == Line::Latch {
            pulses::<E>(1)
        } else {
            Seq::empty()
        }) by {
        let c = commit_ops();
        assert(entries::<E>(e, l) == Seq::<PinWrite<E>>::empty());
        lemma_entries_push::<E>(e, head[0], l);
        lemma_entries_push::<E>(e, c[0], l);
        lemma_entries_push::<E>(e.push(c[0]), c[1], l);
        lemma_entries_push::<E>(e.push(c[0]).push(c[1]), c[2], l);
        assert(entries::<E>(head, l) =~= (if l == Line::Blank {
            seq![(GpioValue::Low, None::<E>)]
        } else {
            Seq::empty()
        }));
        assert(entries::<E>(c, l) =~= (if l == Line::Blank {
            seq![(GpioValue::High, None::<E>)]
        } else if l == Line::Latch {
            pulses::<E>(1)
        } else {
            Seq::empty()
        }));
    }
    assert(entries::<E>(update_ops(values), Line::Data) =~= Seq::new(
        4096,
        |t: int| (data_level(values, t), None::<E>),
    ));
    assert(entries::<E>(update_ops(values), Line::Clock) =~= pulses::<E>(192));
    assert(entries::<E>(update_ops(values), Line::GrayscaleClock) =~= pulses::<E>(4096));
    assert(entries::<E>(update_ops(values), Line::Blank) =~= seq![
        (GpioValue::Low, None::<E>),
        (GpioValue::High, None::<E>),
    ]);
    assert(entries::<E>(update_ops(values), Line::Latch) =~= pulses::<E>(1));
    lemma_update_layout(values);
    assert forall|t: int| 0 <= t < 192 implies update_ops(values)[1 + 5 * t] == op(
        Line::Data,
        #[trigger] shifted_bit(values, t),
    ) && update_ops(values)[2 + 5 * t] == op(Line::Clock, GpioValue::High) by {
        assert(update_ops(values)[1 + transfer_len(t) + 0] == step_ops(values, t)[0]);
        assert(update_ops(values)[1 + transfer_len(t) + 1] == step_ops(values, t)[1]);
    }
}

/// With every channel at zero, the data line is low at every grayscale step
/// of an update, the 192 clocked bits included.
pub proof fn lemma_cleared_data_low(values: Seq<u16>)
    requires
        values == Seq::new(16, |i: int| 0u16),
    ensures
        forall|t: int| 0 <= t < 4096 ==> #[trigger] data_level(values, t) == GpioValue::Low,
{
    assert forall|t: int| 0 <= t < 4096 implies #[trigger] data_level(values, t) == GpioValue::Low by {
        if t < 192 {
            let b = (11 - t % 12) as u16;
            assert(values[15 - t / 12] == 0u16);
            assert((0u16 >> b) & 1 == 0) by (bit_vector);
        }
    }
}

/// With every channel at `v` but channel `c` at `w`, the bits shifted out
/// are those of `w` for channel `c` and those of `v` for every other channel.
pub proof fn lemma_one_channel_set(values: Seq<u16>, v: u16, w: u16, c: int)
    requires
        0 <= c < 16,
        values == Seq::new(16, |i: int| v).update(c, w),
    ensures
        forall|t: int|
            0 <= t < 192 ==> #[trigger] shifted_bit(values, t)
                == bit_level(if 15 - t / 12 == c { w } else { v }, (11 - t % 12) as u16),
{
}

proof fn lemma_transfer_lines(values: Seq<u16>, n: nat)
    ensures
        forall|i: int|
            0 <= i < transfer_ops(values, n).len() ==> (#[trigger] transfer_ops(values, n)[i]).line
                != Line::Blank && transfer_ops(values, n)[i].line != Line::Latch,
    decreases n,
{
    if n > 0 {
        lemma_transfer_lines(values, (n - 1) as nat);
    }
}

/// Blank is written only first and in the commit, and the latch only in the
/// commit: an update that stops before its last three writes has driven
/// blank low and never touched the latch.
pub proof fn lemma_commit_last(values: Seq<u16>)
    ensures
        update_ops(values).len() == 12676,
        forall|j: int|
            0 < j < update_ops(values).len() - 3 ==> (#[trigger] update_ops(values)[j]).line
                != Line::Blank && update_ops(values)[j].line != Line::Latch,
{
    lemma_update_layout(values);
    lemma_transfer_lines(values, 4096);
    lemma_transfer_len(values, 4096);
    assert forall|j: int| 0 < j < update_ops(values).len() - 3 implies (
    #[trigger] update_ops(values)[j]).line != Line::Blank && update_ops(values)[j].line
        != Line::Latch by {
        assert(update_ops(values)[j] == transfer_ops(values, 4096)[j - 1]);
    }
}

/// The writes of an update before its commit drive the latch never and
/// blank at most once.
pub proof fn lemma_prefix_before_commit<E>(values: Seq<u16>, j: int)
    requires
        0 <= j <= update_ops(values).len() - 3,
    ensures
        entries::<E>(update_ops(values).take(j), Line::Latch) == Seq::<PinWrite<E>>::empty(),
        entries::<E>(update_ops(values).take(j), Line::Blank).len() <= 1,
        j <= 1 ==> entries::<E>(update_ops(values).take(j), Line::Blank).len() == j,
    decreases j,
{
    let plan = update_ops(values);
    lemma_commit_last(values);
    if j == 0 {
        assert(plan.take(0) =~= Seq::<PinOp>::empty());
    } else {
        lemma_prefix_before_commit::<E>(values, j - 1);
        assert(plan.take(j) =~= plan.take(j - 1).push(plan[j - 1]));
        lemma_entries_push::<E>(plan.take(j - 1), plan[j - 1], Line::Latch);
        lemma_entries_push::<E>(plan.take(j - 1), plan[j - 1], Line::Blank);
    }
}

/// Once the transfer phase is written, the grayscale clock has had its 4096
/// pulses, and the commit writes add none.
pub proof fn lemma_transfer_complete<E>(values: Seq<u16>, j: int)
    requires
        update_ops(values).len() - 3 <= j <= update_ops(values).len(),
    ensures
        entries::<E>(update_ops(values).take(j), Line::GrayscaleClock) == pulses::<E>(4096),
    decreases j,
{
    let plan = update_ops(values);
    lemma_update_layout(values);
    lemma_transfer_len(values, 4096);
    if j == plan.len() - 3 {
        let head = seq![op(Line::Blank, GpioValue::Low)];
        let e = Seq::<PinOp>::empty();
        assert(plan.take(j) =~= head + transfer_ops(values, 4096));
        assert(head =~= e.push(head[0]));
        lemma_entries_push::<E>(e, head[0], Line::GrayscaleClock);
        lemma_entries_append::<E>(head, transfer_ops(values, 4096), Line::GrayscaleClock);
        lemma_transfer_entries::<E>(values, 4096, Line::GrayscaleClock);
        assert(entries::<E>(head, Line::GrayscaleClock) + pulses::<E>(4096) =~= pulses::<E>(4096));
    } else {
        lemma_transfer_complete::<E>(values, j - 1);
        assert(plan.take(j) =~= plan.take(j - 1).push(plan[j - 1]));
        assert(plan[j - 1] == commit_ops()[j - 1 - (1 + transfer_len(4096))]);
        lemma_entries_push::<E>(plan.take(j - 1), plan[j - 1], Line::GrayscaleClock);
    }
}

} // verus!
