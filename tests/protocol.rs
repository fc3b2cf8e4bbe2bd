use std::cell::{Cell, RefCell};
use std::rc::Rc;
use tlc5940::{pulse, GpioOut, GpioValue, TlcController};

#[derive(Debug, Clone, PartialEq)]
struct PinError(&'static str, usize);

#[derive(Debug, Clone, PartialEq)]
struct Event {
    pin: &'static str,
    level: GpioValue,
    ok: bool,
}

#[derive(Clone)]
struct Bench {
    events: Rc<RefCell<Vec<Event>>>,
    writes: Rc<Cell<usize>>,
    fail_at: Rc<Cell<Option<usize>>>,
}

struct TestPin {
    name: &'static str,
    bench: Bench,
}

impl TestPin {
    fn write(&mut self, level: GpioValue) -> Result<(), PinError> {
        let index = self.bench.writes.get();
        self.bench.writes.set(index + 1);
        let ok = self.bench.fail_at.get() != Some(index);
        self.bench.events.borrow_mut().push(Event { pin: self.name, level, ok });
        if ok {
            Ok(())
        } else {
            Err(PinError(self.name, index))
        }
    }
}

impl GpioOut for TestPin {
    type Error = PinError;

    fn set_low(&mut self) -> Result<(), PinError> {
        self.write(GpioValue::Low)
    }

    fn set_high(&mut self) -> Result<(), PinError> {
        self.write(GpioValue::High)
    }
}

fn bench() -> Bench {
    Bench {
        events: Rc::new(RefCell::new(Vec::new())),
        writes: Rc::new(Cell::new(0)),
        fail_at: Rc::new(Cell::new(None)),
    }
}

fn pin(b: &Bench, name: &'static str) -> TestPin {
    TestPin { name, bench: b.clone() }
}

fn build(b: &Bench) -> Result<TlcController<TestPin>, PinError> {
    TlcController::new(
        pin(b, "sin"),
        pin(b, "sclk"),
        pin(b, "blank"),
        pin(b, "xlat"),
        pin(b, "gsclk"),
    )
}

fn ready(b: &Bench) -> TlcController<TestPin> {
    let c = build(b).unwrap();
    b.events.borrow_mut().clear();
    b.writes.set(0);
    c
}

fn events(b: &Bench) -> Vec<Event> {
    b.events.borrow().clone()
}

fn count(ev: &[Event], pin: &str, level: GpioValue) -> usize {
    ev.iter().filter(|e| e.pin == pin && e.level == level).count()
}

/// The data levels set just before each serial clock pulse.
fn clocked_bits(ev: &[Event]) -> Vec<GpioValue> {
    let mut out = Vec::new();
    for i in 0..ev.len() {
        if ev[i].pin == "sclk" && ev[i].level == GpioValue::High {
            assert!(i > 0 && ev[i - 1].pin == "sin");
            out.push(ev[i - 1].level);
        }
    }
    out
}

fn expected_bits(values: &[u16; 16]) -> Vec<GpioValue> {
    let mut out = Vec::new();
    for ch in (0..16).rev() {
        for bit in (0..12).rev() {
            out.push(if values[ch] >> bit & 1 == 1 { GpioValue::High } else { GpioValue::Low });
        }
    }
    out
}

fn load(c: &mut TlcController<TestPin>, values: &[u16; 16]) {
    for (i, v) in values.iter().enumerate() {
        c.set_channel(i, *v);
    }
}

#[test]
fn update_drives_full_protocol() {
    let b = bench();
    let mut c = ready(&b);
    let values: [u16; 16] = [
        0x000, 0xFFF, 0x123, 0x456, 0x789, 0xABC, 0xDEF, 0x001, 0x800, 0x555, 0xAAA, 0x0F0,
        0x00F, 0xF00, 0x7FF, 0x3C3,
    ];
    load(&mut c, &values);
    assert_eq!(c.update(), Ok(()));
    let ev = events(&b);
    assert_eq!(ev.len(), 12676);
    assert!(ev.iter().all(|e| e.ok));
    assert_eq!(count(&ev, "gsclk", GpioValue::High), 4096);
    assert_eq!(count(&ev, "gsclk", GpioValue::Low), 4096);
    assert_eq!(count(&ev, "sclk", GpioValue::High), 192);
    assert_eq!(count(&ev, "sclk", GpioValue::Low), 192);
    assert_eq!(count(&ev, "xlat", GpioValue::High), 1);
    assert_eq!(count(&ev, "xlat", GpioValue::Low), 1);
    let blank: Vec<GpioValue> = ev.iter().filter(|e| e.pin == "blank").map(|e| e.level).collect();
    assert_eq!(blank, vec![GpioValue::Low, GpioValue::High]);
    assert_eq!(ev[0], Event { pin: "blank", level: GpioValue::Low, ok: true });
    let tail: Vec<(&str, GpioValue)> = ev[ev.len() - 3..].iter().map(|e| (e.pin, e.level)).collect();
    assert_eq!(
        tail,
        vec![("blank", GpioValue::High), ("xlat", GpioValue::High), ("xlat", GpioValue::Low)]
    );
    assert_eq!(clocked_bits(&ev), expected_bits(&values));
    let data: Vec<GpioValue> = ev.iter().filter(|e| e.pin == "sin").map(|e| e.level).collect();
    assert_eq!(data.len(), 4096);
    assert!(data[192..].iter().all(|l| *l == GpioValue::Low));
}

#[test]
fn update_first_bits_come_from_last_channel() {
    let b = bench();
    let mut c = ready(&b);
    c.set_channel(15, 0x800);
    assert_eq!(c.update(), Ok(()));
    let bits = clocked_bits(&events(&b));
    assert_eq!(bits[0], GpioValue::High);
    assert!(bits[1..].iter().all(|l| *l == GpioValue::Low));
}

#[test]
fn update_ignores_bits_above_twelve() {
    let b = bench();
    let mut c = ready(&b);
    c.set_all(0xF000);
    c.set_channel(0, 0xF001);
    assert_eq!(c.update(), Ok(()));
    let bits = clocked_bits(&events(&b));
    assert_eq!(bits.len(), 192);
    assert_eq!(bits[191], GpioValue::High);
    assert!(bits[..191].iter().all(|l| *l == GpioValue::Low));
}

#[test]
fn update_twice_repeats_buffer() {
    let b = bench();
    let mut c = ready(&b);
    c.set_all(0x5A5);
    assert_eq!(c.update(), Ok(()));
    let first = events(&b);
    b.events.borrow_mut().clear();
    assert_eq!(c.update(), Ok(()));
    assert_eq!(events(&b), first);
}

#[test]
fn clear_then_update_shifts_zeros() {
    let b = bench();
    let mut c = ready(&b);
    c.set_all(0xFFF);
    c.clear();
    assert_eq!(c.update(), Ok(()));
    let bits = clocked_bits(&events(&b));
    assert_eq!(bits.len(), 192);
    assert!(bits.iter().all(|l| *l == GpioValue::Low));
}

#[test]
fn set_all_then_set_channel_shows_both() {
    let b = bench();
    let mut c = ready(&b);
    let v: u16 = 0xA5C;
    let w: u16 = 0x3F1;
    c.set_all(v);
    c.set_channel(3, w);
    assert_eq!(c.update(), Ok(()));
    let mut values = [v; 16];
    values[3] = w;
    assert_eq!(clocked_bits(&events(&b)), expected_bits(&values));
}

#[test]
fn new_drives_lines_in_order() {
    let b = bench();
    let c = build(&b);
    assert!(c.is_ok());
    let ev: Vec<(&str, GpioValue)> = events(&b).iter().map(|e| (e.pin, e.level)).collect();
    assert_eq!(
        ev,
        vec![
            ("sin", GpioValue::Low),
            ("sclk", GpioValue::Low),
            ("xlat", GpioValue::Low),
            ("gsclk", GpioValue::Low),
            ("blank", GpioValue::High),
        ]
    );
}

#[test]
fn new_starts_with_zero_channels() {
    let b = bench();
    let mut c = ready(&b);
    assert_eq!(c.update(), Ok(()));
    assert!(clocked_bits(&events(&b)).iter().all(|l| *l == GpioValue::Low));
}

#[test]
fn new_failure_never_writes_blank() {
    let names = ["sin", "sclk", "xlat", "gsclk"];
    for k in 0..4 {
        let b = bench();
        b.fail_at.set(Some(k));
        let r = build(&b);
        assert_eq!(r.err(), Some(PinError(names[k], k)));
        let ev = events(&b);
        assert_eq!(ev.len(), k + 1);
        assert!(ev.iter().all(|e| e.pin != "blank"));
    }
}

#[test]
fn new_blank_failure_is_returned() {
    let b = bench();
    b.fail_at.set(Some(4));
    assert_eq!(build(&b).err(), Some(PinError("blank", 4)));
}

#[test]
fn pulse_writes_high_then_low() {
    let b = bench();
    let mut p = pin(&b, "p");
    assert_eq!(pulse(&mut p), Ok(()));
    let ev: Vec<GpioValue> = events(&b).iter().map(|e| e.level).collect();
    assert_eq!(ev, vec![GpioValue::High, GpioValue::Low]);
}

#[test]
fn pulse_high_failure_skips_low() {
    let b = bench();
    b.fail_at.set(Some(0));
    let mut p = pin(&b, "p");
    assert_eq!(pulse(&mut p), Err(PinError("p", 0)));
    assert_eq!(events(&b), vec![Event { pin: "p", level: GpioValue::High, ok: false }]);
}

#[test]
fn pulse_low_failure_leaves_high() {
    let b = bench();
    b.fail_at.set(Some(1));
    let mut p = pin(&b, "p");
    assert_eq!(pulse(&mut p), Err(PinError("p", 1)));
    let ev: Vec<(GpioValue, bool)> = events(&b).iter().map(|e| (e.level, e.ok)).collect();
    assert_eq!(ev, vec![(GpioValue::High, true), (GpioValue::Low, false)]);
}

#[test]
fn set_value_dispatches_on_level() {
    let b = bench();
    let mut p = pin(&b, "p");
    assert_eq!(p.set_value(GpioValue::High), Ok(()));
    assert_eq!(p.set_value(GpioValue::Low), Ok(()));
    let ev: Vec<GpioValue> = events(&b).iter().map(|e| e.level).collect();
    assert_eq!(ev, vec![GpioValue::High, GpioValue::Low]);
}

fn failing_update(k: usize) -> (Result<(), PinError>, Vec<Event>) {
    let b = bench();
    let mut c = ready(&b);
    c.set_all(0xFFF);
    b.fail_at.set(Some(k));
    let r = c.update();
    (r, events(&b))
}

#[test]
fn update_transfer_failure_skips_commit() {
    for k in [1usize, 2, 3, 4, 5, 6, 500, 961, 962, 12000, 12672] {
        let (r, ev) = failing_update(k);
        let failed = ev.last().unwrap().clone();
        assert_eq!(r, Err(PinError(failed.pin, k)));
        assert_eq!(ev.len(), k + 1);
        assert!(!failed.ok);
        assert!(ev[..k].iter().all(|e| e.ok));
        assert!(ev.iter().all(|e| e.pin != "xlat"));
        assert_eq!(ev.iter().filter(|e| e.pin == "blank").count(), 1);
    }
}

#[test]
fn update_blank_failure_stops_at_once() {
    let (r, ev) = failing_update(0);
    assert_eq!(r, Err(PinError("blank", 0)));
    assert_eq!(ev.len(), 1);
}

#[test]
fn update_commit_failures_are_returned() {
    for k in [12673usize, 12674, 12675] {
        let (r, ev) = failing_update(k);
        assert_eq!(ev.len(), k + 1);
        assert_eq!(r, Err(PinError(ev[k].pin, k)));
    }
    let (_, ev) = failing_update(12674);
    assert_eq!(ev.last().unwrap().pin, "xlat");
    assert_eq!(ev.last().unwrap().level, GpioValue::High);
}
