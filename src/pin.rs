use vstd::prelude::*;

verus! {

/// A level that an output line can be driven to.
#[derive(Debug, Copy, Clone, PartialEq, Eq, Structural)]
pub enum GpioValue {
    /// A low value, usually 0 V
    Low,
    /// A high value, commonly 3.3 V or 5 V
    High,
}

/// One request made of a pin: the level asked for, and the error the pin
/// reported for it, if any.
pub type PinWrite<E> = (GpioValue, Option<E>);

/// The error carried by the outcome of a write, if any.
pub open spec fn failure<E>(r: Result<(), E>) -> Option<E> {
    match r {
        Ok(_) => None,
        Err(e) => Some(e),
    }
}

/// A digital output pin.
///
/// `log` is the model of a pin: every level requested of it so far, in order,
/// each with the outcome the pin reported. Every write appends exactly one entry.
pub trait GpioOut {
    /// Errors that can occur while writing to the pin
    type Error;

    /// The requests made of this pin so far. A pin driver verified against
    /// this trait defines it; the default leaves it unspecified.
    closed spec fn log(&self) -> Seq<PinWrite<Self::Error>> {
        arbitrary()
    }

    /// Sets the output value of the pin, dispatching on the level the value converts to.
    fn set_value<T: Into<GpioValue> + Copy>(&mut self, value: T) -> (r: Result<(), Self::Error>)
        ensures
            exists|v: GpioValue|
                call_ensures(T::into, (value,), v) && final(self).log() == old(self).log().push(
                    (v, failure(r)),
                ),
    {
        match value.into() {
            GpioValue::High => self.set_high(),
            GpioValue::Low => self.set_low(),
        }
    }

    /// Sets the pin to a low output value directly
    fn set_low(&mut self) -> (r: Result<(), Self::Error>)
        ensures
            final(self).log() == old(self).log().push((GpioValue::Low, failure(r))),
    ;

    /// Sets the pin to a high output value directly
    fn set_high(&mut self) -> (r: Result<(), Self::Error>)
        ensures
            final(self).log() == old(self).log().push((GpioValue::High, failure(r))),
    ;
}

/// `after` is the log `before` extended by a pulse with outcome `r`: a high
/// write, then, only if that succeeded, a low write.
pub open spec fn pulsed<E>(
    before: Seq<PinWrite<E>>,
    after: Seq<PinWrite<E>>,
    r: Result<(), E>,
) -> bool {
    let high_ok = before.push((GpioValue::High, None));
    match r {
        Ok(_) => after == high_ok.push((GpioValue::Low, None)),
        Err(e) => after == before.push((GpioValue::High, Some(e))) || after == high_ok.push(
            (GpioValue::Low, Some(e)),
        ),
    }
}

/// Drives a pin high and then, only if that succeeded, low again.
/// The first failure is returned and nothing more is written.
pub fn pulse<P: GpioOut>(pin: &mut P) -> (r: Result<(), P::Error>)
    ensures
        pulsed(old(pin).log(), final(pin).log(), r),
{
    match pin.set_high() {
        Ok(()) => pin.set_low(),
        Err(e) => Err(e),
    }
}

} // verus!
