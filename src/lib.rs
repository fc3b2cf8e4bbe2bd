pub mod controller;
pub mod pin;
pub mod protocol;

pub use controller::TlcController;
pub use pin::{pulse, GpioOut, GpioValue};
pub use protocol::{Line, PinOp};
