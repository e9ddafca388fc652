//! A growable ordered index keyed by the decimal strings of the integers it
//! holds, together with the runtime state that serves it.

pub mod decimal;
pub mod environment;
pub mod greeting;
pub mod index;
pub mod order;
pub mod state;
