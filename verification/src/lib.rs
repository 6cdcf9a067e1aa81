//! Leaving mailing lists, and a helper for GNOME Files.
//!
//! [`unsubscribe`] reads how to leave a list out of a message's headers,
//! [`mailto`] takes a `mailto:` handle apart and [`one_click`] makes the
//! one-click request. [`nautilus_ext`] installs the right-click extension for
//! GNOME Files. None of them does any input or output: where a file, the bus
//! or the network is needed, they say what to do and judge what came of it.
//!
//! [`laws`] states what holds across the functions.

pub mod laws;
pub mod mailto;
pub mod message;
pub mod models;
pub mod nautilus_ext;
pub mod one_click;
pub mod percent;
pub mod text;
pub mod unsubscribe;
