//! What holds of the library as a whole.

pub mod choice;
pub mod handles;
pub mod mailto;
pub mod messages;
pub mod nautilus_ext;
pub mod offers;
pub mod percent;
pub mod queries;
pub mod requests;
pub mod text;
pub mod unfolding;
