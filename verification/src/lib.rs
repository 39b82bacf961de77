pub mod text;
pub mod util;
pub mod codec;
pub mod contacts;
pub mod messages;
