pub mod codec;
pub mod event;
mod ext;
pub mod log;
pub mod logger;
