//! uTP, the Micro Transport Protocol, as a verified library.

pub mod addr;
pub mod answers;
pub mod circular;
pub mod clock;
pub mod conn_shared;
pub mod delay_hist;
pub mod endpoint;
pub mod engine;
pub mod packet;
pub mod util;
