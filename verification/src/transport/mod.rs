//! What a transport does with datagrams, without the socket.
//!
//! ```text
//! Application --Bytes--> FecSender --datagrams--> FecReceiver --(id, Bytes)--> Application
//!                            ^                        |
//!                            +------- feedback -------+
//! ```
//!
//! The types here take in datagrams and hand out the datagrams to send.  Whoever
//! owns the socket moves them.
pub mod laws;
pub mod receiver;
pub mod sender;
pub mod session;

pub use receiver::FecReceiver;
pub use sender::{FecSender, SinkSender};
pub use session::{DelpSession, SessionBuilder};
