//! Wire codec for the control packets of a UDT-style transport, and the timing windows
//! that turn packet arrivals into RTT, receive-speed and bandwidth estimates.
pub mod ack_window;
pub mod bytes;
pub mod clock;
pub mod error;
pub mod packet;
pub mod stats;
pub mod time_window;
