//! Core of a user-space IPv4 network address translator.
//!
//! - `arena`, `ll`: values under stable handles, and the ordered list built
//!   on them.
//! - `keygen`: filter keys and the policies that choose external ports.
//! - `tcpstate`: the TCP phase tracker that picks a connection's timeout.
//! - `nattable`, `statenattable`, `timing`: the translation tables, for
//!   protocols without and with connection state, and the order of expiry
//!   among the connection records.
//! - `packet`, `util`, `natter`, `dispatch`: packets as bytes, the tables
//!   at work on them, and the routing of a packet to its table.
//! - `text`: the printable forms.

pub mod arena;
pub mod dispatch;
pub mod keygen;
pub mod ll;
pub mod natter;
pub mod nattable;
pub mod packet;
pub mod statenattable;
pub mod tcpstate;
pub mod text;
pub mod timing;
pub mod util;
