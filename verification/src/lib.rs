pub mod addr;
pub mod checksum;
pub mod conn;
pub mod echo;
pub mod flags;
pub mod frame;
pub mod header;
pub mod probe;
pub mod seqnum;
pub mod sim;
pub mod stack;
pub mod tap;

pub use addr::{Ipv4Address, MacAddress, SocketTuple};
pub use checksum::{checksum, tcp_checksum};
pub use conn::{RttSample, SentSegment, TcpConnection, TcpState};
pub use echo::{tick_due, HttpClient};
pub use flags::TcpFlags;
pub use header::TcpHeader;
pub use probe::{probe_is_malformed, probe_respond, ProbeOutcome};
pub use seqnum::SeqNum;
pub use sim::{Direction, ScheduledPacket, SimResult, Simulation};
pub use stack::{ArpCache, Stack};
