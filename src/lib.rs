//! Host information: the host name, memory, processor count, and the addresses of the
//! network interfaces, read on Linux from a netlink address dump.

pub mod text;
pub mod network;
pub mod netlink;
pub mod registry;
pub mod enumerate;
pub mod host;
pub mod mem;
pub mod cpu;

pub use os_id::{ProcessId, ThreadId, ThreadName};
pub use host::HostName;
pub use registry::Interfaces as NetworkInterfaces;
