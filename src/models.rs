use vstd::prelude::*;

verus! {

/// Receive-side counters of one interface.
#[derive(Clone, Copy, Debug, PartialEq, Eq, Structural)]
pub struct Receive {
    pub bytes: u64,
    pub packets: u64,
    pub errs: u64,
    pub drop: u64,
    pub fifo: u64,
    pub frame: u64,
    pub compressed: u64,
    pub multicast: u64,
}

/// Transmit-side counters of one interface.
#[derive(Clone, Copy, Debug, PartialEq, Eq, Structural)]
pub struct Transmit {
    pub bytes: u64,
    pub packets: u64,
    pub errs: u64,
    pub drop: u64,
    pub fifo: u64,
    pub colls: u64,
    pub carrier: u64,
    pub compressed: u64,
}

/// Cumulative counters of one interface at one sampling instant.
#[derive(Clone, Debug)]
pub struct NetworkStats {
    pub name: String,
    pub receive: Receive,
    pub transmit: Transmit,
}

impl View for NetworkStats {
    type V = (Seq<char>, Receive, Transmit);

    open spec fn view(&self) -> (Seq<char>, Receive, Transmit) {
        (self.name@, self.receive, self.transmit)
    }
}

/// One row of the kernel's TCP connection table.
#[derive(Clone, Copy, Debug, PartialEq, Eq)]
pub struct TcpStats {
    pub sl: u16,
    pub local_ip: [u8; 4],
    pub local_port: u16,
    pub remote_ip: [u8; 4],
    pub remote_port: u16,
    pub state: u64,
    pub tx_queue: u64,
    pub rx_queue: u64,
    pub timer_active: u64,
    pub timer_when: u64,
    pub retransmit_timeout: u64,
    pub uid: u32,
    pub timeout: u32,
    pub inode: u64,
}

} // verus!
