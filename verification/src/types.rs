//! Configuration, identifiers, connection states and errors of the stack.

use vstd::prelude::*;

use crate::rtt::MAX_TIME_MS;
use crate::wire::WireError;

verus! {

#[derive(Clone, Debug)]
pub struct Config {
    pub mss: u16,
    pub receive_buffer: usize,
    pub send_buffer: usize,
    pub max_connections: usize,
    /// Retained connections allowed for one authenticated carrier peer.
    pub max_connections_per_peer: usize,
    pub max_reassembly_segments: usize,
    pub initial_rto_ms: u64,
    pub min_rto_ms: u64,
    pub max_rto_ms: u64,
    pub max_retransmissions: u8,
    /// Maximum retention after the peer acknowledges our FIN without sending its FIN.
    pub fin_wait_2_ms: u64,
    pub time_wait_ms: u64,
}

/// The first rule of `Config::validate` that `c` breaks, if any.
pub open spec fn config_error(c: Config) -> Option<&'static str> {
    if c.mss == 0 {
        Some("MSS must be non-zero")
    } else if c.receive_buffer == 0 || c.receive_buffer > u16::MAX {
        Some("receive buffer must be between 1 and 65535 bytes")
    } else if c.send_buffer == 0 {
        Some("send buffer must be non-zero")
    } else if c.max_connections == 0 || c.max_connections_per_peer == 0
        || c.max_reassembly_segments == 0 {
        Some("connection limits must be non-zero")
    } else if c.min_rto_ms == 0 || c.initial_rto_ms < c.min_rto_ms || c.max_rto_ms
        < c.initial_rto_ms {
        Some("invalid retransmission timeout bounds")
    } else if c.fin_wait_2_ms == 0 {
        Some("FIN-WAIT-2 duration must be non-zero")
    } else {
        None
    }
}

impl Config {
    /// The configuration passes `validate`.
    pub open spec fn valid(&self) -> bool {
        config_error(*self) is None
    }

    pub fn validate(&self) -> (r: Result<(), StackError>)
        ensures
            match config_error(*self) {
                None => r is Ok,
                Some(m) => r matches Err(StackError::InvalidConfig(x)) && x == m,
            },
    {
        if self.mss == 0 {
            return Err(StackError::InvalidConfig("MSS must be non-zero"));
        }
        if self.receive_buffer == 0 || self.receive_buffer > 65535 {
            return Err(StackError::InvalidConfig("receive buffer must be between 1 and 65535 bytes"));
        }
        if self.send_buffer == 0 {
            return Err(StackError::InvalidConfig("send buffer must be non-zero"));
        }
        if self.max_connections == 0 || self.max_connections_per_peer == 0
            || self.max_reassembly_segments == 0 {
            return Err(StackError::InvalidConfig("connection limits must be non-zero"));
        }
        if self.min_rto_ms == 0 || self.initial_rto_ms < self.min_rto_ms || self.max_rto_ms
            < self.initial_rto_ms {
            return Err(StackError::InvalidConfig("invalid retransmission timeout bounds"));
        }
        if self.fin_wait_2_ms == 0 {
            return Err(StackError::InvalidConfig("FIN-WAIT-2 duration must be non-zero"));
        }
        Ok(())
    }
}

pub open spec fn default_config() -> Config {
    Config {
        mss: 1024,
        receive_buffer: 65535,
        send_buffer: 1_048_576,
        max_connections: 1024,
        max_connections_per_peer: usize::MAX,
        max_reassembly_segments: 128,
        initial_rto_ms: 1000,
        min_rto_ms: 200,
        max_rto_ms: 60_000,
        max_retransmissions: 8,
        fin_wait_2_ms: 60_000,
        time_wait_ms: 30_000,
    }
}

impl Default for Config {
    fn default() -> (r: Self)
        ensures
            r == default_config(),
    {
        Self {
            mss: 1024,
            receive_buffer: 65535,
            send_buffer: 1_048_576,
            max_connections: 1024,
            max_connections_per_peer: usize::MAX,
            max_reassembly_segments: 128,
            initial_rto_ms: 1000,
            min_rto_ms: 200,
            max_rto_ms: 60_000,
            max_retransmissions: 8,
            fin_wait_2_ms: 60_000,
            time_wait_ms: 30_000,
        }
    }
}

/// The default configuration is valid.
pub proof fn lemma_default_config_valid()
    ensures
        default_config().valid(),
{
}

/// A time in milliseconds that the stack accepts: far beyond any clock, and
/// low enough that round-trip smoothing cannot overflow.
pub open spec fn time_ok(now_ms: u64) -> bool {
    now_ms <= MAX_TIME_MS
}

#[derive(Clone, Copy, Debug, PartialEq, Eq, Hash, Structural)]
pub struct ConnectionId(pub(crate) u64);

impl ConnectionId {
    pub closed spec fn raw(self) -> u64 {
        self.0
    }

    pub fn get(self) -> (r: u64)
        ensures
            r == self.raw(),
    {
        self.0
    }

    /// Reconstruct an ID previously returned by the same stack.
    pub fn from_raw(value: u64) -> (r: Self)
        ensures
            r.raw() == value,
    {
        Self(value)
    }

    pub proof fn lemma_raw_injective(a: Self, b: Self)
        ensures
            (a.raw() == b.raw()) == (a == b),
    {
    }
}

#[derive(Clone, Copy, Debug, PartialEq, Eq, Structural)]
pub enum State {
    SynSent,
    SynReceived,
    Established,
    FinWait1,
    FinWait2,
    CloseWait,
    Closing,
    LastAck,
    TimeWait,
}

#[derive(Clone, Debug, PartialEq, Eq)]
pub struct Outbound<P> {
    pub peer: P,
    pub bytes: Vec<u8>,
}

#[derive(Debug)]
pub enum StackError {
    Wire(WireError),
    InvalidConfig(&'static str),
    ZeroPort,
    AlreadyListening(u16),
    ConnectionExists,
    ConnectionLimit,
    NoEphemeralPort,
    UnknownConnection,
    InvalidState(State),
}

impl vstd::std_specs::convert::FromSpecImpl<WireError> for StackError {
    open spec fn obeys_from_spec() -> bool {
        true
    }

    open spec fn from_spec(v: WireError) -> StackError {
        StackError::Wire(v)
    }
}

impl From<WireError> for StackError {
    fn from(error: WireError) -> (r: Self) {
        StackError::Wire(error)
    }
}

/// The identity of a carrier peer: the stack compares and copies peers only
/// through these two operations, which agree with the peer's view.
pub trait Peer: View + Sized {
    fn same_peer(&self, other: &Self) -> (r: bool)
        ensures
            r == (self@ == other@),
    ;

    fn copy_peer(&self) -> (r: Self)
        ensures
            r@ == self@,
    ;
}

impl Peer for String {
    fn same_peer(&self, other: &Self) -> (r: bool) {
        *self == *other
    }

    fn copy_peer(&self) -> (r: Self) {
        self.clone()
    }
}

} // verus!
