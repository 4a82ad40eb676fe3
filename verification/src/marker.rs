//! Cumulative payload-acknowledgement markers.

use vstd::prelude::*;

use crate::types::ConnectionId;

verus! {

/// Opaque boundary after bytes accepted by one connection's local send buffer.
#[derive(Clone, Copy, Debug, PartialEq, Eq, Hash, Structural)]
pub struct SendMarker {
    connection_id: ConnectionId,
    connection_token: u64,
    accepted_payload_bytes: u128,
}

#[derive(Clone, Copy, Debug, PartialEq, Eq, Structural)]
pub enum MarkerStatus {
    Pending,
    Acked,
    ConnectionGone,
}

impl SendMarker {
    pub closed spec fn id(self) -> ConnectionId {
        self.connection_id
    }

    pub closed spec fn token(self) -> u64 {
        self.connection_token
    }

    /// The number of payload bytes the connection had accepted when the marker
    /// was taken.
    pub closed spec fn boundary(self) -> int {
        self.accepted_payload_bytes as int
    }

    pub fn connection_id(self) -> (r: ConnectionId)
        ensures
            r == self.id(),
    {
        self.connection_id
    }
}

/// One connection's identity token and its accepted and acknowledged payload
/// byte counts.
pub struct ProgressView {
    pub token: u64,
    pub accepted: int,
    pub acked: int,
}

/// What a marker reports against a connection's progress.
pub open spec fn marker_status_spec(p: ProgressView, token: u64, boundary: int) -> MarkerStatus {
    if token != p.token {
        MarkerStatus::ConnectionGone
    } else if p.acked >= boundary {
        MarkerStatus::Acked
    } else {
        MarkerStatus::Pending
    }
}

pub struct SendProgress {
    connection_token: u64,
    accepted_payload_bytes: u128,
    acked_payload_bytes: u128,
}

impl View for SendProgress {
    type V = ProgressView;

    closed spec fn view(&self) -> ProgressView {
        ProgressView {
            token: self.connection_token,
            accepted: self.accepted_payload_bytes as int,
            acked: self.acked_payload_bytes as int,
        }
    }
}

/// `a + b`, held at the largest `u128`.
pub open spec fn sat_add_u128(a: int, b: int) -> int {
    if a + b > u128::MAX {
        u128::MAX as int
    } else {
        a + b
    }
}

impl SendProgress {
    pub fn new(connection_token: u64) -> (r: Self)
        ensures
            r@ == (ProgressView { token: connection_token, accepted: 0, acked: 0 }),
    {
        Self { connection_token, accepted_payload_bytes: 0, acked_payload_bytes: 0 }
    }

    pub fn accept(&mut self, bytes: usize)
        ensures
            final(self)@ == (ProgressView {
                accepted: sat_add_u128(old(self)@.accepted, bytes as int),
                ..old(self)@
            }),
    {
        let b = bytes as u128;
        self.accepted_payload_bytes = if self.accepted_payload_bytes > u128::MAX - b {
            u128::MAX
        } else {
            self.accepted_payload_bytes + b
        };
    }

    pub fn acknowledge(&mut self, bytes: usize)
        ensures
            final(self)@ == (ProgressView {
                acked: sat_add_u128(old(self)@.acked, bytes as int),
                ..old(self)@
            }),
    {
        let b = bytes as u128;
        self.acked_payload_bytes = if self.acked_payload_bytes > u128::MAX - b {
            u128::MAX
        } else {
            self.acked_payload_bytes + b
        };
    }

    pub fn marker(&self, connection_id: ConnectionId) -> (r: SendMarker)
        ensures
            r.id() == connection_id,
            r.token() == self@.token,
            r.boundary() == self@.accepted,
    {
        SendMarker {
            connection_id,
            connection_token: self.connection_token,
            accepted_payload_bytes: self.accepted_payload_bytes,
        }
    }

    pub fn status(&self, marker: &SendMarker) -> (r: MarkerStatus)
        ensures
            r == marker_status_spec(self@, marker.token(), marker.boundary()),
    {
        if marker.connection_token != self.connection_token {
            MarkerStatus::ConnectionGone
        } else if self.acked_payload_bytes >= marker.accepted_payload_bytes {
            MarkerStatus::Acked
        } else {
            MarkerStatus::Pending
        }
    }
}

} // verus!
