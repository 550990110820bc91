//! Identifiers of clients, queries, invocations and streams.
use vstd::prelude::*;

verus! {

/// A 128-bit identifier: 64 random bits and a serial number that the broker
/// never hands out twice.
#[derive(Clone, Copy, Debug, PartialEq, Eq, Hash, Structural)]
pub struct Id {
    pub hi: u64,
    pub lo: u64,
}

/// The broker-wide identifier of a stream; the token that a second client opens it with.
#[derive(Clone, Copy, Debug, PartialEq, Eq, Hash, Structural)]
pub struct StreamId(pub Id);

/// A stream's number on one client; each client numbers its streams 1, 2, 3, ...
#[derive(Clone, Copy, Debug, PartialEq, Eq, Hash, Structural)]
pub struct ClientStreamIndex(pub u32);

/// Relies on `uuid::Uuid::new_v4` and `Uuid::as_u64_pair`: random bits, of which nothing is promised.
#[verifier::external_body]
pub(crate) fn random_bits() -> (r: u64) {
    uuid::Uuid::new_v4().as_u64_pair().0
}

/// Relies on `chrono::Utc::now` and `DateTime::timestamp_micros`: the wall clock,
/// in microseconds since the Unix epoch, of which nothing is promised.
#[verifier::external_body]
pub(crate) fn now_micros() -> (r: i64) {
    chrono::Utc::now().timestamp_micros()
}

} // verus!
