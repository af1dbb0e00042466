//! Command codes. Replies use `code | REPLY`.

use vstd::prelude::*;

verus! {

/// → nothing. ← protocol version u8, table version u32, entries u16,
/// fingerprint u32, max payload u16, lease u16 ms.
pub const HELLO: u8 = 0x01;

/// → token u32. ← nothing. Takes the lease, or renews one held by `token`.
pub const LEASE: u8 = 0x02;

/// → token u32. ← nothing.
pub const RELEASE: u8 = 0x03;

/// → offset u16, limit u8. ← total u16, returned u8, then per entry: id u32,
/// kind u8, access u8, default u32, min f32, max f32, max step f32,
/// name (len u8, bytes), unit (len u8, bytes).
pub const CATALOG: u8 = 0x10;

/// → count u8, ids u32. ← count u8, then per id: id u32, requested u32,
/// applied u32.
pub const READ: u8 = 0x11;

/// → token u32, id u32, value slot. ← id u32, requested u32.
pub const WRITE: u8 = 0x12;

/// → token u32. ← count u16. Every tunable's request back to its default.
pub const DISCARD: u8 = 0x13;

/// → token u32. ← generation u32. Every tunable's request to storage; the
/// reply comes when the write is verified.
pub const SAVE: u8 = 0x14;

/// → period u16 ms, count u8, ids u32. ← count u8. A period of 0 or no ids
/// stops sampling.
pub const WATCH: u8 = 0x20;

/// → nothing. ← samples sent u32, samples dropped u32, bad frames u32.
pub const STATS: u8 = 0x22;

/// Unsolicited: time u64 us, count u8, then one u32 per watched id in
/// subscription order.
pub const SAMPLE: u8 = 0x40;

} // verus!
