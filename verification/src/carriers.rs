//! Carriers: how the studio reaches a target.
//!
//! A probe carrier gives random access to target memory ([`MemoryAccess`]). A
//! serial carrier ([`ByteStream`]) moves the firmware's framed protocol instead.
//! Every carrier is owned by one hardware thread; the traits take `&mut self`
//! and nothing here is shared.

use vstd::prelude::*;
use vstd::string::*;
use crate::text::{push_decimal, push_hex8};
#[allow(unused_imports)]
use crate::text::{decimal, hex8};

verus! {

/// What went wrong on the way to a target.
#[derive(Debug)]
pub enum CarrierError {
    ProbeNotFound(String),
    Probe(String),
    Attach(String),
    Read { address: u64, len: usize, reason: String },
    Write { address: u64, len: usize, reason: String },
    Port { port: String, reason: String },
    Stream(String),
    Other(String),
}

/// What a carrier's error says.
#[verifier::ext_equal]
pub enum CarrierErrorView {
    ProbeNotFound(Seq<char>),
    Probe(Seq<char>),
    Attach(Seq<char>),
    Read { address: u64, len: usize, reason: Seq<char> },
    Write { address: u64, len: usize, reason: Seq<char> },
    Port { port: Seq<char>, reason: Seq<char> },
    Stream(Seq<char>),
    Other(Seq<char>),
}

impl View for CarrierError {
    type V = CarrierErrorView;

    open spec fn view(&self) -> CarrierErrorView {
        match self {
            CarrierError::ProbeNotFound(s) => CarrierErrorView::ProbeNotFound(s@),
            CarrierError::Probe(s) => CarrierErrorView::Probe(s@),
            CarrierError::Attach(s) => CarrierErrorView::Attach(s@),
            CarrierError::Read { address, len, reason } => CarrierErrorView::Read {
                address: *address,
                len: *len,
                reason: reason@,
            },
            CarrierError::Write { address, len, reason } => CarrierErrorView::Write {
                address: *address,
                len: *len,
                reason: reason@,
            },
            CarrierError::Port { port, reason } => CarrierErrorView::Port {
                port: port@,
                reason: reason@,
            },
            CarrierError::Stream(s) => CarrierErrorView::Stream(s@),
            CarrierError::Other(s) => CarrierErrorView::Other(s@),
        }
    }
}

impl Clone for CarrierError {
    fn clone(&self) -> (r: Self)
        ensures
            r == *self,
    {
        match self {
            CarrierError::ProbeNotFound(s) => CarrierError::ProbeNotFound(s.clone()),
            CarrierError::Probe(s) => CarrierError::Probe(s.clone()),
            CarrierError::Attach(s) => CarrierError::Attach(s.clone()),
            CarrierError::Read { address, len, reason } => CarrierError::Read {
                address: *address,
                len: *len,
                reason: reason.clone(),
            },
            CarrierError::Write { address, len, reason } => CarrierError::Write {
                address: *address,
                len: *len,
                reason: reason.clone(),
            },
            CarrierError::Port { port, reason } => CarrierError::Port {
                port: port.clone(),
                reason: reason.clone(),
            },
            CarrierError::Stream(s) => CarrierError::Stream(s.clone()),
            CarrierError::Other(s) => CarrierError::Other(s.clone()),
        }
    }
}

impl CarrierErrorView {
    /// The error as a message.
    pub open spec fn shown(self) -> Seq<char> {
        match self {
            CarrierErrorView::ProbeNotFound(s) => "no debug probe matches `"@ + s + "`"@,
            CarrierErrorView::Probe(s) => "could not open the probe: "@ + s,
            CarrierErrorView::Attach(s) => "could not attach to the target: "@ + s,
            CarrierErrorView::Read { address, len, reason } => "read of "@ + decimal(len as nat)
                + " bytes at "@ + hex8(address as nat) + " failed: "@ + reason,
            CarrierErrorView::Write { address, len, reason } => "write of "@ + decimal(len as nat)
                + " bytes at "@ + hex8(address as nat) + " failed: "@ + reason,
            CarrierErrorView::Port { port, reason } => "could not open "@ + port + ": "@ + reason,
            CarrierErrorView::Stream(s) => "the link to the target was lost: "@ + s,
            CarrierErrorView::Other(s) => s,
        }
    }
}

/// A text between two others.
fn wrapped(before: &str, s: &str, after: &str) -> (r: String)
    ensures
        r@ == before@ + s@ + after@,
{
    let mut out: String = before.to_owned();
    out.append(s);
    out.append(after);
    out
}

fn transfer_text(before: &str, address: u64, len: usize, reason: &str) -> (r: String)
    ensures
        r@ == before@ + decimal(len as nat) + " bytes at "@ + hex8(address as nat) + " failed: "@
            + reason@,
{
    let mut out: String = before.to_owned();
    push_decimal(&mut out, len as u64);
    out.append(" bytes at ");
    push_hex8(&mut out, address);
    out.append(" failed: ");
    out.append(reason);
    out
}

impl CarrierError {
    /// The error as a message.
    pub fn to_text(&self) -> (r: String)
        ensures
            r@ == self@.shown(),
    {
        match self {
            CarrierError::ProbeNotFound(s) => wrapped("no debug probe matches `", s.as_str(), "`"),
            CarrierError::Probe(s) => {
                let mut out: String = "could not open the probe: ".to_owned();
                out.append(s.as_str());
                out
            },
            CarrierError::Attach(s) => {
                let mut out: String = "could not attach to the target: ".to_owned();
                out.append(s.as_str());
                out
            },
            CarrierError::Read { address, len, reason } => transfer_text(
                "read of ",
                *address,
                *len,
                reason.as_str(),
            ),
            CarrierError::Write { address, len, reason } => transfer_text(
                "write of ",
                *address,
                *len,
                reason.as_str(),
            ),
            CarrierError::Port { port, reason } => {
                let mut out: String = wrapped("could not open ", port.as_str(), ": ");
                out.append(reason.as_str());
                out
            },
            CarrierError::Stream(s) => {
                let mut out: String = "the link to the target was lost: ".to_owned();
                out.append(s.as_str());
                out
            },
            CarrierError::Other(s) => s.clone(),
        }
    }
}

/// What a read gave.
pub open spec fn read_view(r: Result<Vec<u8>, CarrierError>) -> Result<Seq<u8>, CarrierErrorView> {
    match r {
        Ok(bytes) => Ok(bytes@),
        Err(e) => Err(e@),
    }
}

/// Random access to target memory. Reads must not halt the core.
pub trait MemoryAccess {
    /// Whether a read of `len` bytes at this address can give this, and leave the
    /// memory like that. Of a memory that does not say so, anything is possible.
    open spec fn gives(
        &self,
        address: u64,
        len: usize,
        r: Result<Seq<u8>, CarrierErrorView>,
        after: &Self,
    ) -> bool {
        true
    }

    /// The `len` bytes at this address.
    fn read(&mut self, address: u64, len: usize) -> (r: Result<Vec<u8>, CarrierError>)
        ensures
            r matches Ok(bytes) ==> bytes@.len() == len,
            old(self).gives(address, len, read_view(r), &*final(self)),
    ;

    fn write(&mut self, address: u64, data: &[u8]) -> (r: Result<(), CarrierError>);
}

/// An ordered byte link to the firmware: USB CDC, a UART, or a test double.
pub trait ByteStream {
    /// What has arrived, at most `room` bytes, waiting briefly; nothing when
    /// nothing did.
    fn read(&mut self, room: usize) -> (r: Result<Vec<u8>, CarrierError>);

    fn write_all(&mut self, bytes: &[u8]) -> (r: Result<(), CarrierError>);
}

/// State of the firmware's log stream.
#[derive(Debug)]
pub enum StreamState {
    /// The firmware has no stream (no RTT control block in the ELF)
    Absent,
    /// Looking for the control block; firmware may not have initialised it yet
    Searching,
    Attached {
        channel: String,
        /// The firmware blocks when the buffer is full, so a slow host stalls it
        blocking: bool,
    },
}

/// Run state of the core, polled at a low rate.
#[derive(Debug, Clone, Copy, PartialEq, Eq, Structural)]
pub enum CoreState {
    Running,
    Halted,
    Sleeping,
    LockedUp,
    Unknown,
}

} // verus!
