//! The server's side of a client's calls: which are answered in order, which
//! are refused in a restricted mode, and memory that refuses writes.

use vstd::prelude::*;
use vstd::string::*;
use crate::capture::Request;
use crate::carriers::{CarrierError, CarrierErrorView, MemoryAccess};

verus! {

/// The methods of the server.
#[derive(Debug, Copy, Clone, PartialEq, Eq, Structural)]
pub enum Call {
    CanRequest,
    OpenElf,
    SymbolChildren,
    StartupElfPath,
    ListProbes,
    SearchChips,
    ListSerialPorts,
    SessionConnect,
    SessionDisconnect,
    SessionSetWatches,
    SessionSetRate,
    SessionRequest,
    SessionDiscard,
    SessionSave,
    WatchableLeaves,
    SessionTaskStates,
    SessionTaskTrace,
    InspectChildren,
    NodeMetadata,
    SessionReadValues,
    RecordingStart,
    RecordingStop,
    ExportCsv,
    StreamStart,
    StreamStop,
    AppState,
}

impl Call {
    /// Quick calls answer in order on the thread that reads them; the rest may
    /// block and get a thread each.
    pub fn is_quick(self) -> (r: bool)
        ensures
            r == (self == Call::SymbolChildren || self == Call::StartupElfPath || self
                == Call::SessionSetWatches || self == Call::SessionSetRate || self
                == Call::WatchableLeaves || self == Call::AppState),
    {
        match self {
            Call::SymbolChildren => true,
            Call::StartupElfPath => true,
            Call::SessionSetWatches => true,
            Call::SessionSetRate => true,
            Call::WatchableLeaves => true,
            Call::AppState => true,
            _ => false,
        }
    }
}

/// Why a CAN request is refused: without hardware only polling and
/// disconnecting are left, and a server that writes nothing neither connects nor
/// sends.
pub open spec fn can_refused(request: Request, mock: bool, read_only: bool) -> Option<Seq<char>> {
    if mock && !(request is Poll || request is Disconnect) {
        Some("Physical CAN access is disabled in --mock mode"@)
    } else if read_only && (request is Connect || request is Send) {
        Some(
            "CAN connection/transmission is disabled in --read-only mode: the SDK has no silent mode"@,
        )
    } else {
        None
    }
}

/// Whether a CAN request may be made.
pub fn check_can(request: &Request, mock: bool, read_only: bool) -> (r: Result<(), String>)
    ensures
        match can_refused(*request, mock, read_only) {
            Some(text) => r matches Err(e) && e@ == text,
            None => r is Ok,
        },
{
    let harmless: bool = match request {
        Request::Poll { .. } => true,
        Request::Disconnect => true,
        _ => false,
    };
    if mock && !harmless {
        return Err("Physical CAN access is disabled in --mock mode".to_owned());
    }
    let writes: bool = match request {
        Request::Connect { .. } => true,
        Request::Send { .. } => true,
        _ => false,
    };
    if read_only && writes {
        return Err(
            "CAN connection/transmission is disabled in --read-only mode: the SDK has no silent mode".to_owned(),
        );
    }
    Ok(())
}

/// Target memory that can only be read.
#[derive(Debug)]
pub struct ReadOnlyMemory<M> {
    pub memory: M,
    /// Writes that were refused
    pub refused: u64,
}

impl<M> ReadOnlyMemory<M> {
    pub fn new(memory: M) -> (r: Self)
        ensures
            r.memory == memory,
            r.refused == 0,
    {
        ReadOnlyMemory { memory, refused: 0 }
    }
}

impl<M: MemoryAccess> MemoryAccess for ReadOnlyMemory<M> {
    /// A read gives what it gives of the memory behind.
    open spec fn gives(
        &self,
        address: u64,
        len: usize,
        r: Result<Seq<u8>, CarrierErrorView>,
        after: &Self,
    ) -> bool {
        &&& self.memory.gives(address, len, r, &after.memory)
        &&& after.refused == self.refused
    }

    fn read(&mut self, address: u64, len: usize) -> (r: Result<Vec<u8>, CarrierError>)
    {
        self.memory.read(address, len)
    }

    fn write(&mut self, address: u64, data: &[u8]) -> (r: Result<(), CarrierError>)
        ensures
            r matches Err(e) && e@ == (CarrierErrorView::Write {
                address,
                len: data@.len() as usize,
                reason: "studio-server runs --read-only"@,
            }),
            final(self).memory == old(self).memory,
            final(self).refused == old(self).refused.wrapping_add(1),
    {
        self.refused = self.refused.wrapping_add(1);
        Err(
            CarrierError::Write {
                address,
                len: data.len(),
                reason: "studio-server runs --read-only".to_owned(),
            },
        )
    }
}

} // verus!
