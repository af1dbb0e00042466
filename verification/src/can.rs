//! CAN frames, channel settings and the rules an adapter holds them to.
//!
//! The vendor's packed bitfields are decoded as bytes. Sample points are
//! single-precision numbers, handled by their bits.

use vstd::prelude::*;
use vstd::string::*;
use crate::bytes::{copy_range, get_u32, get_u64};
#[allow(unused_imports)]
use crate::bytes::{u32_at, u64_at};
use crate::float_bits;
#[allow(unused_imports)]
use crate::float_bits::{f32_finite, f32_lt};
use crate::search::{first, lemma_first_is, lemma_first_none};
use crate::text::push_decimal;
#[allow(unused_imports)]
use crate::text::decimal;

verus! {

/// Bits of 1 as a single-precision number.
pub const ONE: u32 = 0x3f80_0000;

/// Bytes of a frame as the SDK packs it.
pub const PACKED_FRAME: usize = 80;

/// Bit timing of one phase.
#[derive(Clone, Copy, Debug, PartialEq, Eq, Structural)]
pub struct Timing {
    pub seg1: u8,
    pub seg2: u8,
    pub sjw: u8,
    pub prescaler: u8,
}

impl Timing {
    pub open spec fn valid(self) -> bool {
        self.seg1 != 0 && self.seg2 != 0 && self.sjw != 0 && self.prescaler != 0 && self.sjw
            <= self.seg2
    }

    /// Every value is set, and the jump is no wider than the segment it eats
    /// into.
    pub fn validate(&self) -> (r: Result<(), String>)
        ensures
            r is Ok <==> self.valid(),
            r matches Err(text) ==> text@ == bad_timing(),
    {
        if self.seg1 == 0 || self.seg2 == 0 || self.sjw == 0 || self.prescaler == 0 || self.sjw
            > self.seg2 {
            return Err("Timing values must be nonzero, with SJW ≤ segment 2".to_owned());
        }
        Ok(())
    }
}

pub open spec fn bad_timing() -> Seq<char> {
    "Timing values must be nonzero, with SJW ≤ segment 2"@
}

/// Settings of one channel.
#[derive(Clone, Copy, Debug, PartialEq, Eq, Structural)]
pub struct ChannelConfig {
    pub channel: u8,
    pub fd: bool,
    pub arbitration_bitrate: u32,
    pub data_bitrate: u32,
    pub arbitration_sample_point: u32,
    pub data_sample_point: u32,
    pub arbitration_timing: Option<Timing>,
    pub data_timing: Option<Timing>,
}

/// Whether a sample point lies between 0 and 1.
pub open spec fn sample_point(bits: u32) -> bool {
    f32_finite(bits) && f32_lt(0, bits) && f32_lt(bits, ONE)
}

fn is_sample_point(bits: u32) -> (r: bool)
    ensures
        r == sample_point(bits),
{
    float_bits::is_finite(bits) && float_bits::less(0, bits) && float_bits::less(bits, ONE)
}

impl ChannelConfig {
    /// The first thing wrong with the settings, on an adapter with this many
    /// channels.
    pub open spec fn fault(self, channels: u8) -> Option<Seq<char>> {
        if self.channel >= channels {
            Some("Channel is out of range for this adapter"@)
        } else if self.arbitration_bitrate == 0 || (self.fd && self.data_bitrate == 0) {
            Some("Bitrates must be greater than zero"@)
        } else if !sample_point(self.arbitration_sample_point) || !sample_point(
            self.data_sample_point,
        ) {
            Some("Sample points must be between 0 and 1 (exclusive)"@)
        } else if self.arbitration_timing matches Some(t) && !t.valid() {
            Some(bad_timing())
        } else if self.data_timing matches Some(t) && !t.valid() {
            Some(bad_timing())
        } else if self.arbitration_timing is Some && self.fd && self.data_timing is None {
            Some("Advanced CAN FD timing requires data timing too"@)
        } else if self.arbitration_timing is None && self.data_timing is Some {
            Some("Data timing requires arbitration timing"@)
        } else {
            None
        }
    }

    /// Whether an adapter with this many channels can take the settings.
    pub fn validate(&self, channels: u8) -> (r: Result<(), String>)
        ensures
            match self.fault(channels) {
                None => r is Ok,
                Some(text) => r matches Err(e) && e@ == text,
            },
    {
        if self.channel >= channels {
            return Err("Channel is out of range for this adapter".to_owned());
        }
        if self.arbitration_bitrate == 0 || (self.fd && self.data_bitrate == 0) {
            return Err("Bitrates must be greater than zero".to_owned());
        }
        if !is_sample_point(self.arbitration_sample_point) || !is_sample_point(
            self.data_sample_point,
        ) {
            return Err("Sample points must be between 0 and 1 (exclusive)".to_owned());
        }
        if let Some(t) = self.arbitration_timing {
            if let Err(e) = t.validate() {
                return Err(e);
            }
        }
        if let Some(t) = self.data_timing {
            if let Err(e) = t.validate() {
                return Err(e);
            }
        }
        if self.arbitration_timing.is_some() && self.fd && self.data_timing.is_none() {
            return Err("Advanced CAN FD timing requires data timing too".to_owned());
        }
        if self.arbitration_timing.is_none() && self.data_timing.is_some() {
            return Err("Data timing requires arbitration timing".to_owned());
        }
        Ok(())
    }
}

/// A frame to send.
#[derive(Debug)]
pub struct Transmit {
    pub channel: u8,
    pub id: u32,
    pub extended: bool,
    pub fd: bool,
    pub brs: bool,
    pub rtr: bool,
    pub data: Vec<u8>,
}

/// The payload length that a length code stands for.
pub open spec fn length_of(dlc: int) -> int {
    if dlc <= 8 {
        dlc
    } else if dlc <= 12 {
        12 + 4 * (dlc - 9)
    } else {
        32 + 16 * (dlc - 13)
    }
}

/// Whether some length code stands for this payload length.
pub open spec fn has_code(len: int) -> bool {
    exists|dlc: int| 0 <= dlc < 16 && #[trigger] length_of(dlc) == len
}

impl Transmit {
    /// The first thing wrong with the frame.
    pub open spec fn fault(self) -> Option<Seq<char>> {
        let len = self.data@.len();
        if self.id > (if self.extended {
            0x1fff_ffffu32
        } else {
            0x7ff
        }) {
            Some("CAN identifier is out of range"@)
        } else if len > (if self.fd {
            64int
        } else {
            8
        }) {
            Some("Payload exceeds frame capacity"@)
        } else if self.fd && !has_code(len as int) {
            Some("CAN FD payload must use a valid DLC length (0–8, 12, 16, 20, 24, 32, 48, 64)"@)
        } else if (self.brs && !self.fd) || (self.rtr && self.fd) || (self.rtr && len > 0) {
            Some("BRS requires FD; remote frames require classic CAN and an empty payload"@)
        } else {
            None
        }
    }

    /// Whether the frame can be sent at all.
    pub fn validate(&self) -> (r: Result<(), String>)
        ensures
            match self.fault() {
                None => r is Ok,
                Some(text) => r matches Err(e) && e@ == text,
            },
    {
        let len: usize = self.data.len();
        if self.id > if self.extended {
            0x1fff_ffff
        } else {
            0x7ff
        } {
            return Err("CAN identifier is out of range".to_owned());
        }
        if len > if self.fd {
            64
        } else {
            8
        } {
            return Err("Payload exceeds frame capacity".to_owned());
        }
        if self.fd && !is_code_length(len) {
            return Err(
                "CAN FD payload must use a valid DLC length (0–8, 12, 16, 20, 24, 32, 48, 64)"
                    .to_owned(),
            );
        }
        if (self.brs && !self.fd) || (self.rtr && self.fd) || (self.rtr && len > 0) {
            return Err(
                "BRS requires FD; remote frames require classic CAN and an empty payload"
                    .to_owned(),
            );
        }
        Ok(())
    }
}

fn is_code_length(len: usize) -> (r: bool)
    ensures
        r == has_code(len as int),
{
    let mut dlc: u8 = 0;
    while dlc < 16
        invariant
            dlc <= 16,
            forall|k: int| 0 <= k < dlc ==> #[trigger] length_of(k) != len,
        decreases 16 - dlc,
    {
        if code_length(dlc) == len {
            assert(length_of(dlc as int) == len);
            return true;
        }
        dlc = dlc + 1;
    }
    false
}

fn code_length(dlc: u8) -> (r: usize)
    requires
        dlc < 16,
    ensures
        r == length_of(dlc as int),
        r <= 64,
{
    let d: usize = dlc as usize;
    if d <= 8 {
        d
    } else if d <= 12 {
        12 + 4 * (d - 9)
    } else {
        32 + 16 * (d - 13)
    }
}

/// A frame that was seen on a channel.
#[derive(Debug)]
pub struct Frame {
    pub sequence: u64,
    /// Raw SDK timestamp; units/timebase are not specified by the vendor.
    pub device_timestamp: String,
    /// Host arrival time. Strings preserve nanoseconds in JavaScript.
    pub host_timestamp_ns: String,
    pub channel: u8,
    pub id: u32,
    pub extended: bool,
    pub fd: bool,
    pub brs: bool,
    pub rtr: bool,
    pub esi: bool,
    pub ack: bool,
    pub dlc: u8,
    pub direction: String,
    pub data: Vec<u8>,
}

/// What a frame says.
#[verifier::ext_equal]
pub struct FrameView {
    pub sequence: u64,
    pub device_timestamp: Seq<char>,
    pub host_timestamp_ns: Seq<char>,
    pub channel: u8,
    pub id: u32,
    pub extended: bool,
    pub fd: bool,
    pub brs: bool,
    pub rtr: bool,
    pub esi: bool,
    pub ack: bool,
    pub dlc: u8,
    pub direction: Seq<char>,
    pub data: Seq<u8>,
}

impl View for Frame {
    type V = FrameView;

    open spec fn view(&self) -> FrameView {
        FrameView {
            sequence: self.sequence,
            device_timestamp: self.device_timestamp@,
            host_timestamp_ns: self.host_timestamp_ns@,
            channel: self.channel,
            id: self.id,
            extended: self.extended,
            fd: self.fd,
            brs: self.brs,
            rtr: self.rtr,
            esi: self.esi,
            ack: self.ack,
            dlc: self.dlc,
            direction: self.direction@,
            data: self.data@,
        }
    }
}

impl Frame {
    /// The same frame again.
    pub fn copy(&self) -> (r: Frame)
        ensures
            r@ == self@,
    {
        let data: Vec<u8> = copy_range(self.data.as_slice(), 0, self.data.len());
        assert(data@ =~= self.data@);
        Frame {
            sequence: self.sequence,
            device_timestamp: self.device_timestamp.clone(),
            host_timestamp_ns: self.host_timestamp_ns.clone(),
            channel: self.channel,
            id: self.id,
            extended: self.extended,
            fd: self.fd,
            brs: self.brs,
            rtr: self.rtr,
            esi: self.esi,
            ack: self.ack,
            dlc: self.dlc,
            direction: self.direction.clone(),
            data,
        }
    }
}

/// Bit `n` of a number, by its weight.
pub open spec fn has_bit(x: int, weight: int) -> bool {
    x / weight % 2 == 1
}

/// What a packed frame says. Classic frames carry at most eight bytes, remote
/// frames none.
pub open spec fn unpacked(bytes: Seq<u8>, host_timestamp_ns: Seq<char>, direction: Seq<char>) -> FrameView {
    let id = u32_at(bytes, 0);
    let flags = bytes[13];
    let dlc = flags / 16;
    let fd = has_bit(flags as int, 1);
    let rtr = has_bit(id as int, 0x8000_0000);
    let len = if rtr {
        0
    } else if !fd && length_of(dlc as int) > 8 {
        8
    } else {
        length_of(dlc as int)
    };
    FrameView {
        sequence: 0,
        device_timestamp: decimal(u64_at(bytes, 4) as nat),
        host_timestamp_ns,
        channel: bytes[12],
        id: (id % 0x2000_0000) as u32,
        extended: has_bit(id as int, 0x4000_0000),
        fd,
        brs: has_bit(flags as int, 4),
        rtr,
        esi: has_bit(id as int, 0x2000_0000),
        ack: has_bit(flags as int, 8),
        dlc,
        direction,
        data: bytes.subrange(16, 16 + len),
    }
}

/// Decodes a frame as the SDK packs it.
pub fn decode(bytes: &[u8], host_timestamp_ns: String, direction: &str) -> (r: Frame)
    requires
        bytes@.len() == PACKED_FRAME,
    ensures
        r@ == unpacked(bytes@, host_timestamp_ns@, direction@),
{
    let id: u32 = get_u32(bytes, 0);
    let flags: u8 = bytes[13];
    let dlc: u8 = flags / 16;
    let fd: bool = flags % 2 == 1;
    let rtr: bool = id / 0x8000_0000 % 2 == 1;
    let full: usize = code_length(dlc);
    let len: usize = if rtr {
        0
    } else if !fd && full > 8 {
        8
    } else {
        full
    };
    let mut device_timestamp: String = String::new();
    push_decimal(&mut device_timestamp, get_u64(bytes, 4));
    assert(device_timestamp@ =~= decimal(u64_at(bytes@, 4) as nat));
    Frame {
        sequence: 0,
        device_timestamp,
        host_timestamp_ns,
        channel: bytes[12],
        id: id % 0x2000_0000,
        extended: id / 0x4000_0000 % 2 == 1,
        fd,
        brs: flags / 4 % 2 == 1,
        rtr,
        esi: id / 0x2000_0000 % 2 == 1,
        ack: flags / 8 % 2 == 1,
        dlc,
        direction: direction.to_owned(),
        data: copy_range(bytes, 16, 16 + len),
    }
}

/// An adapter that was found.
#[derive(Debug)]
pub struct Device {
    pub index: i32,
    pub model: String,
    pub channels: u8,
    pub version: String,
}

impl Device {
    /// The adapter at this place. Its model is not guessed from undocumented
    /// text; the user selects it when connecting.
    pub fn found(index: i32) -> (r: Device)
        ensures
            r.index == index,
            r.model@ == "Damiao CAN adapter"@,
            r.channels == 0,
            r.version@ == Seq::<char>::empty(),
    {
        let version: String = String::new();
        assert(version@ =~= Seq::<char>::empty());
        Device { index, model: "Damiao CAN adapter".to_owned(), channels: 0, version }
    }

    /// The same adapter again.
    pub fn copy(&self) -> (r: Device)
        ensures
            r == *self,
    {
        Device {
            index: self.index,
            model: self.model.clone(),
            channels: self.channels,
            version: self.version.clone(),
        }
    }
}

/// Whether adapters may be looked for: not while one is in use, and only once
/// per process.
pub fn check_discover(active: bool, found: usize) -> (r: Result<(), String>)
    ensures
        match r {
            Ok(()) => !active && found == 0,
            Err(text) => if active {
                text@ == "Disconnect CAN before scanning"@
            } else {
                found > 0 && text@ == "Use a fresh SDK worker to rescan"@
            },
        },
{
    if active {
        return Err("Disconnect CAN before scanning".to_owned());
    }
    if found > 0 {
        return Err("Use a fresh SDK worker to rescan".to_owned());
    }
    Ok(())
}

/// Picks the device with this index.
pub open spec fn device_at(index: i32) -> spec_fn(Device) -> bool {
    |d: Device| d.index == index
}

/// Picks the settings of this channel.
pub open spec fn config_for(channel: u8) -> spec_fn(ChannelConfig) -> bool {
    |c: ChannelConfig| c.channel == channel
}

/// The first thing wrong among these settings, on an adapter with this many
/// channels: each for itself, and then one after another for a channel.
pub open spec fn configs_fault(configs: Seq<ChannelConfig>, channels: u8) -> Option<Seq<char>>
    decreases configs.len(),
{
    if configs.len() == 0 {
        None
    } else {
        let before = configs_fault(configs.drop_last(), channels);
        let last = configs.last();
        if before is Some {
            before
        } else if last.fault(channels) is Some {
            last.fault(channels)
        } else if first(configs.drop_last(), config_for(last.channel)) is Some {
            Some("Duplicate channel configuration"@)
        } else {
            None
        }
    }
}

/// A fault stays a fault whatever follows.
proof fn lemma_fault_stays(configs: Seq<ChannelConfig>, channels: u8, n: int)
    requires
        0 <= n <= configs.len(),
        configs_fault(configs.take(n), channels) is Some,
    ensures
        configs_fault(configs, channels) == configs_fault(configs.take(n), channels),
    decreases configs.len() - n,
{
    if n == configs.len() {
        assert(configs.take(n) =~= configs);
    } else {
        assert(configs.take(n + 1).drop_last() =~= configs.take(n));
        lemma_fault_stays(configs, channels, n + 1);
    }
}

fn find_config(configs: &Vec<ChannelConfig>, n: usize, channel: u8) -> (r: Option<usize>)
    requires
        n <= configs@.len(),
    ensures
        first(configs@.take(n as int), config_for(channel)) == (match r {
            Some(i) => Some(i as int),
            None => None,
        }),
        r matches Some(i) ==> i < n,
{
    let ghost all = configs@.take(n as int);
    let mut i: usize = 0;
    while i < n
        invariant
            i <= n <= configs@.len(),
            all == configs@.take(n as int),
            forall|k: int| 0 <= k < i ==> !config_for(channel)(#[trigger] all[k]),
        decreases n - i,
    {
        assert(all[i as int] == configs@[i as int]);
        if configs[i].channel == channel {
            proof {
                lemma_first_is(all, config_for(channel), i as int);
            }
            return Some(i);
        }
        i = i + 1;
    }
    proof {
        lemma_first_none(all, config_for(channel));
    }
    None
}

/// Whether an adapter with this many channels can take all these settings.
pub fn check_configs(configs: &Vec<ChannelConfig>, channels: u8) -> (r: Result<(), String>)
    ensures
        match configs_fault(configs@, channels) {
            None => r is Ok,
            Some(text) => r matches Err(e) && e@ == text,
        },
{
    let mut i: usize = 0;
    assert(configs@.take(0) =~= Seq::<ChannelConfig>::empty());
    while i < configs.len()
        invariant
            i <= configs@.len(),
            configs_fault(configs@.take(i as int), channels) is None,
        decreases configs@.len() - i,
    {
        proof {
            assert(configs@.take(i + 1).drop_last() =~= configs@.take(i as int));
            assert(configs@.take(i + 1).last() == configs@[i as int]);
        }
        if let Err(e) = configs[i].validate(channels) {
            proof {
                lemma_fault_stays(configs@, channels, i + 1);
            }
            return Err(e);
        }
        if find_config(configs, i, configs[i].channel).is_some() {
            proof {
                lemma_fault_stays(configs@, channels, i + 1);
            }
            return Err("Duplicate channel configuration".to_owned());
        }
        i = i + 1;
    }
    assert(configs@.take(configs@.len() as int) =~= configs@);
    Ok(())
}

/// The first thing that keeps an adapter from starting.
pub open spec fn start_fault(
    active: bool,
    devices: Seq<Device>,
    index: i32,
    channels: u8,
    configs: Seq<ChannelConfig>,
) -> Option<Seq<char>> {
    if active {
        Some("Disconnect CAN before changing configuration"@)
    } else if !(channels == 1 || channels == 2 || channels == 4) || configs.len() == 0 {
        Some("Select an adapter model and at least one channel"@)
    } else if configs_fault(configs, channels) is Some {
        configs_fault(configs, channels)
    } else if first(devices, device_at(index)) is None {
        Some("Scan and select a CAN adapter first"@)
    } else {
        None
    }
}

/// The place of the adapter to start, or what keeps it from starting.
pub fn check_start(
    active: bool,
    devices: &Vec<Device>,
    index: i32,
    channels: u8,
    configs: &Vec<ChannelConfig>,
) -> (r: Result<usize, String>)
    ensures
        match start_fault(active, devices@, index, channels, configs@) {
            None => r matches Ok(i) && first(devices@, device_at(index)) == Some(i as int),
            Some(text) => r matches Err(e) && e@ == text,
        },
{
    if active {
        return Err("Disconnect CAN before changing configuration".to_owned());
    }
    if !(channels == 1 || channels == 2 || channels == 4) || configs.len() == 0 {
        return Err("Select an adapter model and at least one channel".to_owned());
    }
    if let Err(e) = check_configs(configs, channels) {
        return Err(e);
    }
    let mut i: usize = 0;
    while i < devices.len()
        invariant
            i <= devices@.len(),
            start_fault(active, devices@, index, channels, configs@) == (if first(
                devices@,
                device_at(index),
            ) is None {
                Some("Scan and select a CAN adapter first"@)
            } else {
                None
            }),
            forall|k: int| 0 <= k < i ==> !device_at(index)(#[trigger] devices@[k]),
        decreases devices@.len() - i,
    {
        if devices[i].index == index {
            proof {
                lemma_first_is(devices@, device_at(index), i as int);
            }
            return Ok(i);
        }
        i = i + 1;
    }
    proof {
        lemma_first_none(devices@, device_at(index));
    }
    Err("Scan and select a CAN adapter first".to_owned())
}

/// One thing to ask of the adapter while it starts.
#[derive(Copy, Clone, Debug)]
pub enum Setup {
    /// Timing commands need the channel enabled before them
    Enable { channel: u8 },
    /// Segment by segment; a classic channel's data phase is its arbitration
    Timing { channel: u8, fd: bool, arbitration: Timing, data: Timing },
    Baudrate {
        channel: u8,
        fd: bool,
        arbitration_bitrate: u32,
        data_bitrate: u32,
        arbitration_sample_point: u32,
        data_sample_point: u32,
    },
}

impl ChannelConfig {
    /// How the channel's timing is set.
    pub open spec fn spec_timing_setup(self) -> Setup {
        match self.arbitration_timing {
            Some(t) => Setup::Timing {
                channel: self.channel,
                fd: self.fd,
                arbitration: t,
                data: match self.data_timing {
                    Some(d) => d,
                    None => t,
                },
            },
            None => Setup::Baudrate {
                channel: self.channel,
                fd: self.fd,
                arbitration_bitrate: self.arbitration_bitrate,
                data_bitrate: self.data_bitrate,
                arbitration_sample_point: self.arbitration_sample_point,
                data_sample_point: self.data_sample_point,
            },
        }
    }

    fn timing_setup(&self) -> (r: Setup)
        ensures
            r == self.spec_timing_setup(),
    {
        match self.arbitration_timing {
            Some(t) => Setup::Timing {
                channel: self.channel,
                fd: self.fd,
                arbitration: t,
                data: match self.data_timing {
                    Some(d) => d,
                    None => t,
                },
            },
            None => Setup::Baudrate {
                channel: self.channel,
                fd: self.fd,
                arbitration_bitrate: self.arbitration_bitrate,
                data_bitrate: self.data_bitrate,
                arbitration_sample_point: self.arbitration_sample_point,
                data_sample_point: self.data_sample_point,
            },
        }
    }
}

/// What to ask of the adapter, channel by channel: to enable it, then its timing.
pub open spec fn setups(configs: Seq<ChannelConfig>) -> Seq<Setup>
    decreases configs.len(),
{
    if configs.len() == 0 {
        Seq::empty()
    } else {
        setups(configs.drop_last()).push(
            Setup::Enable { channel: configs.last().channel },
        ).push(configs.last().spec_timing_setup())
    }
}

/// What to ask of the adapter while it starts, in order.
pub fn plan_setup(configs: &Vec<ChannelConfig>) -> (r: Vec<Setup>)
    ensures
        r@ == setups(configs@),
{
    let mut out: Vec<Setup> = Vec::new();
    let mut i: usize = 0;
    assert(configs@.take(0) =~= Seq::<ChannelConfig>::empty());
    while i < configs.len()
        invariant
            i <= configs@.len(),
            out@ == setups(configs@.take(i as int)),
        decreases configs@.len() - i,
    {
        proof {
            assert(configs@.take(i + 1).drop_last() =~= configs@.take(i as int));
            assert(configs@.take(i + 1).last() == configs@[i as int]);
        }
        out.push(Setup::Enable { channel: configs[i].channel });
        out.push(configs[i].timing_setup());
        i = i + 1;
    }
    assert(configs@.take(configs@.len() as int) =~= configs@);
    out
}

impl Setup {
    /// What the user hears when the adapter refuses.
    pub open spec fn refused(self) -> Seq<char> {
        match self {
            Setup::Enable { channel } => "Cannot enable channel "@ + decimal(channel as nat),
            Setup::Timing { channel, .. } => "Adapter rejected timing for channel "@ + decimal(
                channel as nat,
            ),
            Setup::Baudrate { channel, .. } => "Adapter rejected timing for channel "@ + decimal(
                channel as nat,
            ),
        }
    }

    /// What the user hears when the adapter refuses.
    pub fn refusal(&self) -> (r: String)
        ensures
            r@ == self.refused(),
    {
        let (text, channel): (&str, u8) = match self {
            Setup::Enable { channel } => ("Cannot enable channel ", *channel),
            Setup::Timing { channel, .. } => ("Adapter rejected timing for channel ", *channel),
            Setup::Baudrate { channel, .. } => ("Adapter rejected timing for channel ", *channel),
        };
        let mut out: String = text.to_owned();
        push_decimal(&mut out, channel as u64);
        out
    }
}

/// The first thing that keeps a frame from being sent.
pub open spec fn send_fault(frame: Transmit, active: bool, enabled: Seq<ChannelConfig>) -> Option<
    Seq<char>,
> {
    if frame.fault() is Some {
        frame.fault()
    } else if !active {
        Some("CAN is disconnected"@)
    } else {
        match first(enabled, config_for(frame.channel)) {
            None => Some("Channel is not enabled"@),
            Some(i) => if frame.fd && !enabled[i].fd {
                Some("CAN FD is not enabled on this channel"@)
            } else {
                None
            },
        }
    }
}

/// Whether a frame may be sent on the channels that are enabled.
pub fn check_send(frame: &Transmit, active: bool, enabled: &Vec<ChannelConfig>) -> (r: Result<
    (),
    String,
>)
    ensures
        match send_fault(*frame, active, enabled@) {
            None => r is Ok,
            Some(text) => r matches Err(e) && e@ == text,
        },
{
    if let Err(e) = frame.validate() {
        return Err(e);
    }
    if !active {
        return Err("CAN is disconnected".to_owned());
    }
    assert(enabled@.take(enabled@.len() as int) =~= enabled@);
    match find_config(enabled, enabled.len(), frame.channel) {
        None => Err("Channel is not enabled".to_owned()),
        Some(i) => if frame.fd && !enabled[i].fd {
            Err("CAN FD is not enabled on this channel".to_owned())
        } else {
            Ok(())
        },
    }
}

/// Settings that can be used name each channel once, and each is fit for itself.
pub proof fn lemma_good_configs(configs: Seq<ChannelConfig>, channels: u8)
    requires
        configs_fault(configs, channels) is None,
    ensures
        forall|i: int| 0 <= i < configs.len() ==> (#[trigger] configs[i]).fault(channels) is None,
        forall|i: int, j: int|
            0 <= i < j < configs.len() ==> (#[trigger] configs[i]).channel != (
            #[trigger] configs[j]).channel,
    decreases configs.len(),
{
    if configs.len() > 0 {
        let before = configs.drop_last();
        lemma_good_configs(before, channels);
        let last = configs.last();
        crate::search::lemma_first(before, config_for(last.channel));
        assert forall|i: int| 0 <= i < configs.len() implies (#[trigger] configs[i]).fault(
            channels,
        ) is None by {
            if i < before.len() {
                assert(before[i] == configs[i]);
            }
        }
        assert forall|i: int, j: int| 0 <= i < j < configs.len() implies (
        #[trigger] configs[i]).channel != (#[trigger] configs[j]).channel by {
            assert(before[i] == configs[i]);
            assert(!config_for(last.channel)(before[i]));
            if j < before.len() {
                assert(before[j] == configs[j]);
            }
        }
    }
}

} // verus!
