//! The telemetry data model: packets, records, GPS fixes and IO-element groups,
//! each with its mathematical view.
use vstd::prelude::*;

verus! {

/// Record-set identifier of the standard IO shape.
pub const CODEC_8: u8 = 0x08;

/// Record-set identifier of the extended IO shape.
pub const CODEC_8_EXTENDED: u8 = 0x8E;

/// Record-set identifier of the third IO shape, which is declared but not decoded.
pub const CODEC_16: u8 = 0x10;

/// Why the gateway refused input.
#[derive(Clone, Copy, Debug, PartialEq, Eq, Structural)]
pub enum GateError {
    /// The buffered bytes cannot begin a valid frame: bad preamble, unsupported
    /// record-set identifier, out-of-range GPS value, zero timestamp, a field running
    /// past the payload, mismatched record counts or payload length, or a checksum
    /// mismatch.
    MalformedFrame,
}

/// A GPS fix. Longitude and latitude are fixed-point, in units of 1e-5 degree.
#[derive(Clone, Copy, Debug, PartialEq, Eq, Structural)]
pub struct GPSElement {
    pub longitude: i32,
    pub latitude: i32,
    pub altitude: i16,
    pub angle: i16,
    pub satellites: u8,
    pub speed: i16,
}

/// IO elements of the standard shape: one-byte ids and counts.
#[derive(Clone, Debug, PartialEq)]
pub struct IOElement8 {
    pub event_io_id: u8,
    pub n_total_io: u8,
    pub n1_of_one_byte: u8,
    pub one_byte_ios: Vec<(u8, u8)>,
    pub n2_of_two_bytes: u8,
    pub two_byte_ios: Vec<(u8, u16)>,
    pub n4_of_four_bytes: u8,
    pub four_byte_ios: Vec<(u8, u32)>,
    pub n8_of_eight_bytes: u8,
    pub eight_byte_ios: Vec<(u8, u64)>,
}

/// IO elements of the extended shape: two-byte ids and counts, plus a bucket of
/// variable-length values `(id, length, value)`.
#[derive(Clone, Debug, PartialEq)]
pub struct IOElement8Extended {
    pub event_io_id: u16,
    pub n_total_io: u16,
    pub n1_of_one_byte: u16,
    pub one_byte_ios: Vec<(u16, u8)>,
    pub n2_of_two_bytes: u16,
    pub two_byte_ios: Vec<(u16, u16)>,
    pub n4_of_four_bytes: u16,
    pub four_byte_ios: Vec<(u16, u32)>,
    pub n8_of_eight_bytes: u16,
    pub eight_byte_ios: Vec<(u16, u64)>,
    pub nx_of_var_bytes: u16,
    pub var_byte_ios: Vec<(u16, u16, Vec<u8>)>,
}

/// IO elements of the third shape: two-byte ids, one-byte counts and a generation type.
#[derive(Clone, Debug, PartialEq)]
pub struct IOElement16 {
    pub event_io_id: u16,
    pub generation_type: u8,
    pub n_total_io: u8,
    pub n1_of_one_byte: u8,
    pub one_byte_ios: Vec<(u16, u8)>,
    pub n2_of_two_bytes: u8,
    pub two_byte_ios: Vec<(u16, u16)>,
    pub n4_of_four_bytes: u8,
    pub four_byte_ios: Vec<(u16, u32)>,
    pub n8_of_eight_bytes: u8,
    pub eight_byte_ios: Vec<(u16, u64)>,
}

/// The IO-element group of a record, by shape.
#[derive(Clone, Debug, PartialEq)]
pub enum IOElement {
    Codec8(IOElement8),
    Codec8Extended(IOElement8Extended),
    Codec16(IOElement16),
}

/// One timestamped telemetry record.
#[derive(Clone, Debug, PartialEq)]
pub struct AVLData {
    pub timestamp: u64,
    pub priority: u8,
    pub gps: GPSElement,
    pub io: IOElement,
}

/// One frame of the wire protocol.
#[derive(Clone, Debug, PartialEq)]
pub struct AVLPacket {
    pub preamble: u32,
    pub data_length: u32,
    pub codec_id: u8,
    pub number_of_data1: u8,
    pub avl_data: Vec<AVLData>,
    pub number_of_data2: u8,
    pub crc16: u32,
}

/// A command frame sent to a device.
#[derive(Clone, Debug, PartialEq)]
pub struct Codec12CommandPacket {
    pub preamble: u32,
    pub data_length: u32,
    pub codec_id: u8,
    pub command_qty1: u8,
    pub command_type: u8,
    pub command_size: u32,
    pub command: Vec<u8>,
    pub command_qty2: u8,
    pub crc16: u32,
}

/// A device's response to a command frame.
#[derive(Clone, Debug, PartialEq)]
pub struct Codec12ResponsePacket {
    pub preamble: u32,
    pub data_length: u32,
    pub codec_id: u8,
    pub response_qty1: u8,
    pub response_type: u8,
    pub response_size: u32,
    pub response: Vec<u8>,
    pub response_qty2: u8,
    pub crc16: u32,
}

pub struct Io8View {
    pub event_io_id: u8,
    pub n_total_io: u8,
    pub n1_of_one_byte: u8,
    pub one_byte_ios: Seq<(u8, u8)>,
    pub n2_of_two_bytes: u8,
    pub two_byte_ios: Seq<(u8, u16)>,
    pub n4_of_four_bytes: u8,
    pub four_byte_ios: Seq<(u8, u32)>,
    pub n8_of_eight_bytes: u8,
    pub eight_byte_ios: Seq<(u8, u64)>,
}

pub struct Io8ExtView {
    pub event_io_id: u16,
    pub n_total_io: u16,
    pub n1_of_one_byte: u16,
    pub one_byte_ios: Seq<(u16, u8)>,
    pub n2_of_two_bytes: u16,
    pub two_byte_ios: Seq<(u16, u16)>,
    pub n4_of_four_bytes: u16,
    pub four_byte_ios: Seq<(u16, u32)>,
    pub n8_of_eight_bytes: u16,
    pub eight_byte_ios: Seq<(u16, u64)>,
    pub nx_of_var_bytes: u16,
    pub var_byte_ios: Seq<(u16, u16, Seq<u8>)>,
}

pub struct Io16View {
    pub event_io_id: u16,
    pub generation_type: u8,
    pub n_total_io: u8,
    pub n1_of_one_byte: u8,
    pub one_byte_ios: Seq<(u16, u8)>,
    pub n2_of_two_bytes: u8,
    pub two_byte_ios: Seq<(u16, u16)>,
    pub n4_of_four_bytes: u8,
    pub four_byte_ios: Seq<(u16, u32)>,
    pub n8_of_eight_bytes: u8,
    pub eight_byte_ios: Seq<(u16, u64)>,
}

pub enum IoView {
    Codec8(Io8View),
    Codec8Extended(Io8ExtView),
    Codec16(Io16View),
}

pub struct RecordView {
    pub timestamp: u64,
    pub priority: u8,
    pub gps: GPSElement,
    pub io: IoView,
}

pub struct PacketView {
    pub preamble: u32,
    pub data_length: u32,
    pub codec_id: u8,
    pub number_of_data1: u8,
    pub avl_data: Seq<RecordView>,
    pub number_of_data2: u8,
    pub crc16: u32,
}

impl View for IOElement8 {
    type V = Io8View;

    open spec fn view(&self) -> Io8View {
        Io8View {
            event_io_id: self.event_io_id,
            n_total_io: self.n_total_io,
            n1_of_one_byte: self.n1_of_one_byte,
            one_byte_ios: self.one_byte_ios@,
            n2_of_two_bytes: self.n2_of_two_bytes,
            two_byte_ios: self.two_byte_ios@,
            n4_of_four_bytes: self.n4_of_four_bytes,
            four_byte_ios: self.four_byte_ios@,
            n8_of_eight_bytes: self.n8_of_eight_bytes,
            eight_byte_ios: self.eight_byte_ios@,
        }
    }
}

/// The view of a variable-length element: its id, declared length and value bytes.
pub open spec fn var_entry_view(e: (u16, u16, Vec<u8>)) -> (u16, u16, Seq<u8>) {
    (e.0, e.1, e.2@)
}

pub open spec fn var_entries_view(v: Seq<(u16, u16, Vec<u8>)>) -> Seq<(u16, u16, Seq<u8>)> {
    v.map_values(|e: (u16, u16, Vec<u8>)| var_entry_view(e))
}

impl View for IOElement8Extended {
    type V = Io8ExtView;

    open spec fn view(&self) -> Io8ExtView {
        Io8ExtView {
            event_io_id: self.event_io_id,
            n_total_io: self.n_total_io,
            n1_of_one_byte: self.n1_of_one_byte,
            one_byte_ios: self.one_byte_ios@,
            n2_of_two_bytes: self.n2_of_two_bytes,
            two_byte_ios: self.two_byte_ios@,
            n4_of_four_bytes: self.n4_of_four_bytes,
            four_byte_ios: self.four_byte_ios@,
            n8_of_eight_bytes: self.n8_of_eight_bytes,
            eight_byte_ios: self.eight_byte_ios@,
            nx_of_var_bytes: self.nx_of_var_bytes,
            var_byte_ios: var_entries_view(self.var_byte_ios@),
        }
    }
}

impl View for IOElement16 {
    type V = Io16View;

    open spec fn view(&self) -> Io16View {
        Io16View {
            event_io_id: self.event_io_id,
            generation_type: self.generation_type,
            n_total_io: self.n_total_io,
            n1_of_one_byte: self.n1_of_one_byte,
            one_byte_ios: self.one_byte_ios@,
            n2_of_two_bytes: self.n2_of_two_bytes,
            two_byte_ios: self.two_byte_ios@,
            n4_of_four_bytes: self.n4_of_four_bytes,
            four_byte_ios: self.four_byte_ios@,
            n8_of_eight_bytes: self.n8_of_eight_bytes,
            eight_byte_ios: self.eight_byte_ios@,
        }
    }
}

impl View for IOElement {
    type V = IoView;

    open spec fn view(&self) -> IoView {
        match self {
            IOElement::Codec8(io) => IoView::Codec8(io@),
            IOElement::Codec8Extended(io) => IoView::Codec8Extended(io@),
            IOElement::Codec16(io) => IoView::Codec16(io@),
        }
    }
}

impl View for AVLData {
    type V = RecordView;

    open spec fn view(&self) -> RecordView {
        RecordView { timestamp: self.timestamp, priority: self.priority, gps: self.gps, io: self.io@ }
    }
}

pub open spec fn records_view(v: Seq<AVLData>) -> Seq<RecordView> {
    v.map_values(|d: AVLData| d@)
}

impl View for AVLPacket {
    type V = PacketView;

    open spec fn view(&self) -> PacketView {
        PacketView {
            preamble: self.preamble,
            data_length: self.data_length,
            codec_id: self.codec_id,
            number_of_data1: self.number_of_data1,
            avl_data: records_view(self.avl_data@),
            number_of_data2: self.number_of_data2,
            crc16: self.crc16,
        }
    }
}

/// The priority that decides where a packet is queued: that of its first record, else 0.
pub open spec fn packet_priority(p: AVLPacket) -> u8 {
    if p.avl_data@.len() > 0 {
        p.avl_data@[0].priority
    } else {
        0
    }
}

impl AVLPacket {
    /// The priority of the first record, or 0 when the packet carries none.
    pub fn priority(&self) -> (r: u8)
        ensures
            r == packet_priority(*self),
    {
        if self.avl_data.len() > 0 {
            self.avl_data[0].priority
        } else {
            0
        }
    }
}

} // verus!
