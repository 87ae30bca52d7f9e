//! The frame format: what a byte string decodes to, what a packet encodes to, and
//! the proof that decoding undoes encoding.
//!
//! Decoders read off the front of a byte string and return the value with the bytes
//! still unread, or `None` when the bytes do not form one.
use vstd::prelude::*;
use crate::checksum::crc16;
use crate::protocol::{
    CODEC_8, CODEC_8_EXTENDED, GPSElement, Io16View, Io8ExtView, Io8View, IoView, PacketView,
    RecordView,
};
use crate::wire::{WireInt, int_bytes, lemma_take_int, lemma_take_int_sound, take_int};

verus! {

/// Largest longitude magnitude, in 1e-5 degree.
pub const MAX_LONGITUDE: i32 = 18000000;

/// Largest latitude magnitude, in 1e-5 degree.
pub const MAX_LATITUDE: i32 = 9000000;

// ----- decoding -----

/// `count` pairs of an id and a value, one after the other.
pub open spec fn parse_pairs<I: WireInt, V: WireInt>(s: Seq<u8>, count: nat) -> Option<
    (Seq<(I, V)>, Seq<u8>),
>
    decreases count,
{
    if count == 0 {
        Some((Seq::empty(), s))
    } else {
        match parse_pairs::<I, V>(s, (count - 1) as nat) {
            None => None,
            Some((items, rest)) => match take_int::<I>(rest) {
                None => None,
                Some((id, r1)) => match take_int::<V>(r1) {
                    None => None,
                    Some((val, r2)) => Some((items.push((id, val)), r2)),
                },
            },
        }
    }
}

/// A bucket: its element count, then that many pairs.
pub open spec fn parse_bucket<C: WireInt, I: WireInt, V: WireInt>(s: Seq<u8>) -> Option<
    ((C, Seq<(I, V)>), Seq<u8>),
> {
    match take_int::<C>(s) {
        None => None,
        Some((n, r1)) => match parse_pairs::<I, V>(r1, n.to_wire()) {
            None => None,
            Some((items, r2)) => Some(((n, items), r2)),
        },
    }
}

/// `count` variable-length elements: a 2-byte id, a 2-byte length, then that many bytes.
pub open spec fn parse_var(s: Seq<u8>, count: nat) -> Option<(Seq<(u16, u16, Seq<u8>)>, Seq<u8>)>
    decreases count,
{
    if count == 0 {
        Some((Seq::empty(), s))
    } else {
        match parse_var(s, (count - 1) as nat) {
            None => None,
            Some((items, rest)) => match take_int::<u16>(rest) {
                None => None,
                Some((id, r1)) => match take_int::<u16>(r1) {
                    None => None,
                    Some((len, r2)) => if r2.len() >= len {
                        Some((items.push((id, len, r2.take(len as int))), r2.skip(len as int)))
                    } else {
                        None
                    },
                },
            },
        }
    }
}

#[verifier::opaque]
pub open spec fn parse_io8(s: Seq<u8>) -> Option<(Io8View, Seq<u8>)> {
    match take_int::<u8>(s) {
        None => None,
        Some((ev, s1)) => match take_int::<u8>(s1) {
            None => None,
            Some((tot, s2)) => match parse_bucket::<u8, u8, u8>(s2) {
                None => None,
                Some(((n1, b1), s3)) => match parse_bucket::<u8, u8, u16>(s3) {
                    None => None,
                    Some(((n2, b2), s4)) => match parse_bucket::<u8, u8, u32>(s4) {
                        None => None,
                        Some(((n4, b4), s5)) => match parse_bucket::<u8, u8, u64>(s5) {
                            None => None,
                            Some(((n8, b8), s6)) => Some(
                                (
                                    Io8View {
                                        event_io_id: ev,
                                        n_total_io: tot,
                                        n1_of_one_byte: n1,
                                        one_byte_ios: b1,
                                        n2_of_two_bytes: n2,
                                        two_byte_ios: b2,
                                        n4_of_four_bytes: n4,
                                        four_byte_ios: b4,
                                        n8_of_eight_bytes: n8,
                                        eight_byte_ios: b8,
                                    },
                                    s6,
                                ),
                            ),
                        },
                    },
                },
            },
        },
    }
}

#[verifier::opaque]
pub open spec fn parse_io8_ext(s: Seq<u8>) -> Option<(Io8ExtView, Seq<u8>)> {
    match take_int::<u16>(s) {
        None => None,
        Some((ev, s1)) => match take_int::<u16>(s1) {
            None => None,
            Some((tot, s2)) => match parse_bucket::<u16, u16, u8>(s2) {
                None => None,
                Some(((n1, b1), s3)) => match parse_bucket::<u16, u16, u16>(s3) {
                    None => None,
                    Some(((n2, b2), s4)) => match parse_bucket::<u16, u16, u32>(s4) {
                        None => None,
                        Some(((n4, b4), s5)) => match parse_bucket::<u16, u16, u64>(s5) {
                            None => None,
                            Some(((n8, b8), s6)) => match take_int::<u16>(s6) {
                                None => None,
                                Some((nx, s7)) => match parse_var(s7, nx as nat) {
                                    None => None,
                                    Some((bx, s8)) => Some(
                                        (
                                            Io8ExtView {
                                                event_io_id: ev,
                                                n_total_io: tot,
                                                n1_of_one_byte: n1,
                                                one_byte_ios: b1,
                                                n2_of_two_bytes: n2,
                                                two_byte_ios: b2,
                                                n4_of_four_bytes: n4,
                                                four_byte_ios: b4,
                                                n8_of_eight_bytes: n8,
                                                eight_byte_ios: b8,
                                                nx_of_var_bytes: nx,
                                                var_byte_ios: bx,
                                            },
                                            s8,
                                        ),
                                    ),
                                },
                            },
                        },
                    },
                },
            },
        },
    }
}

/// The IO-element group of the shape that the record-set identifier selects; the
/// third shape, like any other identifier, has no decoding.
pub open spec fn parse_io(s: Seq<u8>, codec: u8) -> Option<(IoView, Seq<u8>)> {
    if codec == CODEC_8 {
        match parse_io8(s) {
            None => None,
            Some((io, r)) => Some((IoView::Codec8(io), r)),
        }
    } else if codec == CODEC_8_EXTENDED {
        match parse_io8_ext(s) {
            None => None,
            Some((io, r)) => Some((IoView::Codec8Extended(io), r)),
        }
    } else {
        None
    }
}

#[verifier::opaque]
pub open spec fn parse_gps(s: Seq<u8>) -> Option<(GPSElement, Seq<u8>)> {
    match take_int::<i32>(s) {
        None => None,
        Some((lon, s1)) => match take_int::<i32>(s1) {
            None => None,
            Some((lat, s2)) => match take_int::<i16>(s2) {
                None => None,
                Some((alt, s3)) => match take_int::<i16>(s3) {
                    None => None,
                    Some((angle, s4)) => match take_int::<u8>(s4) {
                        None => None,
                        Some((sats, s5)) => match take_int::<i16>(s5) {
                            None => None,
                            Some((speed, s6)) => Some(
                                (
                                    GPSElement {
                                        longitude: lon,
                                        latitude: lat,
                                        altitude: alt,
                                        angle,
                                        satellites: sats,
                                        speed,
                                    },
                                    s6,
                                ),
                            ),
                        },
                    },
                },
            },
        },
    }
}

/// Longitude within ±180 degrees and latitude within ±90 degrees.
pub open spec fn gps_in_range(g: GPSElement) -> bool {
    -MAX_LONGITUDE <= g.longitude <= MAX_LONGITUDE && -MAX_LATITUDE <= g.latitude
        <= MAX_LATITUDE
}

/// One record: timestamp (non-zero), priority, GPS fix (in range), IO-element group.
#[verifier::opaque]
pub open spec fn parse_record(s: Seq<u8>, codec: u8) -> Option<(RecordView, Seq<u8>)> {
    match take_int::<u64>(s) {
        None => None,
        Some((ts, s1)) => match take_int::<u8>(s1) {
            None => None,
            Some((prio, s2)) => match parse_gps(s2) {
                None => None,
                Some((gps, s3)) => if ts == 0 || !gps_in_range(gps) {
                    None
                } else {
                    match parse_io(s3, codec) {
                        None => None,
                        Some((io, s4)) => Some(
                            (RecordView { timestamp: ts, priority: prio, gps, io }, s4),
                        ),
                    }
                },
            },
        },
    }
}

pub open spec fn parse_records(s: Seq<u8>, codec: u8, count: nat) -> Option<
    (Seq<RecordView>, Seq<u8>),
>
    decreases count,
{
    if count == 0 {
        Some((Seq::empty(), s))
    } else {
        match parse_records(s, codec, (count - 1) as nat) {
            None => None,
            Some((recs, rest)) => match parse_record(rest, codec) {
                None => None,
                Some((r, rest2)) => Some((recs.push(r), rest2)),
            },
        }
    }
}

/// Whether a record-set identifier has a decoding.
pub open spec fn codec_supported(codec: u8) -> bool {
    codec == CODEC_8 || codec == CODEC_8_EXTENDED
}

/// The whole payload: identifier, leading count, records, trailing count, and nothing
/// more. Gives `(codec, leading count, records, trailing count)`.
#[verifier::opaque]
pub open spec fn parse_payload(p: Seq<u8>) -> Option<(u8, u8, Seq<RecordView>, u8)> {
    match take_int::<u8>(p) {
        None => None,
        Some((codec, s1)) => if !codec_supported(codec) {
            None
        } else {
            match take_int::<u8>(s1) {
                None => None,
                Some((n1, s2)) => match parse_records(s2, codec, n1 as nat) {
                    None => None,
                    Some((recs, s3)) => match take_int::<u8>(s3) {
                        None => None,
                        Some((n2, s4)) => if n1 == n2 && s4.len() == 0 {
                            Some((codec, n1, recs, n2))
                        } else {
                            None
                        },
                    },
                },
            }
        },
    }
}

/// What the front of an accumulated buffer holds.
pub enum FrameParse {
    /// Too few bytes to decide: more must arrive.
    Incomplete,
    /// The bytes cannot begin a valid frame.
    Malformed,
    /// A valid frame, and the number of bytes it spans.
    Complete(PacketView, nat),
}

/// The frame at the front of `buf`: 4-byte preamble (zero), 4-byte payload length,
/// the payload, then a 4-byte frame checksum of the payload.
pub open spec fn parse_frame(buf: Seq<u8>) -> FrameParse {
    if buf.len() < 4 {
        FrameParse::Incomplete
    } else if take_int::<u32>(buf).unwrap().0 != 0 {
        FrameParse::Malformed
    } else if buf.len() < 8 {
        FrameParse::Incomplete
    } else {
        let dlen = take_int::<u32>(buf.skip(4)).unwrap().0;
        let total = 12 + dlen;
        if buf.len() < total {
            FrameParse::Incomplete
        } else {
            let payload = buf.subrange(8, 8 + dlen);
            let crc = take_int::<u32>(buf.skip(8 + dlen)).unwrap().0;
            match parse_payload(payload) {
                None => FrameParse::Malformed,
                Some((codec, n1, recs, n2)) => if crc != crc16(payload) as u32 {
                    FrameParse::Malformed
                } else {
                    FrameParse::Complete(
                        PacketView {
                            preamble: 0,
                            data_length: dlen,
                            codec_id: codec,
                            number_of_data1: n1,
                            avl_data: recs,
                            number_of_data2: n2,
                            crc16: crc,
                        },
                        total as nat,
                    )
                },
            }
        }
    }
}

// ----- encoding -----

pub open spec fn pairs_bytes<I: WireInt, V: WireInt>(items: Seq<(I, V)>) -> Seq<u8>
    decreases items.len(),
{
    if items.len() == 0 {
        Seq::empty()
    } else {
        pairs_bytes(items.drop_last()) + int_bytes(items.last().0) + int_bytes(items.last().1)
    }
}

pub open spec fn bucket_bytes<C: WireInt, I: WireInt, V: WireInt>(
    n: C,
    items: Seq<(I, V)>,
) -> Seq<u8> {
    int_bytes(n) + pairs_bytes(items)
}

pub open spec fn var_bytes(items: Seq<(u16, u16, Seq<u8>)>) -> Seq<u8>
    decreases items.len(),
{
    if items.len() == 0 {
        Seq::empty()
    } else {
        let e = items.last();
        var_bytes(items.drop_last()) + int_bytes(e.0) + int_bytes(e.1) + e.2
    }
}

pub open spec fn io8_bytes(io: Io8View) -> Seq<u8> {
    int_bytes(io.event_io_id) + int_bytes(io.n_total_io) + bucket_bytes(
        io.n1_of_one_byte,
        io.one_byte_ios,
    ) + bucket_bytes(io.n2_of_two_bytes, io.two_byte_ios) + bucket_bytes(
        io.n4_of_four_bytes,
        io.four_byte_ios,
    ) + bucket_bytes(io.n8_of_eight_bytes, io.eight_byte_ios)
}

pub open spec fn io8_ext_bytes(io: Io8ExtView) -> Seq<u8> {
    int_bytes(io.event_io_id) + int_bytes(io.n_total_io) + bucket_bytes(
        io.n1_of_one_byte,
        io.one_byte_ios,
    ) + bucket_bytes(io.n2_of_two_bytes, io.two_byte_ios) + bucket_bytes(
        io.n4_of_four_bytes,
        io.four_byte_ios,
    ) + bucket_bytes(io.n8_of_eight_bytes, io.eight_byte_ios) + int_bytes(io.nx_of_var_bytes)
        + var_bytes(io.var_byte_ios)
}

pub open spec fn io16_bytes(io: Io16View) -> Seq<u8> {
    int_bytes(io.event_io_id) + int_bytes(io.generation_type) + int_bytes(io.n_total_io)
        + bucket_bytes(io.n1_of_one_byte, io.one_byte_ios) + bucket_bytes(
        io.n2_of_two_bytes,
        io.two_byte_ios,
    ) + bucket_bytes(io.n4_of_four_bytes, io.four_byte_ios) + bucket_bytes(
        io.n8_of_eight_bytes,
        io.eight_byte_ios,
    )
}

pub open spec fn io_bytes(io: IoView) -> Seq<u8> {
    match io {
        IoView::Codec8(x) => io8_bytes(x),
        IoView::Codec8Extended(x) => io8_ext_bytes(x),
        IoView::Codec16(x) => io16_bytes(x),
    }
}

pub open spec fn gps_bytes(g: GPSElement) -> Seq<u8> {
    int_bytes(g.longitude) + int_bytes(g.latitude) + int_bytes(g.altitude) + int_bytes(g.angle)
        + int_bytes(g.satellites) + int_bytes(g.speed)
}

pub open spec fn record_bytes(r: RecordView) -> Seq<u8> {
    int_bytes(r.timestamp) + int_bytes(r.priority) + gps_bytes(r.gps) + io_bytes(r.io)
}

pub open spec fn records_bytes(recs: Seq<RecordView>) -> Seq<u8>
    decreases recs.len(),
{
    if recs.len() == 0 {
        Seq::empty()
    } else {
        records_bytes(recs.drop_last()) + record_bytes(recs.last())
    }
}

/// The bytes that the payload length and the checksum cover.
pub open spec fn payload_bytes(p: PacketView) -> Seq<u8> {
    int_bytes(p.codec_id) + int_bytes(p.number_of_data1) + records_bytes(p.avl_data) + int_bytes(
        p.number_of_data2,
    )
}

/// The frame for `p`, with the payload length and checksum computed from its payload.
pub open spec fn frame_bytes(p: PacketView) -> Seq<u8> {
    let payload = payload_bytes(p);
    int_bytes(p.preamble) + int_bytes(payload.len() as u32) + payload + int_bytes(
        crc16(payload) as u32,
    )
}

// ----- validity -----

pub open spec fn io8_valid(io: Io8View) -> bool {
    &&& io.n1_of_one_byte as nat == io.one_byte_ios.len()
    &&& io.n2_of_two_bytes as nat == io.two_byte_ios.len()
    &&& io.n4_of_four_bytes as nat == io.four_byte_ios.len()
    &&& io.n8_of_eight_bytes as nat == io.eight_byte_ios.len()
}

pub open spec fn var_valid(items: Seq<(u16, u16, Seq<u8>)>) -> bool {
    forall|i: int| 0 <= i < items.len() ==> #[trigger] items[i].1 as nat == items[i].2.len()
}

pub open spec fn io8_ext_valid(io: Io8ExtView) -> bool {
    &&& io.n1_of_one_byte as nat == io.one_byte_ios.len()
    &&& io.n2_of_two_bytes as nat == io.two_byte_ios.len()
    &&& io.n4_of_four_bytes as nat == io.four_byte_ios.len()
    &&& io.n8_of_eight_bytes as nat == io.eight_byte_ios.len()
    &&& io.nx_of_var_bytes as nat == io.var_byte_ios.len()
    &&& var_valid(io.var_byte_ios)
}

/// A record that decodes back from its bytes under record-set identifier `codec`.
pub open spec fn record_valid(r: RecordView, codec: u8) -> bool {
    &&& r.timestamp != 0
    &&& gps_in_range(r.gps)
    &&& match r.io {
        IoView::Codec8(x) => codec == CODEC_8 && io8_valid(x),
        IoView::Codec8Extended(x) => codec == CODEC_8_EXTENDED && io8_ext_valid(x),
        IoView::Codec16(_) => false,
    }
}

/// A validly constructed packet: zero preamble, a supported record-set identifier that
/// all records use, both counts equal to the number of records, every declared count
/// equal to what it counts, and the length and checksum fields equal to those of its
/// payload.
pub open spec fn packet_valid(p: PacketView) -> bool {
    &&& p.preamble == 0
    &&& codec_supported(p.codec_id)
    &&& p.number_of_data1 == p.number_of_data2
    &&& p.number_of_data1 as nat == p.avl_data.len()
    &&& forall|i: int| 0 <= i < p.avl_data.len() ==> record_valid(#[trigger] p.avl_data[i], p.codec_id)
    &&& p.data_length as nat == payload_bytes(p).len()
    &&& p.crc16 == crc16(payload_bytes(p)) as u32
}

// ----- decoding undoes encoding -----

pub proof fn lemma_pairs_round_trip<I: WireInt, V: WireInt>(items: Seq<(I, V)>, rest: Seq<u8>)
    ensures
        parse_pairs::<I, V>(pairs_bytes(items) + rest, items.len()) == Some((items, rest)),
    decreases items.len(),
{
    if items.len() > 0 {
        let e = items.last();
        let tail = int_bytes(e.1) + rest;
        lemma_pairs_round_trip::<I, V>(items.drop_last(), int_bytes(e.0) + tail);
        assert(pairs_bytes(items) + rest =~= pairs_bytes(items.drop_last()) + (int_bytes(e.0)
            + tail));
        lemma_take_int(e.0, tail);
        lemma_take_int(e.1, rest);
        assert(items.drop_last().push(e) =~= items);
    } else {
        assert(pairs_bytes(items) + rest =~= rest);
        assert(items =~= Seq::empty());
    }
}

pub proof fn lemma_bucket_round_trip<C: WireInt, I: WireInt, V: WireInt>(
    n: C,
    items: Seq<(I, V)>,
    rest: Seq<u8>,
)
    requires
        n.to_wire() == items.len(),
    ensures
        parse_bucket::<C, I, V>(bucket_bytes(n, items) + rest) == Some(((n, items), rest)),
{
    assert(bucket_bytes(n, items) + rest =~= int_bytes(n) + (pairs_bytes(items) + rest));
    lemma_take_int(n, pairs_bytes(items) + rest);
    lemma_pairs_round_trip::<I, V>(items, rest);
}

pub proof fn lemma_var_round_trip(items: Seq<(u16, u16, Seq<u8>)>, rest: Seq<u8>)
    requires
        var_valid(items),
    ensures
        parse_var(var_bytes(items) + rest, items.len()) == Some((items, rest)),
    decreases items.len(),
{
    if items.len() > 0 {
        let e = items.last();
        let t2 = e.2 + rest;
        let t1 = int_bytes(e.1) + t2;
        assert(var_valid(items.drop_last())) by {
            assert forall|i: int| 0 <= i < items.drop_last().len() implies #[trigger] items.drop_last()[i].1 as nat
                == items.drop_last()[i].2.len() by {
                assert(items.drop_last()[i] == items[i]);
            }
        }
        assert(e.1 as nat == e.2.len()) by {
            assert(items[items.len() - 1].1 as nat == items[items.len() - 1].2.len());
        }
        lemma_var_round_trip(items.drop_last(), int_bytes(e.0) + t1);
        assert(var_bytes(items) + rest =~= var_bytes(items.drop_last()) + (int_bytes(e.0) + t1));
        lemma_take_int(e.0, t1);
        lemma_take_int(e.1, t2);
        assert(t2.take(e.1 as int) =~= e.2);
        assert(t2.skip(e.1 as int) =~= rest);
        assert(items.drop_last().push(e) =~= items);
    } else {
        assert(var_bytes(items) + rest =~= rest);
        assert(items =~= Seq::empty());
    }
}

pub proof fn lemma_io8_round_trip(io: Io8View, rest: Seq<u8>)
    requires
        io8_valid(io),
    ensures
        parse_io8(io8_bytes(io) + rest) == Some((io, rest)),
{
    reveal(parse_io8);
    let b8 = bucket_bytes(io.n8_of_eight_bytes, io.eight_byte_ios) + rest;
    let b4 = bucket_bytes(io.n4_of_four_bytes, io.four_byte_ios) + b8;
    let b2 = bucket_bytes(io.n2_of_two_bytes, io.two_byte_ios) + b4;
    let b1 = bucket_bytes(io.n1_of_one_byte, io.one_byte_ios) + b2;
    let t = int_bytes(io.n_total_io) + b1;
    assert(io8_bytes(io) + rest =~= int_bytes(io.event_io_id) + t);
    lemma_take_int(io.event_io_id, t);
    lemma_take_int(io.n_total_io, b1);
    lemma_bucket_round_trip(io.n1_of_one_byte, io.one_byte_ios, b2);
    lemma_bucket_round_trip(io.n2_of_two_bytes, io.two_byte_ios, b4);
    lemma_bucket_round_trip(io.n4_of_four_bytes, io.four_byte_ios, b8);
    lemma_bucket_round_trip(io.n8_of_eight_bytes, io.eight_byte_ios, rest);
}

pub proof fn lemma_io8_ext_round_trip(io: Io8ExtView, rest: Seq<u8>)
    requires
        io8_ext_valid(io),
    ensures
        parse_io8_ext(io8_ext_bytes(io) + rest) == Some((io, rest)),
{
    reveal(parse_io8_ext);
    let bx = var_bytes(io.var_byte_ios) + rest;
    let nx = int_bytes(io.nx_of_var_bytes) + bx;
    let b8 = bucket_bytes(io.n8_of_eight_bytes, io.eight_byte_ios) + nx;
    let b4 = bucket_bytes(io.n4_of_four_bytes, io.four_byte_ios) + b8;
    let b2 = bucket_bytes(io.n2_of_two_bytes, io.two_byte_ios) + b4;
    let b1 = bucket_bytes(io.n1_of_one_byte, io.one_byte_ios) + b2;
    let t = int_bytes(io.n_total_io) + b1;
    assert(io8_ext_bytes(io) + rest =~= int_bytes(io.event_io_id) + t);
    lemma_take_int(io.event_io_id, t);
    lemma_take_int(io.n_total_io, b1);
    lemma_bucket_round_trip(io.n1_of_one_byte, io.one_byte_ios, b2);
    lemma_bucket_round_trip(io.n2_of_two_bytes, io.two_byte_ios, b4);
    lemma_bucket_round_trip(io.n4_of_four_bytes, io.four_byte_ios, b8);
    lemma_bucket_round_trip(io.n8_of_eight_bytes, io.eight_byte_ios, nx);
    lemma_take_int(io.nx_of_var_bytes, bx);
    lemma_var_round_trip(io.var_byte_ios, rest);
}

pub proof fn lemma_gps_round_trip(g: GPSElement, rest: Seq<u8>)
    ensures
        parse_gps(gps_bytes(g) + rest) == Some((g, rest)),
{
    reveal(parse_gps);
    let t5 = int_bytes(g.speed) + rest;
    let t4 = int_bytes(g.satellites) + t5;
    let t3 = int_bytes(g.angle) + t4;
    let t2 = int_bytes(g.altitude) + t3;
    let t1 = int_bytes(g.latitude) + t2;
    assert(gps_bytes(g) + rest =~= int_bytes(g.longitude) + t1);
    lemma_take_int(g.longitude, t1);
    lemma_take_int(g.latitude, t2);
    lemma_take_int(g.altitude, t3);
    lemma_take_int(g.angle, t4);
    lemma_take_int(g.satellites, t5);
    lemma_take_int(g.speed, rest);
}

pub proof fn lemma_record_round_trip(r: RecordView, codec: u8, rest: Seq<u8>)
    requires
        record_valid(r, codec),
    ensures
        parse_record(record_bytes(r) + rest, codec) == Some((r, rest)),
{
    reveal(parse_record);
    let t3 = io_bytes(r.io) + rest;
    let t2 = gps_bytes(r.gps) + t3;
    let t1 = int_bytes(r.priority) + t2;
    assert(record_bytes(r) + rest =~= int_bytes(r.timestamp) + t1);
    lemma_take_int(r.timestamp, t1);
    lemma_take_int(r.priority, t2);
    lemma_gps_round_trip(r.gps, t3);
    match r.io {
        IoView::Codec8(x) => lemma_io8_round_trip(x, rest),
        IoView::Codec8Extended(x) => lemma_io8_ext_round_trip(x, rest),
        IoView::Codec16(_) => {},
    }
}

pub proof fn lemma_records_round_trip(recs: Seq<RecordView>, codec: u8, rest: Seq<u8>)
    requires
        forall|i: int| 0 <= i < recs.len() ==> record_valid(#[trigger] recs[i], codec),
    ensures
        parse_records(records_bytes(recs) + rest, codec, recs.len()) == Some((recs, rest)),
    decreases recs.len(),
{
    if recs.len() > 0 {
        let last = recs.last();
        let t = record_bytes(last) + rest;
        assert forall|i: int| 0 <= i < recs.drop_last().len() implies record_valid(
            #[trigger] recs.drop_last()[i],
            codec,
        ) by {
            assert(recs.drop_last()[i] == recs[i]);
        }
        assert(record_valid(recs[recs.len() - 1], codec));
        lemma_records_round_trip(recs.drop_last(), codec, t);
        assert(records_bytes(recs) + rest =~= records_bytes(recs.drop_last()) + t);
        lemma_record_round_trip(last, codec, rest);
        assert(recs.drop_last().push(last) =~= recs);
    } else {
        assert(records_bytes(recs) + rest =~= rest);
        assert(recs =~= Seq::empty());
    }
}

pub proof fn lemma_payload_round_trip(p: PacketView)
    requires
        packet_valid(p),
    ensures
        parse_payload(payload_bytes(p)) == Some(
            (p.codec_id, p.number_of_data1, p.avl_data, p.number_of_data2),
        ),
{
    reveal(parse_payload);
    let empty = Seq::<u8>::empty();
    let t2 = int_bytes(p.number_of_data2) + empty;
    let t1 = records_bytes(p.avl_data) + t2;
    let t0 = int_bytes(p.number_of_data1) + t1;
    assert(payload_bytes(p) =~= int_bytes(p.codec_id) + t0);
    lemma_take_int(p.codec_id, t0);
    lemma_take_int(p.number_of_data1, t1);
    lemma_records_round_trip(p.avl_data, p.codec_id, t2);
    lemma_take_int(p.number_of_data2, empty);
}

/// Decoding the frame of a validly constructed packet, followed by any bytes, gives that
/// packet back, equal in every field, and spans exactly the frame.
pub proof fn lemma_frame_round_trip(p: PacketView, rest: Seq<u8>)
    requires
        packet_valid(p),
    ensures
        parse_frame(frame_bytes(p) + rest) == FrameParse::Complete(p, frame_bytes(p).len()),
{
    let payload = payload_bytes(p);
    let buf = frame_bytes(p) + rest;
    let crc_field = int_bytes(crc16(payload) as u32);
    let len_field = int_bytes(payload.len() as u32);
    lemma_take_int(p.preamble, len_field + payload + crc_field + rest);
    lemma_take_int(payload.len() as u32, payload + crc_field + rest);
    lemma_take_int(crc16(payload) as u32, rest);
    assert(buf =~= int_bytes(p.preamble) + (len_field + payload + crc_field + rest));
    assert(buf.skip(4) =~= len_field + (payload + crc_field + rest));
    assert(buf.subrange(8, 8 + payload.len() as int) =~= payload);
    assert(buf.skip(8 + payload.len() as int) =~= crc_field + rest);
    lemma_payload_round_trip(p);
}

// ----- what decodes was encoded -----

pub proof fn lemma_pairs_sound<I: WireInt, V: WireInt>(s: Seq<u8>, count: nat)
    requires
        parse_pairs::<I, V>(s, count) is Some,
    ensures
        ({
            let (items, rest) = parse_pairs::<I, V>(s, count).unwrap();
            s == pairs_bytes(items) + rest && items.len() == count
        }),
    decreases count,
{
    if count > 0 {
        let (items0, r0) = parse_pairs::<I, V>(s, (count - 1) as nat).unwrap();
        lemma_pairs_sound::<I, V>(s, (count - 1) as nat);
        lemma_take_int_sound::<I>(r0);
        let (id, r1) = take_int::<I>(r0).unwrap();
        lemma_take_int_sound::<V>(r1);
        let (val, r2) = take_int::<V>(r1).unwrap();
        let items = items0.push((id, val));
        assert(items.drop_last() =~= items0);
        assert(s =~= pairs_bytes(items) + r2);
    } else {
        assert(s =~= pairs_bytes(Seq::<(I, V)>::empty()) + s);
    }
}

pub proof fn lemma_bucket_sound<C: WireInt, I: WireInt, V: WireInt>(s: Seq<u8>)
    requires
        parse_bucket::<C, I, V>(s) is Some,
    ensures
        ({
            let ((n, items), rest) = parse_bucket::<C, I, V>(s).unwrap();
            s == bucket_bytes(n, items) + rest && n.to_wire() == items.len()
        }),
{
    lemma_take_int_sound::<C>(s);
    let (n, r1) = take_int::<C>(s).unwrap();
    lemma_pairs_sound::<I, V>(r1, n.to_wire());
    let (items, r2) = parse_pairs::<I, V>(r1, n.to_wire()).unwrap();
    assert(s =~= bucket_bytes(n, items) + r2);
}

pub proof fn lemma_var_sound(s: Seq<u8>, count: nat)
    requires
        parse_var(s, count) is Some,
    ensures
        ({
            let (items, rest) = parse_var(s, count).unwrap();
            s == var_bytes(items) + rest && items.len() == count && var_valid(items)
        }),
    decreases count,
{
    if count > 0 {
        let (items0, r0) = parse_var(s, (count - 1) as nat).unwrap();
        lemma_var_sound(s, (count - 1) as nat);
        lemma_take_int_sound::<u16>(r0);
        let (id, r1) = take_int::<u16>(r0).unwrap();
        lemma_take_int_sound::<u16>(r1);
        let (len, r2) = take_int::<u16>(r1).unwrap();
        let e = (id, len, r2.take(len as int));
        let items = items0.push(e);
        assert(items.drop_last() =~= items0);
        assert(r2 =~= r2.take(len as int) + r2.skip(len as int));
        assert(s =~= var_bytes(items) + r2.skip(len as int));
        assert forall|i: int| 0 <= i < items.len() implies #[trigger] items[i].1 as nat
            == items[i].2.len() by {
            if i < items0.len() {
                assert(items[i] == items0[i]);
            }
        }
    } else {
        assert(s =~= var_bytes(Seq::<(u16, u16, Seq<u8>)>::empty()) + s);
    }
}

pub proof fn lemma_io8_sound(s: Seq<u8>)
    requires
        parse_io8(s) is Some,
    ensures
        s == io8_bytes(parse_io8(s).unwrap().0) + parse_io8(s).unwrap().1,
        io8_valid(parse_io8(s).unwrap().0),
{
    reveal(parse_io8);
    lemma_take_int_sound::<u8>(s);
    let s1 = take_int::<u8>(s).unwrap().1;
    lemma_take_int_sound::<u8>(s1);
    let s2 = take_int::<u8>(s1).unwrap().1;
    lemma_bucket_sound::<u8, u8, u8>(s2);
    let s3 = parse_bucket::<u8, u8, u8>(s2).unwrap().1;
    lemma_bucket_sound::<u8, u8, u16>(s3);
    let s4 = parse_bucket::<u8, u8, u16>(s3).unwrap().1;
    lemma_bucket_sound::<u8, u8, u32>(s4);
    let s5 = parse_bucket::<u8, u8, u32>(s4).unwrap().1;
    lemma_bucket_sound::<u8, u8, u64>(s5);
    let (io, rest) = parse_io8(s).unwrap();
    assert(s =~= io8_bytes(io) + rest);
}

#[verifier::rlimit(60)]
pub proof fn lemma_io8_ext_sound(s: Seq<u8>)
    requires
        parse_io8_ext(s) is Some,
    ensures
        s == io8_ext_bytes(parse_io8_ext(s).unwrap().0) + parse_io8_ext(s).unwrap().1,
        io8_ext_valid(parse_io8_ext(s).unwrap().0),
{
    reveal(parse_io8_ext);
    lemma_take_int_sound::<u16>(s);
    let s1 = take_int::<u16>(s).unwrap().1;
    lemma_take_int_sound::<u16>(s1);
    let s2 = take_int::<u16>(s1).unwrap().1;
    lemma_bucket_sound::<u16, u16, u8>(s2);
    let s3 = parse_bucket::<u16, u16, u8>(s2).unwrap().1;
    lemma_bucket_sound::<u16, u16, u16>(s3);
    let s4 = parse_bucket::<u16, u16, u16>(s3).unwrap().1;
    lemma_bucket_sound::<u16, u16, u32>(s4);
    let s5 = parse_bucket::<u16, u16, u32>(s4).unwrap().1;
    lemma_bucket_sound::<u16, u16, u64>(s5);
    let s6 = parse_bucket::<u16, u16, u64>(s5).unwrap().1;
    lemma_take_int_sound::<u16>(s6);
    let (nx, s7) = take_int::<u16>(s6).unwrap();
    lemma_var_sound(s7, nx as nat);
    let (io, rest) = parse_io8_ext(s).unwrap();
    assert(s =~= io8_ext_bytes(io) + rest);
}

pub proof fn lemma_gps_sound(s: Seq<u8>)
    requires
        parse_gps(s) is Some,
    ensures
        s == gps_bytes(parse_gps(s).unwrap().0) + parse_gps(s).unwrap().1,
{
    reveal(parse_gps);
    lemma_take_int_sound::<i32>(s);
    let s1 = take_int::<i32>(s).unwrap().1;
    lemma_take_int_sound::<i32>(s1);
    let s2 = take_int::<i32>(s1).unwrap().1;
    lemma_take_int_sound::<i16>(s2);
    let s3 = take_int::<i16>(s2).unwrap().1;
    lemma_take_int_sound::<i16>(s3);
    let s4 = take_int::<i16>(s3).unwrap().1;
    lemma_take_int_sound::<u8>(s4);
    let s5 = take_int::<u8>(s4).unwrap().1;
    lemma_take_int_sound::<i16>(s5);
    let (g, rest) = parse_gps(s).unwrap();
    assert(s =~= gps_bytes(g) + rest);
}

pub proof fn lemma_record_sound(s: Seq<u8>, codec: u8)
    requires
        parse_record(s, codec) is Some,
    ensures
        s == record_bytes(parse_record(s, codec).unwrap().0) + parse_record(s, codec).unwrap().1,
        record_valid(parse_record(s, codec).unwrap().0, codec),
{
    reveal(parse_record);
    lemma_take_int_sound::<u64>(s);
    let s1 = take_int::<u64>(s).unwrap().1;
    lemma_take_int_sound::<u8>(s1);
    let s2 = take_int::<u8>(s1).unwrap().1;
    lemma_gps_sound(s2);
    let s3 = parse_gps(s2).unwrap().1;
    if codec == CODEC_8 {
        lemma_io8_sound(s3);
    } else {
        lemma_io8_ext_sound(s3);
    }
    let (r, rest) = parse_record(s, codec).unwrap();
    assert(s =~= record_bytes(r) + rest);
}

pub proof fn lemma_records_sound(s: Seq<u8>, codec: u8, count: nat)
    requires
        parse_records(s, codec, count) is Some,
    ensures
        ({
            let (recs, rest) = parse_records(s, codec, count).unwrap();
            &&& s == records_bytes(recs) + rest
            &&& recs.len() == count
            &&& forall|i: int| 0 <= i < recs.len() ==> record_valid(#[trigger] recs[i], codec)
        }),
    decreases count,
{
    if count > 0 {
        let (recs0, r0) = parse_records(s, codec, (count - 1) as nat).unwrap();
        lemma_records_sound(s, codec, (count - 1) as nat);
        lemma_record_sound(r0, codec);
        let (r, r1) = parse_record(r0, codec).unwrap();
        let recs = recs0.push(r);
        assert(recs.drop_last() =~= recs0);
        assert(s =~= records_bytes(recs) + r1);
        assert forall|i: int| 0 <= i < recs.len() implies record_valid(#[trigger] recs[i], codec) by {
            if i < recs0.len() {
                assert(recs[i] == recs0[i]);
            }
        }
    } else {
        assert(s =~= records_bytes(Seq::<RecordView>::empty()) + s);
    }
}

/// Whatever decodes as a frame is the frame of a validly constructed packet, and the
/// bytes it consumed are exactly that frame. With the round trip, a buffer decodes
/// as a frame exactly when it begins with the frame of a valid packet.
#[verifier::rlimit(60)]
pub proof fn lemma_decoded_frame_is_encoding(buf: Seq<u8>)
    requires
        parse_frame(buf) is Complete,
    ensures
        packet_valid(parse_frame(buf)->Complete_0),
        buf.take(parse_frame(buf)->Complete_1 as int) == frame_bytes(parse_frame(buf)->Complete_0),
{
    reveal(parse_payload);
    let pv = parse_frame(buf)->Complete_0;
    let n = parse_frame(buf)->Complete_1;
    let dlen = take_int::<u32>(buf.skip(4)).unwrap().0;
    let payload = buf.subrange(8, 8 + dlen);
    lemma_take_int_sound::<u32>(buf);
    lemma_take_int_sound::<u32>(buf.skip(4));
    lemma_take_int_sound::<u32>(buf.skip(8 + dlen));
    lemma_take_int_sound::<u8>(payload);
    let s1 = take_int::<u8>(payload).unwrap().1;
    lemma_take_int_sound::<u8>(s1);
    let s2 = take_int::<u8>(s1).unwrap().1;
    lemma_records_sound(s2, pv.codec_id, pv.number_of_data1 as nat);
    let s3 = parse_records(s2, pv.codec_id, pv.number_of_data1 as nat).unwrap().1;
    lemma_take_int_sound::<u8>(s3);
    assert(payload =~= payload_bytes(pv));
    let pre = take_int::<u32>(buf).unwrap().0;
    let crc = take_int::<u32>(buf.skip(8 + dlen)).unwrap().0;
    lemma_take_int(pre, Seq::empty());
    lemma_take_int(dlen, Seq::empty());
    lemma_take_int(crc, Seq::empty());
    assert(buf.subrange(0, 4) =~= buf.take(4));
    assert(buf.take(4) =~= int_bytes(pre));
    assert(buf.subrange(4, 8) =~= buf.skip(4).take(4));
    assert(buf.skip(4).take(4) =~= int_bytes(dlen));
    assert(buf.subrange(8 + dlen, 12 + dlen) =~= buf.skip(8 + dlen).take(4));
    assert(buf.skip(8 + dlen).take(4) =~= int_bytes(crc));
    assert(payload.len() as u32 == dlen);
    assert(buf.take(n as int) =~= buf.subrange(0, 4) + buf.subrange(4, 8) + payload
        + buf.subrange(8 + dlen, 12 + dlen));
}

} // verus!
