//! The frame reader: accumulates bytes as they are read and extracts at most one frame
//! per call.
use vstd::prelude::*;
use vstd::slice::{slice_subrange, slice_to_vec};
use crate::checksum::{crc16, lemma_crc_detects_bit_flip};
use crate::codec::{
    FrameParse, codec_supported, gps_in_range, parse_frame, parse_payload, parse_record,
    parse_records,
};
use crate::decode::decode_frame;
use crate::protocol::{AVLPacket, GateError, RecordView};
use crate::wire::{append_bytes, be_value, take_int};

verus! {

/// No valid frame is shorter than this.
pub const SMALLEST_AVL_SIZE: usize = 45;

/// Largest record that one device family sends.
pub const MAX_AVL_RECORD_SIZE_FM6XXX: usize = 255;

/// Largest frame that one device family sends.
pub const MAX_AVL_PACKET_SIZE_FM6XXX: usize = 512;

/// Largest frame of any device family; sizes the read buffer.
pub const LARGEST_AVL_SIZE: usize = 1280;

/// One read handed to a reader holding `buffered`: the bytes it holds afterwards and
/// what it reports. An incomplete frame keeps every byte, a malformed one discards
/// all of them, and a complete one consumes exactly its own.
pub open spec fn ingest(buffered: Seq<u8>, bytes: Seq<u8>) -> (Seq<u8>, FrameParse) {
    let all = buffered + bytes;
    match parse_frame(all) {
        FrameParse::Incomplete => (all, FrameParse::Incomplete),
        FrameParse::Malformed => (Seq::empty(), FrameParse::Malformed),
        FrameParse::Complete(pv, n) => (all.skip(n as int), FrameParse::Complete(pv, n)),
    }
}

/// Reads handed to a reader holding `buffered`, one call per chunk: the bytes it holds
/// afterwards and what each call reports.
pub open spec fn feed(buffered: Seq<u8>, chunks: Seq<Seq<u8>>) -> (Seq<u8>, Seq<FrameParse>)
    decreases chunks.len(),
{
    if chunks.len() == 0 {
        (buffered, Seq::empty())
    } else {
        let (held, reports) = feed(buffered, chunks.drop_last());
        let (after, report) = ingest(held, chunks.last());
        (after, reports.push(report))
    }
}

/// The chunks laid end to end.
pub open spec fn concat(chunks: Seq<Seq<u8>>) -> Seq<u8>
    decreases chunks.len(),
{
    if chunks.len() == 0 {
        Seq::empty()
    } else {
        concat(chunks.drop_last()) + chunks.last()
    }
}

/// Accumulates a device's byte stream and cuts it into frames.
pub struct Parser {
    buffer: Vec<u8>,
}

impl View for Parser {
    type V = Seq<u8>;

    /// The bytes received and not yet consumed.
    closed spec fn view(&self) -> Seq<u8> {
        self.buffer@
    }
}

impl Parser {
    pub fn new() -> (r: Self)
        ensures
            r@ == Seq::<u8>::empty(),
    {
        Parser { buffer: Vec::with_capacity(LARGEST_AVL_SIZE) }
    }

    /// Takes in freshly read `bytes` and tries to extract one frame from the front of
    /// everything buffered. `Ok(None)`: more bytes are needed, and all are kept.
    /// `Ok(Some(packet))`: the frame's bytes are consumed and any bytes after it are
    /// kept. `Err(MalformedFrame)`: the whole buffer is discarded.
    pub fn parse_stream(&mut self, bytes: &[u8]) -> (r: Result<Option<AVLPacket>, GateError>)
        ensures
            final(self)@ == ingest(old(self)@, bytes@).0,
            match ingest(old(self)@, bytes@).1 {
                FrameParse::Incomplete => r == Ok::<Option<AVLPacket>, GateError>(None),
                FrameParse::Malformed => r == Err::<Option<AVLPacket>, GateError>(
                    GateError::MalformedFrame,
                ),
                FrameParse::Complete(pv, _) => match r {
                    Ok(Some(p)) => p@ == pv,
                    _ => false,
                },
            },
    {
        append_bytes(&mut self.buffer, bytes);
        match decode_frame(self.buffer.as_slice()) {
            Ok(None) => Ok(None),
            Ok(Some((packet, span))) => {
                let rest = slice_to_vec(
                    slice_subrange(self.buffer.as_slice(), span, self.buffer.len()),
                );
                proof {
                    assert(rest@ =~= self.buffer@.skip(span as int));
                }
                self.buffer = rest;
                Ok(Some(packet))
            },
            Err(e) => {
                self.buffer = Vec::new();
                Err(e)
            },
        }
    }
}

proof fn lemma_u32_field(a: Seq<u8>, b: Seq<u8>, at: int)
    requires
        0 <= at,
        at + 4 <= a.len(),
        at + 4 <= b.len(),
        forall|k: int| at <= k < at + 4 ==> a[k] == b[k],
    ensures
        take_int::<u32>(a.skip(at)).unwrap().0 == take_int::<u32>(b.skip(at)).unwrap().0,
{
    assert(a.skip(at).take(4) =~= a.subrange(at, at + 4));
    assert(b.skip(at).take(4) =~= b.subrange(at, at + 4));
    assert(a.subrange(at, at + 4) =~= b.subrange(at, at + 4));
}

/// What a frame decodes to depends on its own bytes only: bytes after it change
/// nothing.
pub proof fn lemma_frame_ignores_trailing_bytes(buf: Seq<u8>, rest: Seq<u8>)
    requires
        parse_frame(buf) is Complete,
    ensures
        parse_frame(buf + rest) == parse_frame(buf),
{
    let all = buf + rest;
    assert(buf.skip(0) =~= buf);
    assert(all.skip(0) =~= all);
    lemma_u32_field(buf, all, 0);
    lemma_u32_field(buf, all, 4);
    let dlen = take_int::<u32>(buf.skip(4)).unwrap().0;
    lemma_u32_field(buf, all, 8 + dlen);
    assert(all.subrange(8, 8 + dlen) =~= buf.subrange(8, 8 + dlen));
}

/// A reader holding only part of a frame, however the frame was cut, waits for more
/// bytes: every proper prefix of a frame is incomplete.
pub proof fn lemma_frame_prefix_incomplete(buf: Seq<u8>, cut: int)
    requires
        parse_frame(buf) is Complete,
        0 <= cut < parse_frame(buf)->Complete_1,
    ensures
        parse_frame(buf.take(cut)) == FrameParse::Incomplete,
{
    let part = buf.take(cut);
    assert(buf.skip(0) =~= buf);
    assert(part.skip(0) =~= part);
    if cut >= 4 {
        lemma_u32_field(buf, part, 0);
    }
    if cut >= 8 {
        lemma_u32_field(buf, part, 4);
    }
}

proof fn lemma_feed_prefix(frame: Seq<u8>, chunks: Seq<Seq<u8>>)
    requires
        parse_frame(frame) is Complete,
        parse_frame(frame)->Complete_1 == frame.len(),
        concat(chunks).len() < frame.len(),
        frame.take(concat(chunks).len() as int) == concat(chunks),
    ensures
        feed(Seq::empty(), chunks).0 == concat(chunks),
        forall|i: int| 0 <= i < chunks.len() ==> #[trigger] feed(Seq::empty(), chunks).1[i]
            == FrameParse::Incomplete,
        feed(Seq::empty(), chunks).1.len() == chunks.len(),
    decreases chunks.len(),
{
    if chunks.len() > 0 {
        let front = chunks.drop_last();
        let c = concat(chunks);
        let f = concat(front);
        assert(c.take(f.len() as int) =~= f);
        assert(frame.take(f.len() as int) =~= c.take(f.len() as int));
        lemma_feed_prefix(frame, front);
        lemma_frame_prefix_incomplete(frame, c.len() as int);
        let reports = feed(Seq::<u8>::empty(), chunks).1;
        assert forall|i: int| 0 <= i < chunks.len() implies #[trigger] reports[i]
            == FrameParse::Incomplete by {
            if i < front.len() {
                assert(reports[i] == feed(Seq::<u8>::empty(), front).1[i]);
            }
        }
    } else {
        assert(feed(Seq::<u8>::empty(), chunks).0 =~= Seq::<u8>::empty());
    }
}

/// Feeding the bytes of one frame to a fresh reader in pieces of any sizes, one call
/// per piece, gives the same packet as feeding them in one call: every call before the
/// one that completes the frame reports it incomplete, that call reports the frame as
/// decoded whole, and the reader then holds exactly the bytes that followed the frame.
pub proof fn lemma_fragmentation_independent(frame: Seq<u8>, chunks: Seq<Seq<u8>>, rest: Seq<u8>)
    requires
        parse_frame(frame) is Complete,
        parse_frame(frame)->Complete_1 == frame.len(),
        chunks.len() > 0,
        concat(chunks) == frame + rest,
        concat(chunks.drop_last()).len() < frame.len(),
    ensures
        feed(Seq::empty(), chunks).1.len() == chunks.len(),
        forall|i: int| 0 <= i < chunks.len() - 1 ==> #[trigger] feed(Seq::empty(), chunks).1[i]
            == FrameParse::Incomplete,
        feed(Seq::empty(), chunks).1.last() == parse_frame(frame),
        feed(Seq::empty(), chunks).0 == rest,
{
    let front = chunks.drop_last();
    let f = concat(front);
    let c = concat(chunks);
    assert(c.take(f.len() as int) =~= f);
    assert(frame.take(f.len() as int) =~= c.take(f.len() as int));
    lemma_feed_prefix(frame, front);
    lemma_frame_ignores_trailing_bytes(frame, rest);
    assert(f + chunks.last() == frame + rest);
    assert((frame + rest).skip(frame.len() as int) =~= rest);
    let reports = feed(Seq::<u8>::empty(), chunks).1;
    assert forall|i: int| 0 <= i < chunks.len() - 1 implies #[trigger] reports[i]
        == FrameParse::Incomplete by {
        assert(reports[i] == feed(Seq::<u8>::empty(), front).1[i]);
    }
}

/// Flipping any single bit of a valid frame's payload makes the frame malformed.
pub proof fn lemma_bit_flip_rejected(buf: Seq<u8>, i: int, bit: u8)
    requires
        parse_frame(buf) is Complete,
        8 <= i < parse_frame(buf)->Complete_1 - 4,
        bit < 8,
    ensures
        parse_frame(buf.update(i, buf[i] ^ (1u8 << bit))) == FrameParse::Malformed,
{
    let flipped = buf.update(i, buf[i] ^ (1u8 << bit));
    assert(buf.skip(0) =~= buf);
    assert(flipped.skip(0) =~= flipped);
    lemma_u32_field(buf, flipped, 0);
    lemma_u32_field(buf, flipped, 4);
    let dlen = take_int::<u32>(buf.skip(4)).unwrap().0;
    lemma_u32_field(buf, flipped, 8 + dlen);
    let payload = buf.subrange(8, 8 + dlen);
    assert(flipped.subrange(8, 8 + dlen) =~= payload.update(i - 8, payload[i - 8] ^ (1u8 << bit)));
    lemma_crc_detects_bit_flip(payload, i - 8, bit);
    let c1 = crc16(payload);
    let c2 = crc16(flipped.subrange(8, 8 + dlen));
    assert(c1 != c2 ==> c1 as u32 != c2 as u32);
}

/// A frame whose record-set identifier has no decoding never decodes.
pub proof fn lemma_unsupported_codec_rejected(buf: Seq<u8>)
    requires
        buf.len() > 8,
        !codec_supported(buf[8]),
    ensures
        !(parse_frame(buf) is Complete),
{
    reveal(parse_payload);
    if parse_frame(buf) is Complete {
        let dlen = take_int::<u32>(buf.skip(4)).unwrap().0;
        let payload = buf.subrange(8, 8 + dlen);
        assert(parse_payload(payload) is Some);
        assert(payload.take(1) =~= seq![buf[8]]);
        let one = seq![buf[8]];
        assert(one.drop_last() =~= Seq::<u8>::empty());
        assert(be_value(one.drop_last()) == 0);
        assert(be_value(one) == buf[8] as nat);
    }
}

/// A record carries a non-zero timestamp and a GPS fix within range.
pub open spec fn record_checked(r: RecordView) -> bool {
    r.timestamp != 0 && gps_in_range(r.gps)
}

proof fn lemma_parsed_records_checked(s: Seq<u8>, codec: u8, n: nat)
    ensures
        parse_records(s, codec, n) matches Some((recs, _)) ==> forall|i: int|
            0 <= i < recs.len() ==> record_checked(#[trigger] recs[i]),
    decreases n,
{
    reveal(parse_record);
    if n > 0 {
        lemma_parsed_records_checked(s, codec, (n - 1) as nat);
        match parse_records(s, codec, (n - 1) as nat) {
            Some((rs, rest)) => match parse_record(rest, codec) {
                Some((r, _)) => {
                    let recs = rs.push(r);
                    assert forall|i: int| 0 <= i < recs.len() implies record_checked(
                        #[trigger] recs[i],
                    ) by {
                        if i < rs.len() {
                            assert(recs[i] == rs[i]);
                        }
                    }
                },
                None => {},
            },
            None => {},
        }
    }
}

/// Every record of a decoded frame has a non-zero timestamp, a longitude within
/// ±180·10⁵ and a latitude within ±90·10⁵: a record outside these bounds is never
/// accepted.
pub proof fn lemma_decoded_records_in_range(buf: Seq<u8>)
    requires
        parse_frame(buf) is Complete,
    ensures
        forall|i: int|
            0 <= i < parse_frame(buf)->Complete_0.avl_data.len() ==> record_checked(
                #[trigger] parse_frame(buf)->Complete_0.avl_data[i],
            ),
{
    reveal(parse_payload);
    let dlen = take_int::<u32>(buf.skip(4)).unwrap().0;
    let payload = buf.subrange(8, 8 + dlen);
    let s2 = payload.skip(1).skip(1);
    let codec = take_int::<u8>(payload).unwrap().0;
    let n1 = take_int::<u8>(payload.skip(1)).unwrap().0;
    lemma_parsed_records_checked(s2, codec, n1 as nat);
}

} // verus!
