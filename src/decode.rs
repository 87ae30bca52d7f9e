//! Executable decoders. Each reads at a position of a byte slice and agrees with its
//! counterpart in `codec`: it returns what that one returns on the unread bytes, and
//! the position after them.
use vstd::prelude::*;
use vstd::slice::{slice_subrange, slice_to_vec};
use crate::checksum::calculate_crc;
use crate::codec::{
    FrameParse, MAX_LATITUDE, MAX_LONGITUDE, parse_bucket, parse_frame, parse_gps, parse_io8,
    parse_io8_ext, parse_pairs, parse_payload, parse_record, parse_records, parse_var,
};
use crate::protocol::{
    AVLData, AVLPacket, CODEC_8, CODEC_8_EXTENDED, GPSElement, GateError, IOElement, IOElement8,
    IOElement8Extended, records_view, var_entries_view, var_entry_view,
};
use crate::wire::{WireInt, moved_forward, read_int, unread};

verus! {

proof fn lemma_pairs_fail<I: WireInt, V: WireInt>(s: Seq<u8>, k: nat, n: nat)
    requires
        k <= n,
        parse_pairs::<I, V>(s, k) is None,
    ensures
        parse_pairs::<I, V>(s, n) is None,
    decreases n,
{
    if n > k {
        lemma_pairs_fail::<I, V>(s, k, (n - 1) as nat);
    }
}

proof fn lemma_var_fail(s: Seq<u8>, k: nat, n: nat)
    requires
        k <= n,
        parse_var(s, k) is None,
    ensures
        parse_var(s, n) is None,
    decreases n,
{
    if n > k {
        lemma_var_fail(s, k, (n - 1) as nat);
    }
}

proof fn lemma_records_fail(s: Seq<u8>, codec: u8, k: nat, n: nat)
    requires
        k <= n,
        parse_records(s, codec, k) is None,
    ensures
        parse_records(s, codec, n) is None,
    decreases n,
{
    if n > k {
        lemma_records_fail(s, codec, k, (n - 1) as nat);
    }
}

fn read_pairs<I: WireInt, V: WireInt>(s: &[u8], pos: usize, count: u64) -> (r: Option<
    (Vec<(I, V)>, usize),
>)
    requires
        pos <= s@.len(),
    ensures
        match r {
            Some((items, p)) => pos <= p <= s@.len() && parse_pairs::<I, V>(
                s@.skip(pos as int),
                count as nat,
            ) == Some((items@, s@.skip(p as int))),
            None => parse_pairs::<I, V>(s@.skip(pos as int), count as nat) is None,
        },
{
    let ghost s0 = s@.skip(pos as int);
    let mut items: Vec<(I, V)> = Vec::new();
    let mut p = pos;
    let mut i: u64 = 0;
    while i < count
        invariant
            pos <= p <= s@.len(),
            i <= count,
            s0 == s@.skip(pos as int),
            parse_pairs::<I, V>(s0, i as nat) == Some((items@, s@.skip(p as int))),
        decreases count - i,
    {
        let (id, p1) = match read_int::<I>(s, p) {
            Some(x) => x,
            None => {
                proof {
                    lemma_pairs_fail::<I, V>(s0, (i + 1) as nat, count as nat);
                }
                return None;
            },
        };
        let (val, p2) = match read_int::<V>(s, p1) {
            Some(x) => x,
            None => {
                proof {
                    lemma_pairs_fail::<I, V>(s0, (i + 1) as nat, count as nat);
                }
                return None;
            },
        };
        items.push((id, val));
        p = p2;
        i = i + 1;
    }
    Some((items, p))
}

fn read_bucket<C: WireInt, I: WireInt, V: WireInt>(s: &[u8], pos: usize) -> (r: Option<
    (C, Vec<(I, V)>, usize),
>)
    requires
        pos <= s@.len(),
    ensures
        match r {
            Some((n, items, p)) => pos <= p <= s@.len() && parse_bucket::<C, I, V>(
                s@.skip(pos as int),
            ) == Some(((n, items@), s@.skip(p as int))),
            None => parse_bucket::<C, I, V>(s@.skip(pos as int)) is None,
        },
{
    match read_int::<C>(s, pos) {
        None => None,
        Some((n, p1)) => {
            let count = n.encode_wire();
            match read_pairs::<I, V>(s, p1, count) {
                None => None,
                Some((items, p2)) => Some((n, items, p2)),
            }
        },
    }
}

fn read_var(s: &[u8], pos: usize, count: u16) -> (r: Option<(Vec<(u16, u16, Vec<u8>)>, usize)>)
    requires
        pos <= s@.len(),
    ensures
        match r {
            Some((items, p)) => pos <= p <= s@.len() && parse_var(s@.skip(pos as int), count as nat)
                == Some((var_entries_view(items@), s@.skip(p as int))),
            None => parse_var(s@.skip(pos as int), count as nat) is None,
        },
{
    let ghost s0 = s@.skip(pos as int);
    let mut items: Vec<(u16, u16, Vec<u8>)> = Vec::new();
    let mut p = pos;
    let mut i: u16 = 0;
    while i < count
        invariant
            pos <= p <= s@.len(),
            i <= count,
            s0 == s@.skip(pos as int),
            parse_var(s0, i as nat) == Some((var_entries_view(items@), s@.skip(p as int))),
        decreases count - i,
    {
        let (id, p1) = match read_int::<u16>(s, p) {
            Some(x) => x,
            None => {
                proof {
                    lemma_var_fail(s0, (i + 1) as nat, count as nat);
                }
                return None;
            },
        };
        let (len, p2) = match read_int::<u16>(s, p1) {
            Some(x) => x,
            None => {
                proof {
                    lemma_var_fail(s0, (i + 1) as nat, count as nat);
                }
                return None;
            },
        };
        if s.len() - p2 < len as usize {
            proof {
                lemma_var_fail(s0, (i + 1) as nat, count as nat);
            }
            return None;
        }
        let value = slice_to_vec(slice_subrange(s, p2, p2 + len as usize));
        proof {
            assert(s@.skip(p2 as int).take(len as int) =~= s@.subrange(p2 as int, p2 + len));
            assert(s@.skip(p2 as int).skip(len as int) =~= s@.skip(p2 + len));
        }
        let ghost old_items = items@;
        items.push((id, len, value));
        proof {
            assert(var_entries_view(items@) =~= var_entries_view(old_items).push(
                var_entry_view((id, len, value)),
            ));
        }
        p = p2 + len as usize;
        i = i + 1;
    }
    Some((items, p))
}

fn read_io8(s: &[u8], pos: usize) -> (r: Option<(IOElement8, usize)>)
    requires
        pos <= s@.len(),
    ensures
        match r {
            Some((io, p)) => pos <= p <= s@.len() && parse_io8(s@.skip(pos as int)) == Some(
                (io@, s@.skip(p as int)),
            ),
            None => parse_io8(s@.skip(pos as int)) is None,
        },
{
    reveal(parse_io8);
    let (event_io_id, p) = match read_int::<u8>(s, pos) {
        Some(x) => x,
        None => return None,
    };
    let (n_total_io, p) = match read_int::<u8>(s, p) {
        Some(x) => x,
        None => return None,
    };
    let (n1_of_one_byte, one_byte_ios, p) = match read_bucket::<u8, u8, u8>(s, p) {
        Some(x) => x,
        None => return None,
    };
    let (n2_of_two_bytes, two_byte_ios, p) = match read_bucket::<u8, u8, u16>(s, p) {
        Some(x) => x,
        None => return None,
    };
    let (n4_of_four_bytes, four_byte_ios, p) = match read_bucket::<u8, u8, u32>(s, p) {
        Some(x) => x,
        None => return None,
    };
    let (n8_of_eight_bytes, eight_byte_ios, p) = match read_bucket::<u8, u8, u64>(s, p) {
        Some(x) => x,
        None => return None,
    };
    Some(
        (
            IOElement8 {
                event_io_id,
                n_total_io,
                n1_of_one_byte,
                one_byte_ios,
                n2_of_two_bytes,
                two_byte_ios,
                n4_of_four_bytes,
                four_byte_ios,
                n8_of_eight_bytes,
                eight_byte_ios,
            },
            p,
        ),
    )
}

fn read_io8_ext(s: &[u8], pos: usize) -> (r: Option<(IOElement8Extended, usize)>)
    requires
        pos <= s@.len(),
    ensures
        match r {
            Some((io, p)) => pos <= p <= s@.len() && parse_io8_ext(s@.skip(pos as int)) == Some(
                (io@, s@.skip(p as int)),
            ),
            None => parse_io8_ext(s@.skip(pos as int)) is None,
        },
{
    reveal(parse_io8_ext);
    let (event_io_id, p) = match read_int::<u16>(s, pos) {
        Some(x) => x,
        None => return None,
    };
    let (n_total_io, p) = match read_int::<u16>(s, p) {
        Some(x) => x,
        None => return None,
    };
    let (n1_of_one_byte, one_byte_ios, p) = match read_bucket::<u16, u16, u8>(s, p) {
        Some(x) => x,
        None => return None,
    };
    let (n2_of_two_bytes, two_byte_ios, p) = match read_bucket::<u16, u16, u16>(s, p) {
        Some(x) => x,
        None => return None,
    };
    let (n4_of_four_bytes, four_byte_ios, p) = match read_bucket::<u16, u16, u32>(s, p) {
        Some(x) => x,
        None => return None,
    };
    let (n8_of_eight_bytes, eight_byte_ios, p) = match read_bucket::<u16, u16, u64>(s, p) {
        Some(x) => x,
        None => return None,
    };
    let (nx_of_var_bytes, p) = match read_int::<u16>(s, p) {
        Some(x) => x,
        None => return None,
    };
    let (var_byte_ios, p) = match read_var(s, p, nx_of_var_bytes) {
        Some(x) => x,
        None => return None,
    };
    Some(
        (
            IOElement8Extended {
                event_io_id,
                n_total_io,
                n1_of_one_byte,
                one_byte_ios,
                n2_of_two_bytes,
                two_byte_ios,
                n4_of_four_bytes,
                four_byte_ios,
                n8_of_eight_bytes,
                eight_byte_ios,
                nx_of_var_bytes,
                var_byte_ios,
            },
            p,
        ),
    )
}

fn read_gps(s: &[u8], pos: usize) -> (r: Option<(GPSElement, usize)>)
    requires
        pos <= s@.len(),
    ensures
        moved_forward(s@, pos, r),
        unread(s@, r) == parse_gps(s@.skip(pos as int)),
{
    reveal(parse_gps);
    let (longitude, p) = match read_int::<i32>(s, pos) {
        Some(x) => x,
        None => return None,
    };
    let (latitude, p) = match read_int::<i32>(s, p) {
        Some(x) => x,
        None => return None,
    };
    let (altitude, p) = match read_int::<i16>(s, p) {
        Some(x) => x,
        None => return None,
    };
    let (angle, p) = match read_int::<i16>(s, p) {
        Some(x) => x,
        None => return None,
    };
    let (satellites, p) = match read_int::<u8>(s, p) {
        Some(x) => x,
        None => return None,
    };
    let (speed, p) = match read_int::<i16>(s, p) {
        Some(x) => x,
        None => return None,
    };
    Some((GPSElement { longitude, latitude, altitude, angle, satellites, speed }, p))
}

fn read_record(s: &[u8], pos: usize, codec: u8) -> (r: Option<(AVLData, usize)>)
    requires
        pos <= s@.len(),
    ensures
        match r {
            Some((d, p)) => pos <= p <= s@.len() && parse_record(s@.skip(pos as int), codec)
                == Some((d@, s@.skip(p as int))),
            None => parse_record(s@.skip(pos as int), codec) is None,
        },
{
    reveal(parse_record);
    let (timestamp, p) = match read_int::<u64>(s, pos) {
        Some(x) => x,
        None => return None,
    };
    let (priority, p) = match read_int::<u8>(s, p) {
        Some(x) => x,
        None => return None,
    };
    let (gps, p) = match read_gps(s, p) {
        Some(x) => x,
        None => return None,
    };
    if timestamp == 0 || gps.longitude < -MAX_LONGITUDE || gps.longitude > MAX_LONGITUDE
        || gps.latitude < -MAX_LATITUDE || gps.latitude > MAX_LATITUDE {
        return None;
    }
    let (io, p) = if codec == CODEC_8 {
        match read_io8(s, p) {
            Some((io, p)) => (IOElement::Codec8(io), p),
            None => return None,
        }
    } else if codec == CODEC_8_EXTENDED {
        match read_io8_ext(s, p) {
            Some((io, p)) => (IOElement::Codec8Extended(io), p),
            None => return None,
        }
    } else {
        return None;
    };
    Some((AVLData { timestamp, priority, gps, io }, p))
}

fn read_records(s: &[u8], pos: usize, codec: u8, count: u8) -> (r: Option<(Vec<AVLData>, usize)>)
    requires
        pos <= s@.len(),
    ensures
        match r {
            Some((recs, p)) => pos <= p <= s@.len() && parse_records(
                s@.skip(pos as int),
                codec,
                count as nat,
            ) == Some((records_view(recs@), s@.skip(p as int))),
            None => parse_records(s@.skip(pos as int), codec, count as nat) is None,
        },
{
    let ghost s0 = s@.skip(pos as int);
    let mut recs: Vec<AVLData> = Vec::new();
    let mut p = pos;
    let mut i: u8 = 0;
    while i < count
        invariant
            pos <= p <= s@.len(),
            i <= count,
            s0 == s@.skip(pos as int),
            parse_records(s0, codec, i as nat) == Some((records_view(recs@), s@.skip(p as int))),
        decreases count - i,
    {
        let (d, p1) = match read_record(s, p, codec) {
            Some(x) => x,
            None => {
                proof {
                    lemma_records_fail(s0, codec, (i + 1) as nat, count as nat);
                }
                return None;
            },
        };
        let ghost old_recs = recs@;
        let ghost dv = d@;
        recs.push(d);
        proof {
            assert(records_view(recs@) =~= records_view(old_recs).push(dv));
        }
        p = p1;
        i = i + 1;
    }
    Some((recs, p))
}

/// Decodes a whole payload: `(record-set identifier, leading count, records, trailing count)`.
fn read_payload(s: &[u8]) -> (r: Option<(u8, u8, Vec<AVLData>, u8)>)
    ensures
        match r {
            Some((codec, n1, recs, n2)) => parse_payload(s@) == Some(
                (codec, n1, records_view(recs@), n2),
            ),
            None => parse_payload(s@) is None,
        },
{
    reveal(parse_payload);
    proof {
        assert(s@.skip(0) =~= s@);
    }
    let (codec, p) = match read_int::<u8>(s, 0) {
        Some(x) => x,
        None => return None,
    };
    if codec != CODEC_8 && codec != CODEC_8_EXTENDED {
        return None;
    }
    let (n1, p) = match read_int::<u8>(s, p) {
        Some(x) => x,
        None => return None,
    };
    let (recs, p) = match read_records(s, p, codec, n1) {
        Some(x) => x,
        None => return None,
    };
    let (n2, p) = match read_int::<u8>(s, p) {
        Some(x) => x,
        None => return None,
    };
    if n1 != n2 || p != s.len() {
        return None;
    }
    Some((codec, n1, recs, n2))
}

/// Decodes the frame at the front of `buf`: `Ok(None)` while more bytes are needed,
/// `Ok(Some((packet, span)))` for a valid frame of `span` bytes, and
/// `Err(MalformedFrame)` when the bytes cannot begin a valid frame.
pub fn decode_frame(buf: &[u8]) -> (r: Result<Option<(AVLPacket, usize)>, GateError>)
    ensures
        match parse_frame(buf@) {
            FrameParse::Incomplete => r == Ok::<Option<(AVLPacket, usize)>, GateError>(None),
            FrameParse::Malformed => r == Err::<Option<(AVLPacket, usize)>, GateError>(
                GateError::MalformedFrame,
            ),
            FrameParse::Complete(pv, n) => match r {
                Ok(Some((p, m))) => p@ == pv && m as nat == n,
                _ => false,
            },
        },
{
    proof {
        assert(buf@.skip(0) =~= buf@);
    }
    if buf.len() < 4 {
        return Ok(None);
    }
    let (preamble, _) = match read_int::<u32>(buf, 0) {
        Some(x) => x,
        None => return Ok(None),
    };
    if preamble != 0 {
        return Err(GateError::MalformedFrame);
    }
    if buf.len() < 8 {
        return Ok(None);
    }
    let (data_length, _) = match read_int::<u32>(buf, 4) {
        Some(x) => x,
        None => return Ok(None),
    };
    if (buf.len() as u64) < 12 + data_length as u64 {
        return Ok(None);
    }
    let end = 8 + data_length as usize;
    let payload = slice_subrange(buf, 8, end);
    let (crc, _) = match read_int::<u32>(buf, end) {
        Some(x) => x,
        None => return Ok(None),
    };
    let (codec_id, n1, avl_data, n2) = match read_payload(payload) {
        Some(x) => x,
        None => return Err(GateError::MalformedFrame),
    };
    if crc != calculate_crc(payload) {
        return Err(GateError::MalformedFrame);
    }
    let packet = AVLPacket {
        preamble: 0,
        data_length,
        codec_id,
        number_of_data1: n1,
        avl_data,
        number_of_data2: n2,
        crc16: crc,
    };
    Ok(Some((packet, end + 4)))
}

} // verus!
