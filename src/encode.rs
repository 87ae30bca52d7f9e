//! Executable encoders: each appends exactly the bytes that its counterpart in `codec`
//! names.
use vstd::prelude::*;
use crate::checksum::calculate_crc;
use crate::codec::{
    bucket_bytes, frame_bytes, gps_bytes, io16_bytes, io8_bytes, io8_ext_bytes, io_bytes,
    pairs_bytes, payload_bytes, record_bytes, records_bytes, var_bytes,
};
use crate::protocol::{
    AVLData, AVLPacket, GPSElement, IOElement, IOElement16, IOElement8, IOElement8Extended,
    records_view, var_entries_view,
};
use crate::wire::{WireInt, append_bytes, write_int};

verus! {

fn write_pairs<I: WireInt, V: WireInt>(out: &mut Vec<u8>, items: &Vec<(I, V)>)
    ensures
        final(out)@ == old(out)@ + pairs_bytes(items@),
{
    let ghost start = out@;
    let mut i: usize = 0;
    while i < items.len()
        invariant
            i <= items@.len(),
            out@ == start + pairs_bytes(items@.take(i as int)),
        decreases items@.len() - i,
    {
        let (id, val) = items[i];
        write_int(out, id);
        write_int(out, val);
        proof {
            assert(items@.take(i + 1).drop_last() =~= items@.take(i as int));
            assert(out@ =~= start + pairs_bytes(items@.take(i + 1)));
        }
        i = i + 1;
    }
    proof {
        assert(items@.take(i as int) =~= items@);
    }
}

fn write_bucket<C: WireInt, I: WireInt, V: WireInt>(out: &mut Vec<u8>, n: C, items: &Vec<(I, V)>)
    ensures
        final(out)@ == old(out)@ + bucket_bytes(n, items@),
{
    write_int(out, n);
    write_pairs(out, items);
    proof {
        assert(out@ =~= old(out)@ + bucket_bytes(n, items@));
    }
}

fn write_var(out: &mut Vec<u8>, items: &Vec<(u16, u16, Vec<u8>)>)
    ensures
        final(out)@ == old(out)@ + var_bytes(var_entries_view(items@)),
{
    let ghost start = out@;
    let ghost view = var_entries_view(items@);
    let mut i: usize = 0;
    while i < items.len()
        invariant
            i <= items@.len(),
            view == var_entries_view(items@),
            out@ == start + var_bytes(view.take(i as int)),
        decreases items@.len() - i,
    {
        let e = &items[i];
        write_int(out, e.0);
        write_int(out, e.1);
        append_bytes(out, e.2.as_slice());
        proof {
            assert(view.take(i + 1).drop_last() =~= view.take(i as int));
            assert(out@ =~= start + var_bytes(view.take(i + 1)));
        }
        i = i + 1;
    }
    proof {
        assert(view.take(i as int) =~= view);
    }
}

fn write_io8(out: &mut Vec<u8>, io: &IOElement8)
    ensures
        final(out)@ == old(out)@ + io8_bytes(io@),
{
    write_int(out, io.event_io_id);
    write_int(out, io.n_total_io);
    write_bucket(out, io.n1_of_one_byte, &io.one_byte_ios);
    write_bucket(out, io.n2_of_two_bytes, &io.two_byte_ios);
    write_bucket(out, io.n4_of_four_bytes, &io.four_byte_ios);
    write_bucket(out, io.n8_of_eight_bytes, &io.eight_byte_ios);
    proof {
        assert(out@ =~= old(out)@ + io8_bytes(io@));
    }
}

fn write_io8_ext(out: &mut Vec<u8>, io: &IOElement8Extended)
    ensures
        final(out)@ == old(out)@ + io8_ext_bytes(io@),
{
    write_int(out, io.event_io_id);
    write_int(out, io.n_total_io);
    write_bucket(out, io.n1_of_one_byte, &io.one_byte_ios);
    write_bucket(out, io.n2_of_two_bytes, &io.two_byte_ios);
    write_bucket(out, io.n4_of_four_bytes, &io.four_byte_ios);
    write_bucket(out, io.n8_of_eight_bytes, &io.eight_byte_ios);
    write_int(out, io.nx_of_var_bytes);
    write_var(out, &io.var_byte_ios);
    proof {
        assert(out@ =~= old(out)@ + io8_ext_bytes(io@));
    }
}

fn write_io16(out: &mut Vec<u8>, io: &IOElement16)
    ensures
        final(out)@ == old(out)@ + io16_bytes(io@),
{
    write_int(out, io.event_io_id);
    write_int(out, io.generation_type);
    write_int(out, io.n_total_io);
    write_bucket(out, io.n1_of_one_byte, &io.one_byte_ios);
    write_bucket(out, io.n2_of_two_bytes, &io.two_byte_ios);
    write_bucket(out, io.n4_of_four_bytes, &io.four_byte_ios);
    write_bucket(out, io.n8_of_eight_bytes, &io.eight_byte_ios);
    proof {
        assert(out@ =~= old(out)@ + io16_bytes(io@));
    }
}

fn write_gps(out: &mut Vec<u8>, g: GPSElement)
    ensures
        final(out)@ == old(out)@ + gps_bytes(g),
{
    write_int(out, g.longitude);
    write_int(out, g.latitude);
    write_int(out, g.altitude);
    write_int(out, g.angle);
    write_int(out, g.satellites);
    write_int(out, g.speed);
    proof {
        assert(out@ =~= old(out)@ + gps_bytes(g));
    }
}

fn write_record(out: &mut Vec<u8>, d: &AVLData)
    ensures
        final(out)@ == old(out)@ + record_bytes(d@),
{
    write_int(out, d.timestamp);
    write_int(out, d.priority);
    write_gps(out, d.gps);
    let ghost mid = out@;
    match &d.io {
        IOElement::Codec8(io) => write_io8(out, io),
        IOElement::Codec8Extended(io) => write_io8_ext(out, io),
        IOElement::Codec16(io) => write_io16(out, io),
    }
    proof {
        assert(out@ == mid + io_bytes(d.io@));
        assert(out@ =~= old(out)@ + record_bytes(d@));
    }
}

fn write_records(out: &mut Vec<u8>, recs: &Vec<AVLData>)
    ensures
        final(out)@ == old(out)@ + records_bytes(records_view(recs@)),
{
    let ghost start = out@;
    let ghost view = records_view(recs@);
    let mut i: usize = 0;
    while i < recs.len()
        invariant
            i <= recs@.len(),
            view == records_view(recs@),
            out@ == start + records_bytes(view.take(i as int)),
        decreases recs@.len() - i,
    {
        write_record(out, &recs[i]);
        proof {
            assert(view.take(i + 1).drop_last() =~= view.take(i as int));
            assert(out@ =~= start + records_bytes(view.take(i + 1)));
        }
        i = i + 1;
    }
    proof {
        assert(view.take(i as int) =~= view);
    }
}

/// Puts `packet` on the wire: preamble, payload length, payload, frame checksum of the
/// payload. The length and checksum are computed from the payload; the packet's own
/// `data_length` and `crc16` fields are not read.
pub fn encode_packet(packet: &AVLPacket) -> (r: Vec<u8>)
    requires
        payload_bytes(packet@).len() <= u32::MAX,
    ensures
        r@ == frame_bytes(packet@),
{
    let mut payload: Vec<u8> = Vec::new();
    write_int(&mut payload, packet.codec_id);
    write_int(&mut payload, packet.number_of_data1);
    write_records(&mut payload, &packet.avl_data);
    write_int(&mut payload, packet.number_of_data2);
    proof {
        assert(payload@ =~= payload_bytes(packet@));
    }
    let length = payload.len() as u32;
    let crc = calculate_crc(payload.as_slice());
    let mut out: Vec<u8> = Vec::new();
    write_int(&mut out, packet.preamble);
    write_int(&mut out, length);
    append_bytes(&mut out, payload.as_slice());
    write_int(&mut out, crc);
    proof {
        assert(out@ =~= frame_bytes(packet@));
    }
    out
}

} // verus!
