//! Flow keys, port bytes and per-flow packet counts.
use vstd::prelude::*;
use crate::flow_table::FlowTable;
use crate::util::pkt_type::PacketDirection;
use crate::util::text::{flow_key, flow_key_text, ipv4_string, ipv4_text};

verus! {

/// The four parts of a flow key, oriented from the client's side: for a
/// downstream packet the source and destination are swapped.
pub open spec fn oriented_key(
    src_ip: Seq<char>,
    dst_ip: Seq<char>,
    src_port: u16,
    dst_port: u16,
    direction: PacketDirection,
) -> (Seq<char>, Seq<char>, u16, u16) {
    match direction {
        PacketDirection::Upstream => (src_ip, dst_ip, src_port, dst_port),
        PacketDirection::Downstream => (dst_ip, src_ip, dst_port, src_port),
    }
}

/// The parts of the key of the flow that a packet belongs to.
pub fn get_flow_key(
    src_ip: &str,
    dst_ip: &str,
    src_port: u16,
    dst_port: u16,
    direction: PacketDirection,
) -> (r: (String, String, u16, u16))
    ensures
        (r.0@, r.1@, r.2, r.3) == oriented_key(src_ip@, dst_ip@, src_port, dst_port, direction),
{
    match direction {
        PacketDirection::Upstream => (
            String::from_str(src_ip),
            String::from_str(dst_ip),
            src_port,
            dst_port,
        ),
        PacketDirection::Downstream => (
            String::from_str(dst_ip),
            String::from_str(src_ip),
            dst_port,
            src_port,
        ),
    }
}

/// The 16-bit segment made of bytes `2i` and `2i + 1`, big-endian.
pub open spec fn segment_of(b: Seq<u8>, i: int) -> u16 {
    (b[2 * i] * 256 + b[2 * i + 1]) as u16
}

/// The eight 16-bit segments of sixteen bytes.
pub open spec fn segments_of(b: Seq<u8>) -> Seq<u16> {
    Seq::new(8, |i: int| segment_of(b, i))
}

/// The text of an address given by its bytes, as far as it is written here:
/// dotted decimal for four bytes, the eight segments for sixteen (whose text
/// std's `Ipv6Addr` writes), and `Invalid IP length` otherwise.
pub enum IpText {
    Text(String),
    Ipv6([u16; 8]),
}

/// The text for a byte string of neither address length.
pub closed spec fn invalid_length_text() -> Seq<char> {
    "Invalid IP length"@
}

/// What `ip_from_u8` gives for the bytes `b`.
pub open spec fn ip_text(b: Seq<u8>, r: IpText) -> bool {
    if b.len() == 4 {
        r matches IpText::Text(s) && s@ == ipv4_text(b[0], b[1], b[2], b[3])
    } else if b.len() == 16 {
        r matches IpText::Ipv6(seg) && seg@ == segments_of(b)
    } else {
        r matches IpText::Text(s) && s@ == invalid_length_text()
    }
}

/// The text of the address whose bytes are `_ip` (see `ip_text`); for an
/// IPv6 address, its segments.
pub fn ip_from_u8(_ip: &[u8]) -> (r: IpText)
    ensures
        ip_text(_ip@, r),
{
    if _ip.len() == 4 {
        IpText::Text(ipv4_string(_ip[0], _ip[1], _ip[2], _ip[3]))
    } else if _ip.len() == 16 {
        let mut segments: [u16; 8] = [0; 8];
        let mut i: usize = 0;
        while i < 8
            invariant
                _ip@.len() == 16,
                i <= 8,
                segments@.len() == 8,
                forall|a: int| 0 <= a < i ==> #[trigger] segments@[a] == segment_of(_ip@, a),
            decreases 8 - i,
        {
            let hi = _ip[i * 2];
            let lo = _ip[i * 2 + 1];
            let seg = ((hi as u16) << 8u16) | (lo as u16);
            assert(((hi as u16) << 8u16) | (lo as u16) == hi * 256 + lo) by (bit_vector);
            segments[i] = seg;
            i = i + 1;
        }
        proof {
            assert(segments@ =~= segments_of(_ip@));
        }
        IpText::Ipv6(segments)
    } else {
        let s = String::from_str("Invalid IP length");
        proof {
            assert(s@ == invalid_length_text());
        }
        IpText::Text(s)
    }
}

/// A packet seen from the other end gives the same flow key.
pub proof fn lemma_flow_key_direction(src_ip: Seq<char>, dst_ip: Seq<char>, src_port: u16, dst_port: u16)
    ensures
        oriented_key(src_ip, dst_ip, src_port, dst_port, PacketDirection::Downstream)
            == oriented_key(dst_ip, src_ip, dst_port, src_port, PacketDirection::Upstream),
        oriented_key(src_ip, dst_ip, src_port, dst_port, PacketDirection::Upstream)
            == oriented_key(dst_ip, src_ip, dst_port, src_port, PacketDirection::Downstream),
{
}

/// The port whose big-endian bytes are `high_byte` and `low_byte`.
pub fn port_from_u8(high_byte: u8, low_byte: u8) -> (port: u16)
    ensures
        port == high_byte * 256 + low_byte,
{
    let port = ((high_byte as u16) << 8u16) | (low_byte as u16);
    assert(((high_byte as u16) << 8u16) | (low_byte as u16) == high_byte * 256 + low_byte)
        by (bit_vector);
    port
}

/// The big-endian bytes of `port`: high byte first.
pub fn port_to_u8(port: u16) -> (bytes: Vec<u8>)
    ensures
        bytes@ == seq![(port / 256) as u8, (port % 256) as u8],
{
    let high_byte = (port >> 8u16) as u8;
    let low_byte = (port & 0xFFu16) as u8;
    assert((port >> 8u16) as u8 == (port / 256) as u8) by (bit_vector);
    assert((port & 0xFFu16) as u8 == (port % 256) as u8) by (bit_vector);
    let bytes = vec![high_byte, low_byte];
    proof {
        assert(bytes@ =~= seq![(port / 256) as u8, (port % 256) as u8]);
    }
    bytes
}

/// Splitting a port into its bytes and joining them gives the port back, and
/// joining two bytes into a port and splitting it gives the bytes back.
pub proof fn lemma_port_bytes_roundtrip(port: u16, high_byte: u8, low_byte: u8)
    ensures
        ((port / 256) as u8) * 256 + ((port % 256) as u8) == port,
        ((high_byte * 256 + low_byte) / 256) as u8 == high_byte,
        ((high_byte * 256 + low_byte) % 256) as u8 == low_byte,
{
    assert(((high_byte * 256 + low_byte) / 256) as u8 == high_byte) by (nonlinear_arith);
    assert(((high_byte * 256 + low_byte) % 256) as u8 == low_byte) by (nonlinear_arith);
}

/// The packet count of a flow in a table of counts: the count held under its
/// key in this direction, or else under its key in the other direction, or 0.
pub open spec fn flow_count(m: Map<Seq<char>, u32>, up: Seq<char>, down: Seq<char>) -> nat {
    if m.contains_key(up) {
        m[up] as nat
    } else if m.contains_key(down) {
        m[down] as nat
    } else {
        0
    }
}

/// The table of counts after one more packet of the flow whose key is `up`
/// in this direction and `down` in the other: the count already held for the
/// flow grows by one, and a new flow is entered under `up` with count 1.
pub open spec fn count_packet(m: Map<Seq<char>, u32>, up: Seq<char>, down: Seq<char>) -> Map<
    Seq<char>,
    u32,
> {
    if m.contains_key(up) {
        m.insert(up, (m[up] + 1) as u32)
    } else if m.contains_key(down) {
        m.insert(down, (m[down] + 1) as u32)
    } else {
        m.insert(up, 1)
    }
}

/// Counting one more packet does not overflow the flow's count.
pub open spec fn can_count_packet(m: Map<Seq<char>, u32>, up: Seq<char>, down: Seq<char>) -> bool {
    flow_count(m, up, down) < u32::MAX
}

/// Counts one more packet of the flow from `src_ip`:`src_port` to
/// `dst_ip`:`dst_port`, under whichever direction of its key the table
/// already holds.
pub fn update_flow_count(
    target: &mut FlowTable<u32>,
    src_ip: &str,
    dst_ip: &str,
    src_port: &str,
    dst_port: &str,
)
    requires
        old(target).wf(),
        can_count_packet(
            old(target)@,
            flow_key_text(src_ip@, dst_ip@, src_port@, dst_port@),
            flow_key_text(dst_ip@, src_ip@, dst_port@, src_port@),
        ),
    ensures
        final(target).wf(),
        final(target)@ == count_packet(
            old(target)@,
            flow_key_text(src_ip@, dst_ip@, src_port@, dst_port@),
            flow_key_text(dst_ip@, src_ip@, dst_port@, src_port@),
        ),
{
    let flow_key_upstream = flow_key(src_ip, dst_ip, src_port, dst_port);
    let flow_key_downstream = flow_key(dst_ip, src_ip, dst_port, src_port);

    if let Some(cur_count) = target.get(&flow_key_upstream) {
        target.insert(flow_key_upstream, cur_count + 1);
    } else if let Some(cur_count) = target.get(&flow_key_downstream) {
        target.insert(flow_key_downstream, cur_count + 1);
    } else {
        target.insert(flow_key_upstream, 1);
    }
}

/// Each packet adds one to its flow's count, whichever direction it travels:
/// seen from either direction, the flow's count grows by exactly one, and a
/// table that holds at most one direction of the flow keeps doing so.
pub proof fn lemma_count_packet_counts_once(m: Map<Seq<char>, u32>, up: Seq<char>, down: Seq<char>)
    requires
        can_count_packet(m, up, down),
        !(m.contains_key(up) && m.contains_key(down)),
    ensures
        flow_count(count_packet(m, up, down), up, down) == flow_count(m, up, down) + 1,
        up != down ==> flow_count(count_packet(m, up, down), down, up) == flow_count(m, down, up) + 1,
        up != down ==> !(count_packet(m, up, down).contains_key(up) && count_packet(m, up, down).contains_key(down)),
        forall|k: Seq<char>| k != up && k != down ==> (#[trigger] count_packet(m, up, down).contains_key(k) == m.contains_key(k)
            && (m.contains_key(k) ==> count_packet(m, up, down)[k] == m[k])),
{
}

/// The sum of the counts in a finite table of counts.
pub open spec fn total_count(m: Map<Seq<char>, u32>) -> int
    decreases m.dom().len(),
    when m.dom().finite()
{
    if m.dom().len() == 0 {
        0
    } else {
        let k = m.dom().choose();
        proof {
            assert(m.dom().contains(k));
            assert(m.remove(k).dom() =~= m.dom().remove(k));
        }
        m[k] + total_count(m.remove(k))
    }
}

/// The sum of a table's counts is the count of any one key plus the sum of
/// the others.
proof fn lemma_total_count_remove(m: Map<Seq<char>, u32>, k: Seq<char>)
    requires
        m.dom().finite(),
        m.contains_key(k),
    ensures
        total_count(m) == m[k] + total_count(m.remove(k)),
    decreases m.dom().len(),
{
    assert(m.remove(k).dom() =~= m.dom().remove(k));
    let c = m.dom().choose();
    assert(m.dom().contains(c));
    if c != k {
        let mc = m.remove(c);
        let mk = m.remove(k);
        assert(mc.dom() =~= m.dom().remove(c));
        assert(mk.dom() =~= m.dom().remove(k));
        lemma_total_count_remove(mc, k);
        lemma_total_count_remove(mk, c);
        assert(mc.remove(k) =~= mk.remove(c));
    }
}

/// Counting a packet adds exactly one to the sum of a table's counts, keeps
/// every key the table held, and adds at most one key.
pub proof fn lemma_count_packet_adds_one(m: Map<Seq<char>, u32>, up: Seq<char>, down: Seq<char>)
    requires
        m.dom().finite(),
        can_count_packet(m, up, down),
    ensures
        total_count(count_packet(m, up, down)) == total_count(m) + 1,
        m.dom().subset_of(count_packet(m, up, down).dom()),
        count_packet(m, up, down).dom().finite(),
        count_packet(m, up, down).dom().len() <= m.dom().len() + 1,
{
    let m2 = count_packet(m, up, down);
    let k = if m.contains_key(up) { up } else if m.contains_key(down) { down } else { up };
    assert(m2.dom() =~= m.dom().insert(k));
    assert(m2.contains_key(k));
    lemma_total_count_remove(m2, k);
    if m.contains_key(k) {
        lemma_total_count_remove(m, k);
        assert(m2.remove(k) =~= m.remove(k));
    } else {
        assert(m2.remove(k) =~= m);
    }
}

} // verus!
