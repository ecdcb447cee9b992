//! The per-packet logic of a capture run: reading the headers of a captured
//! frame, and counting packets and flows before and after sampling.
use vstd::prelude::*;
use pnet::packet::Packet;
use pnet::packet::ethernet::EthernetPacket;
use pnet::packet::ipv4::Ipv4Packet;
use pnet::packet::ipv6::Ipv6Packet;
use pnet::packet::tcp::TcpPacket;
use pnet::packet::udp::UdpPacket;
use crate::flow_table::FlowTable;
use crate::util::helpers::{IpText, ip_from_u8, ip_text, update_flow_count, count_packet, can_count_packet};
use crate::util::text::{flow_key, flow_key_text, key_sep};
use crate::topk::small_flow_sampling::{is_sampled, keeps_excluded, packet_handled, PacketOutcome, Sampler, TimeoutModel};
use crate::util::tor::FlowLabel;

verus! {

/// The EtherType of IPv4.
pub const ETHERTYPE_IPV4: u16 = 0x0800u16;

/// The EtherType of IPv6.
pub const ETHERTYPE_IPV6: u16 = 0x86DDu16;

/// The IP protocol number of TCP.
pub const PROTOCOL_TCP: u8 = 6u8;

/// The IP protocol number of UDP.
pub const PROTOCOL_UDP: u8 = 17u8;

/// The big-endian 16-bit value of the bytes `hi`, `lo`.
pub open spec fn be16(hi: u8, lo: u8) -> u16 {
    (hi * 256 + lo) as u16
}

/// What `pnet` reads from an Ethernet frame: its EtherType (bytes 12 and 13)
/// and its payload (from byte 14 on); `None` when the frame is shorter than
/// its 14-byte header.
pub open spec fn ethernet_fields(data: Seq<u8>) -> Option<(u16, Seq<u8>)> {
    if data.len() >= 14 {
        Some((be16(data[12], data[13]), data.subrange(14, data.len() as int)))
    } else {
        None
    }
}

/// What `pnet` reads from an IPv4 packet: source (bytes 12 to 15) and
/// destination (16 to 19) octets, the next-level protocol (byte 9) and the
/// payload; `None` when the packet is shorter than 20 bytes. The payload
/// starts after the header (its length is the low nibble of byte 0, in
/// 4-byte words, and at least 20 bytes) and holds the total length (bytes 2
/// and 3) less the header length, cut at the end of the data.
pub open spec fn ipv4_fields(data: Seq<u8>) -> Option<(Seq<u8>, Seq<u8>, u8, Seq<u8>)> {
    if data.len() >= 20 {
        let hl = (data[0] % 16) as int * 4;
        let start = 20 + (if hl > 20 { hl - 20 } else { 0 });
        let total = be16(data[2], data[3]) as int;
        let upper = start + (if total > hl { total - hl } else { 0 });
        let end = if upper < data.len() { upper } else { data.len() as int };
        let payload = if data.len() <= start { Seq::<u8>::empty() } else { data.subrange(start, end) };
        Some((data.subrange(12, 16), data.subrange(16, 20), data[9], payload))
    } else {
        None
    }
}

/// What `pnet` reads from an IPv6 packet: source (bytes 8 to 23) and
/// destination (24 to 39) octets, the next header (byte 6) and the payload
/// (from byte 40, as many bytes as the payload length in bytes 4 and 5 says,
/// cut at the end of the data); `None` when the packet is shorter than 40 bytes.
pub open spec fn ipv6_fields(data: Seq<u8>) -> Option<(Seq<u8>, Seq<u8>, u8, Seq<u8>)> {
    if data.len() >= 40 {
        let upper = 40 + be16(data[4], data[5]) as int;
        let end = if upper < data.len() { upper } else { data.len() as int };
        let payload = if data.len() <= 40 { Seq::<u8>::empty() } else { data.subrange(40, end) };
        Some((data.subrange(8, 24), data.subrange(24, 40), data[6], payload))
    } else {
        None
    }
}

/// What `pnet` reads from a TCP segment: source (bytes 0 and 1) and
/// destination (2 and 3) ports; `None` when it is shorter than its 20-byte header.
pub open spec fn tcp_fields(data: Seq<u8>) -> Option<(u16, u16)> {
    if data.len() >= 20 {
        Some((be16(data[0], data[1]), be16(data[2], data[3])))
    } else {
        None
    }
}

/// What `pnet` reads from a UDP datagram: source (bytes 0 and 1) and
/// destination (2 and 3) ports; `None` when it is shorter than its 8-byte header.
pub open spec fn udp_fields(data: Seq<u8>) -> Option<(u16, u16)> {
    if data.len() >= 8 {
        Some((be16(data[0], data[1]), be16(data[2], data[3])))
    } else {
        None
    }
}

/// `EthernetPacket::new`, `get_ethertype` and `payload`: the fields that
/// `ethernet_fields` states.
#[verifier::external_body]
fn read_ethernet(data: &[u8]) -> (r: Option<(u16, Vec<u8>)>)
    ensures
        r is Some <==> ethernet_fields(data@) is Some,
        r matches Some(f) ==> ethernet_fields(data@) == Some((f.0, f.1@)),
{
    match EthernetPacket::new(data) {
        Some(p) => Some((p.get_ethertype().0, p.payload().to_vec())),
        None => None,
    }
}

/// `Ipv4Packet::new`, `get_source`, `get_destination`,
/// `get_next_level_protocol` and `payload`: the fields that `ipv4_fields` states.
#[verifier::external_body]
fn read_ipv4(data: &[u8]) -> (r: Option<(Vec<u8>, Vec<u8>, u8, Vec<u8>)>)
    ensures
        r is Some <==> ipv4_fields(data@) is Some,
        r matches Some(f) ==> ipv4_fields(data@) == Some((f.0@, f.1@, f.2, f.3@)),
{
    match Ipv4Packet::new(data) {
        Some(p) => Some((
            p.get_source().octets().to_vec(),
            p.get_destination().octets().to_vec(),
            p.get_next_level_protocol().0,
            p.payload().to_vec(),
        )),
        None => None,
    }
}

/// `Ipv6Packet::new`, `get_source`, `get_destination`, `get_next_header`
/// and `payload`: the fields that `ipv6_fields` states.
#[verifier::external_body]
fn read_ipv6(data: &[u8]) -> (r: Option<(Vec<u8>, Vec<u8>, u8, Vec<u8>)>)
    ensures
        r is Some <==> ipv6_fields(data@) is Some,
        r matches Some(f) ==> ipv6_fields(data@) == Some((f.0@, f.1@, f.2, f.3@)),
{
    match Ipv6Packet::new(data) {
        Some(p) => Some((
            p.get_source().octets().to_vec(),
            p.get_destination().octets().to_vec(),
            p.get_next_header().0,
            p.payload().to_vec(),
        )),
        None => None,
    }
}

/// `TcpPacket::new`, `get_source` and `get_destination`: the ports that `tcp_fields` states.
#[verifier::external_body]
fn read_tcp(data: &[u8]) -> (r: Option<(u16, u16)>)
    ensures
        r == tcp_fields(data@),
{
    match TcpPacket::new(data) {
        Some(p) => Some((p.get_source(), p.get_destination())),
        None => None,
    }
}

/// `UdpPacket::new`, `get_source` and `get_destination`: the ports that `udp_fields` states.
#[verifier::external_body]
fn read_udp(data: &[u8]) -> (r: Option<(u16, u16)>)
    ensures
        r == udp_fields(data@),
{
    match UdpPacket::new(data) {
        Some(p) => Some((p.get_source(), p.get_destination())),
        None => None,
    }
}

/// What a captured frame is, for the run.
pub enum PacketClass {
    /// Too short to be an Ethernet frame.
    ShortFrame,
    /// Not IPv4 or IPv6, an IP header that does not parse, or a TCP or UDP
    /// header that does not parse: not counted.
    Skip,
    /// A TCP segment: addresses and ports.
    Tcp { src: IpText, dst: IpText, src_port: u16, dst_port: u16 },
    /// A UDP datagram: addresses and ports.
    Udp { src: IpText, dst: IpText, src_port: u16, dst_port: u16 },
    /// Another IP protocol: addresses.
    OtherIp { src: IpText, dst: IpText },
}

/// What the IP packet with these fields is, given what `pnet` reads from its payload.
pub open spec fn ip_class(src: Seq<u8>, dst: Seq<u8>, protocol: u8, payload: Seq<u8>, c: PacketClass) -> bool {
    if protocol == PROTOCOL_TCP {
        match tcp_fields(payload) {
            Some(ports) => c matches PacketClass::Tcp { src: s, dst: d, src_port, dst_port }
                && ip_text(src, s) && ip_text(dst, d) && src_port == ports.0 && dst_port == ports.1,
            None => c is Skip,
        }
    } else if protocol == PROTOCOL_UDP {
        match udp_fields(payload) {
            Some(ports) => c matches PacketClass::Udp { src: s, dst: d, src_port, dst_port }
                && ip_text(src, s) && ip_text(dst, d) && src_port == ports.0 && dst_port == ports.1,
            None => c is Skip,
        }
    } else {
        c matches PacketClass::OtherIp { src: s, dst: d } && ip_text(src, s) && ip_text(dst, d)
    }
}

/// What the frame `data` is: short, skipped, or an IP packet of TCP, UDP or
/// another protocol, as `pnet` reads its headers.
pub open spec fn frame_class(data: Seq<u8>, c: PacketClass) -> bool {
    match ethernet_fields(data) {
        None => c is ShortFrame,
        Some(eth) => if eth.0 == ETHERTYPE_IPV4 {
            match ipv4_fields(eth.1) {
                Some(ip) => ip_class(ip.0, ip.1, ip.2, ip.3, c),
                None => c is Skip,
            }
        } else if eth.0 == ETHERTYPE_IPV6 {
            match ipv6_fields(eth.1) {
                Some(ip) => ip_class(ip.0, ip.1, ip.2, ip.3, c),
                None => c is Skip,
            }
        } else {
            c is Skip
        },
    }
}

/// Classifies an IP packet by its protocol and transport header.
fn classify_ip(src: &Vec<u8>, dst: &Vec<u8>, protocol: u8, payload: &Vec<u8>) -> (c: PacketClass)
    ensures
        ip_class(src@, dst@, protocol, payload@, c),
{
    if protocol == PROTOCOL_TCP {
        match read_tcp(payload.as_slice()) {
            Some(ports) => PacketClass::Tcp {
                src: ip_from_u8(src.as_slice()),
                dst: ip_from_u8(dst.as_slice()),
                src_port: ports.0,
                dst_port: ports.1,
            },
            None => PacketClass::Skip,
        }
    } else if protocol == PROTOCOL_UDP {
        match read_udp(payload.as_slice()) {
            Some(ports) => PacketClass::Udp {
                src: ip_from_u8(src.as_slice()),
                dst: ip_from_u8(dst.as_slice()),
                src_port: ports.0,
                dst_port: ports.1,
            },
            None => PacketClass::Skip,
        }
    } else {
        PacketClass::OtherIp { src: ip_from_u8(src.as_slice()), dst: ip_from_u8(dst.as_slice()) }
    }
}

/// Classifies a captured frame (see `frame_class`).
pub fn classify_frame(data: &[u8]) -> (c: PacketClass)
    ensures
        frame_class(data@, c),
{
    match read_ethernet(data) {
        None => PacketClass::ShortFrame,
        Some(eth) => {
            if eth.0 == ETHERTYPE_IPV4 {
                match read_ipv4(eth.1.as_slice()) {
                    Some(ip) => classify_ip(&ip.0, &ip.1, ip.2, &ip.3),
                    None => PacketClass::Skip,
                }
            } else if eth.0 == ETHERTYPE_IPV6 {
                match read_ipv6(eth.1.as_slice()) {
                    Some(ip) => classify_ip(&ip.0, &ip.1, ip.2, &ip.3),
                    None => PacketClass::Skip,
                }
            } else {
                PacketClass::Skip
            }
        },
    }
}

/// Whether one more packet of the flow whose keys are `up` and `down` fits
/// the table's counts.
fn count_fits(table: &FlowTable<u32>, up: &String, down: &String) -> (b: bool)
    requires
        table.wf(),
    ensures
        b == can_count_packet(table@, up@, down@),
{
    match table.get(up) {
        Some(c) => c < u32::MAX,
        None => match table.get(down) {
            Some(c) => c < u32::MAX,
            None => true,
        },
    }
}

/// The packet and flow counts of a capture run, before and after sampling.
pub struct FilterStats {
    /// Frames read.
    pub total_pkt_count_before: u32,
    /// TCP packets of sampled flows.
    pub total_pkt_count_after: u32,
    /// TCP packets of Tor flows.
    pub tor_pkt_count_before: u32,
    /// TCP packets of sampled Tor flows.
    pub tor_pkt_count_after: u32,
    /// TCP packets.
    pub after_rule_based_pkt_count: u32,
    /// Packets per TCP flow.
    pub total_flow_count_before: FlowTable<u32>,
    /// Packets per sampled TCP flow.
    pub total_flow_count_after: FlowTable<u32>,
    /// Packets per Tor flow.
    pub tor_flow_count_before: FlowTable<u32>,
    /// Packets per sampled Tor flow.
    pub tor_flow_count_after: FlowTable<u32>,
    /// Packets per flow of other protocols.
    pub nontcp_total_flow_count: FlowTable<u32>,
}

/// The counts of a table after one more packet of the flow from `a`:`c` to
/// `b`:`d`, when `cond` holds.
pub open spec fn counted_if(cond: bool, m: Map<Seq<char>, u32>, a: Seq<char>, b: Seq<char>, c: Seq<char>, d: Seq<char>) -> Map<Seq<char>, u32> {
    if cond {
        count_packet(m, flow_key_text(a, b, c, d), flow_key_text(b, a, d, c))
    } else {
        m
    }
}

/// One more, when `cond` holds.
pub open spec fn bumped_if(cond: bool, n: u32) -> u32 {
    if cond { (n + 1) as u32 } else { n }
}

impl FilterStats {
    /// Sampling only drops packets: no more TCP packets are counted after
    /// sampling than before, and no more Tor packets than TCP packets.
    pub open spec fn counts_consistent(&self) -> bool {
        &&& self.total_pkt_count_after <= self.after_rule_based_pkt_count
        &&& self.tor_pkt_count_before <= self.after_rule_based_pkt_count
        &&& self.tor_pkt_count_after <= self.tor_pkt_count_before
        &&& self.tor_pkt_count_after <= self.total_pkt_count_after
    }

    /// The tables are well kept.
    pub open spec fn wf(&self) -> bool {
        &&& self.total_flow_count_before.wf()
        &&& self.total_flow_count_after.wf()
        &&& self.tor_flow_count_before.wf()
        &&& self.tor_flow_count_after.wf()
        &&& self.nontcp_total_flow_count.wf()
    }

    /// The counts of a run are in order: as `counts_consistent`, and no more
    /// TCP packets than frames read.
    pub open spec fn run_consistent(&self) -> bool {
        &&& self.counts_consistent()
        &&& self.after_rule_based_pkt_count <= self.total_pkt_count_before
    }

    /// The flow tables of TCP packets agree with the excluded flows `nt` of
    /// the sampler and the labels (see `flows_ok`).
    pub open spec fn flows_consistent(&self, nt: Map<Seq<char>, (u32, u16, bool)>, labels: Set<Seq<char>>) -> bool {
        flows_ok(
            self.total_flow_count_before@,
            self.total_flow_count_after@,
            self.tor_flow_count_before@,
            self.tor_flow_count_after@,
            nt,
            labels,
        )
    }

    /// `new` is `self` with one more TCP packet of the flow from `a`:`c` to
    /// `b`:`d` counted, labelled Tor if `is_tor`, and still sampled if
    /// `sampled` (see `record_tcp`).
    pub open spec fn tcp_recorded(&self, new: FilterStats, is_tor: bool, sampled: bool, a: Seq<char>, b: Seq<char>, c: Seq<char>, d: Seq<char>) -> bool {
        &&& new.after_rule_based_pkt_count == self.after_rule_based_pkt_count + 1
        &&& new.total_pkt_count_before == self.total_pkt_count_before
        &&& new.tor_pkt_count_before == bumped_if(is_tor, self.tor_pkt_count_before)
        &&& new.total_pkt_count_after == bumped_if(sampled, self.total_pkt_count_after)
        &&& new.tor_pkt_count_after == bumped_if(sampled && is_tor, self.tor_pkt_count_after)
        &&& new.total_flow_count_before@ == counted_if(true, self.total_flow_count_before@, a, b, c, d)
        &&& new.tor_flow_count_before@ == counted_if(is_tor, self.tor_flow_count_before@, a, b, c, d)
        &&& new.total_flow_count_after@ == counted_if(sampled, self.total_flow_count_after@, a, b, c, d)
        &&& new.tor_flow_count_after@ == counted_if(sampled && is_tor, self.tor_flow_count_after@, a, b, c, d)
        &&& new.nontcp_total_flow_count@ == self.nontcp_total_flow_count@
    }

    /// No packet counted yet.
    pub fn new() -> (s: Self)
        ensures
            s.wf(),
            s.run_consistent(),
            forall|nt: Map<Seq<char>, (u32, u16, bool)>, labels: Set<Seq<char>>| #[trigger] s.flows_consistent(nt, labels),
            s.total_pkt_count_before == 0,
            s.total_pkt_count_after == 0,
            s.tor_pkt_count_before == 0,
            s.tor_pkt_count_after == 0,
            s.after_rule_based_pkt_count == 0,
            s.counts_consistent(),
            s.total_flow_count_before@ == Map::<Seq<char>, u32>::empty(),
            s.total_flow_count_after@ == Map::<Seq<char>, u32>::empty(),
            s.tor_flow_count_before@ == Map::<Seq<char>, u32>::empty(),
            s.tor_flow_count_after@ == Map::<Seq<char>, u32>::empty(),
            s.nontcp_total_flow_count@ == Map::<Seq<char>, u32>::empty(),
    {
        FilterStats {
            total_pkt_count_before: 0,
            total_pkt_count_after: 0,
            tor_pkt_count_before: 0,
            tor_pkt_count_after: 0,
            after_rule_based_pkt_count: 0,
            total_flow_count_before: FlowTable::new(),
            total_flow_count_after: FlowTable::new(),
            tor_flow_count_before: FlowTable::new(),
            tor_flow_count_after: FlowTable::new(),
            nontcp_total_flow_count: FlowTable::new(),
        }
    }

    /// Counts a frame read.
    pub fn count_frame(&mut self)
        requires
            old(self).total_pkt_count_before < u32::MAX,
        ensures
            final(self).total_pkt_count_before == old(self).total_pkt_count_before + 1,
            final(self).wf() == old(self).wf(),
            final(self).total_pkt_count_after == old(self).total_pkt_count_after,
            final(self).tor_pkt_count_before == old(self).tor_pkt_count_before,
            final(self).tor_pkt_count_after == old(self).tor_pkt_count_after,
            final(self).after_rule_based_pkt_count == old(self).after_rule_based_pkt_count,
            final(self).total_flow_count_before@ == old(self).total_flow_count_before@,
            final(self).total_flow_count_after@ == old(self).total_flow_count_after@,
            final(self).tor_flow_count_before@ == old(self).tor_flow_count_before@,
            final(self).tor_flow_count_after@ == old(self).tor_flow_count_after@,
            final(self).nontcp_total_flow_count@ == old(self).nontcp_total_flow_count@,
            old(self).run_consistent() ==> final(self).run_consistent(),
            forall|nt: Map<Seq<char>, (u32, u16, bool)>, labels: Set<Seq<char>>|
                #[trigger] old(self).flows_consistent(nt, labels) ==> final(self).flows_consistent(nt, labels),
    {
        self.total_pkt_count_before = self.total_pkt_count_before + 1;
    }

    /// One more TCP packet fits every count it goes into.
    pub open spec fn tcp_fits(&self, is_tor: bool, sampled: bool, a: Seq<char>, b: Seq<char>, c: Seq<char>, d: Seq<char>) -> bool {
        let up = flow_key_text(a, b, c, d);
        let down = flow_key_text(b, a, d, c);
        &&& self.after_rule_based_pkt_count < u32::MAX
        &&& can_count_packet(self.total_flow_count_before@, up, down)
        &&& is_tor ==> self.tor_pkt_count_before < u32::MAX && can_count_packet(self.tor_flow_count_before@, up, down)
        &&& sampled ==> self.total_pkt_count_after < u32::MAX && can_count_packet(self.total_flow_count_after@, up, down)
        &&& sampled && is_tor ==> self.tor_pkt_count_after < u32::MAX && can_count_packet(self.tor_flow_count_after@, up, down)
    }

    /// Whether one more TCP packet fits every count it goes into.
    pub fn can_record_tcp(&self, is_tor: bool, sampled: bool, src_ip: &str, dst_ip: &str, src_port: &str, dst_port: &str) -> (b: bool)
        requires
            self.wf(),
        ensures
            b == self.tcp_fits(is_tor, sampled, src_ip@, dst_ip@, src_port@, dst_port@),
    {
        let up = flow_key(src_ip, dst_ip, src_port, dst_port);
        let down = flow_key(dst_ip, src_ip, dst_port, src_port);
        let base = self.after_rule_based_pkt_count < u32::MAX && count_fits(&self.total_flow_count_before, &up, &down);
        let tor = !is_tor || (self.tor_pkt_count_before < u32::MAX && count_fits(&self.tor_flow_count_before, &up, &down));
        let after = !sampled || (self.total_pkt_count_after < u32::MAX && count_fits(&self.total_flow_count_after, &up, &down));
        let tor_after = !(sampled && is_tor) || (self.tor_pkt_count_after < u32::MAX && count_fits(&self.tor_flow_count_after, &up, &down));
        base && tor && after && tor_after
    }

    /// Counts a TCP packet of the flow from `src_ip`:`src_port` to
    /// `dst_ip`:`dst_port`: in the totals; in the Tor counts if the flow is
    /// labelled Tor; and, if its flow is still sampled, in the counts after
    /// sampling too.
    pub fn record_tcp(&mut self, is_tor: bool, sampled: bool, src_ip: &str, dst_ip: &str, src_port: &str, dst_port: &str)
        requires
            old(self).wf(),
            old(self).tcp_fits(is_tor, sampled, src_ip@, dst_ip@, src_port@, dst_port@),
        ensures
            final(self).wf(),
            final(self).after_rule_based_pkt_count == old(self).after_rule_based_pkt_count + 1,
            final(self).total_pkt_count_before == old(self).total_pkt_count_before,
            final(self).tor_pkt_count_before == bumped_if(is_tor, old(self).tor_pkt_count_before),
            final(self).total_pkt_count_after == bumped_if(sampled, old(self).total_pkt_count_after),
            final(self).tor_pkt_count_after == bumped_if(sampled && is_tor, old(self).tor_pkt_count_after),
            final(self).total_flow_count_before@ == counted_if(true, old(self).total_flow_count_before@, src_ip@, dst_ip@, src_port@, dst_port@),
            final(self).tor_flow_count_before@ == counted_if(is_tor, old(self).tor_flow_count_before@, src_ip@, dst_ip@, src_port@, dst_port@),
            final(self).total_flow_count_after@ == counted_if(sampled, old(self).total_flow_count_after@, src_ip@, dst_ip@, src_port@, dst_port@),
            final(self).tor_flow_count_after@ == counted_if(sampled && is_tor, old(self).tor_flow_count_after@, src_ip@, dst_ip@, src_port@, dst_port@),
            final(self).nontcp_total_flow_count@ == old(self).nontcp_total_flow_count@,
            old(self).counts_consistent() ==> final(self).counts_consistent(),
            old(self).tcp_recorded(*final(self), is_tor, sampled, src_ip@, dst_ip@, src_port@, dst_port@),
    {
        self.after_rule_based_pkt_count = self.after_rule_based_pkt_count + 1;
        update_flow_count(&mut self.total_flow_count_before, src_ip, dst_ip, src_port, dst_port);
        if is_tor {
            self.tor_pkt_count_before = self.tor_pkt_count_before + 1;
            update_flow_count(&mut self.tor_flow_count_before, src_ip, dst_ip, src_port, dst_port);
        }
        if sampled {
            self.total_pkt_count_after = self.total_pkt_count_after + 1;
            update_flow_count(&mut self.total_flow_count_after, src_ip, dst_ip, src_port, dst_port);
            if is_tor {
                self.tor_pkt_count_after = self.tor_pkt_count_after + 1;
                update_flow_count(&mut self.tor_flow_count_after, src_ip, dst_ip, src_port, dst_port);
            }
        }
    }

    /// Whether one more packet of another protocol fits its flow's count.
    pub fn can_record_other(&self, src_ip: &str, dst_ip: &str, src_port: &str, dst_port: &str) -> (b: bool)
        requires
            self.wf(),
        ensures
            b == can_count_packet(
                self.nontcp_total_flow_count@,
                flow_key_text(src_ip@, dst_ip@, src_port@, dst_port@),
                flow_key_text(dst_ip@, src_ip@, dst_port@, src_port@),
            ),
    {
        let up = flow_key(src_ip, dst_ip, src_port, dst_port);
        let down = flow_key(dst_ip, src_ip, dst_port, src_port);
        count_fits(&self.nontcp_total_flow_count, &up, &down)
    }

    /// Counts a packet of a protocol other than TCP in its flow.
    pub fn record_other(&mut self, src_ip: &str, dst_ip: &str, src_port: &str, dst_port: &str)
        requires
            old(self).wf(),
            can_count_packet(
                old(self).nontcp_total_flow_count@,
                flow_key_text(src_ip@, dst_ip@, src_port@, dst_port@),
                flow_key_text(dst_ip@, src_ip@, dst_port@, src_port@),
            ),
        ensures
            final(self).wf(),
            final(self).nontcp_total_flow_count@ == counted_if(true, old(self).nontcp_total_flow_count@, src_ip@, dst_ip@, src_port@, dst_port@),
            final(self).total_pkt_count_before == old(self).total_pkt_count_before,
            final(self).total_pkt_count_after == old(self).total_pkt_count_after,
            final(self).tor_pkt_count_before == old(self).tor_pkt_count_before,
            final(self).tor_pkt_count_after == old(self).tor_pkt_count_after,
            final(self).after_rule_based_pkt_count == old(self).after_rule_based_pkt_count,
            final(self).total_flow_count_before@ == old(self).total_flow_count_before@,
            final(self).total_flow_count_after@ == old(self).total_flow_count_after@,
            final(self).tor_flow_count_before@ == old(self).tor_flow_count_before@,
            final(self).tor_flow_count_after@ == old(self).tor_flow_count_after@,
            old(self).run_consistent() ==> final(self).run_consistent(),
            forall|nt: Map<Seq<char>, (u32, u16, bool)>, labels: Set<Seq<char>>|
                #[trigger] old(self).flows_consistent(nt, labels) ==> final(self).flows_consistent(nt, labels),
    {
        update_flow_count(&mut self.nontcp_total_flow_count, src_ip, dst_ip, src_port, dst_port);
    }
}

/// The timestamp of a capture, in milliseconds.
pub fn unix_millis(seconds: u64, microseconds: u64) -> (ms: u64)
    requires
        seconds * 1000 + microseconds / 1000 <= u64::MAX,
    ensures
        ms == seconds * 1000 + microseconds / 1000,
{
    seconds * 1000 + microseconds / 1000
}

/// A field of a flow key with no comma in it, as an address or a port has.
pub open spec fn plain(s: Seq<char>) -> bool {
    !s.contains(',')
}

/// The four fields of a flow are plain.
pub open spec fn plain_flow(a: Seq<char>, b: Seq<char>, c: Seq<char>, d: Seq<char>) -> bool {
    plain(a) && plain(b) && plain(c) && plain(d)
}

/// Two texts that each begin with a plain field and a separator are equal
/// only if their first fields and their rests are.
proof fn lemma_split_at_sep(a: Seq<char>, r: Seq<char>, a2: Seq<char>, r2: Seq<char>)
    requires
        plain(a),
        plain(a2),
        a + (key_sep() + r) == a2 + (key_sep() + r2),
    ensures
        a == a2,
        r == r2,
{
    let t = a + (key_sep() + r);
    let t2 = a2 + (key_sep() + r2);
    if a.len() < a2.len() {
        assert(t[a.len() as int] == ',');
        assert(t2[a.len() as int] == a2[a.len() as int]);
        assert(a2.contains(','));
    } else if a2.len() < a.len() {
        assert(t2[a2.len() as int] == ',');
        assert(t[a2.len() as int] == a[a2.len() as int]);
        assert(a.contains(','));
    }
    assert(a =~= t.subrange(0, a.len() as int));
    assert(a2 =~= t2.subrange(0, a2.len() as int));
    assert(r =~= t.subrange(a.len() as int + 2, t.len() as int));
    assert(r2 =~= t2.subrange(a2.len() as int + 2, t2.len() as int));
}

/// The key of a flow whose first three fields are plain determines its
/// fields.
pub proof fn lemma_flow_key_injective(
    a: Seq<char>,
    b: Seq<char>,
    c: Seq<char>,
    d: Seq<char>,
    a2: Seq<char>,
    b2: Seq<char>,
    c2: Seq<char>,
    d2: Seq<char>,
)
    requires
        plain(a),
        plain(b),
        plain(c),
        plain(a2),
        plain(b2),
        plain(c2),
        flow_key_text(a, b, c, d) == flow_key_text(a2, b2, c2, d2),
    ensures
        a == a2,
        b == b2,
        c == c2,
        d == d2,
{
    let r = b + (key_sep() + (c + (key_sep() + d)));
    let r2 = b2 + (key_sep() + (c2 + (key_sep() + d2)));
    assert(flow_key_text(a, b, c, d) =~= a + (key_sep() + r));
    assert(flow_key_text(a2, b2, c2, d2) =~= a2 + (key_sep() + r2));
    lemma_split_at_sep(a, r, a2, r2);
    lemma_split_at_sep(b, c + (key_sep() + d), b2, c2 + (key_sep() + d2));
    lemma_split_at_sep(c, d, c2, d2);
}

/// The flow from `a`:`c` to `b`:`d` is labelled, in either direction.
pub open spec fn labelled(labels: Set<Seq<char>>, a: Seq<char>, b: Seq<char>, c: Seq<char>, d: Seq<char>) -> bool {
    labels.contains(flow_key_text(a, b, c, d)) || labels.contains(flow_key_text(b, a, d, c))
}

/// The table `m` holds at most one direction of each flow with plain fields.
pub open spec fn one_way(m: Map<Seq<char>, u32>) -> bool {
    forall|a: Seq<char>, b: Seq<char>, c: Seq<char>, d: Seq<char>|
        plain_flow(a, b, c, d) && #[trigger] m.contains_key(flow_key_text(a, b, c, d))
            && flow_key_text(a, b, c, d) != flow_key_text(b, a, d, c)
            ==> !m.contains_key(flow_key_text(b, a, d, c))
}

/// For the flow from `a`:`c` to `b`:`d`, counted under its key `up` in the
/// table of all TCP flows: it is missing from the table after sampling only
/// if it is no longer sampled, missing from the Tor table only if it is not
/// labelled, in the Tor table but missing from the Tor table after sampling
/// only if it is no longer sampled, and in the table after sampling but
/// missing from the Tor table after sampling only if it is not labelled.
pub open spec fn flow_ok(
    after: Map<Seq<char>, u32>,
    tb: Map<Seq<char>, u32>,
    ta: Map<Seq<char>, u32>,
    nt: Map<Seq<char>, (u32, u16, bool)>,
    labels: Set<Seq<char>>,
    a: Seq<char>,
    b: Seq<char>,
    c: Seq<char>,
    d: Seq<char>,
) -> bool {
    let up = flow_key_text(a, b, c, d);
    let down = flow_key_text(b, a, d, c);
    &&& !after.contains_key(up) ==> !is_sampled(nt, up, down)
    &&& !tb.contains_key(up) ==> !labelled(labels, a, b, c, d)
    &&& tb.contains_key(up) && !ta.contains_key(up) ==> !is_sampled(nt, up, down)
    &&& after.contains_key(up) && !ta.contains_key(up) ==> !labelled(labels, a, b, c, d)
}

/// The flow tables of a run (all TCP flows `before`, those after sampling
/// `after`, the Tor flows `tb`, the Tor flows after sampling `ta`) agree
/// with the excluded flows `nt` and the labels: each table after sampling
/// holds only flows of the table before, the Tor tables only flows of the
/// tables of all flows, each table holds at most one direction of a flow,
/// and each flow of plain fields is as `flow_ok` says.
pub open spec fn flows_ok(
    before: Map<Seq<char>, u32>,
    after: Map<Seq<char>, u32>,
    tb: Map<Seq<char>, u32>,
    ta: Map<Seq<char>, u32>,
    nt: Map<Seq<char>, (u32, u16, bool)>,
    labels: Set<Seq<char>>,
) -> bool {
    &&& after.dom().subset_of(before.dom())
    &&& tb.dom().subset_of(before.dom())
    &&& ta.dom().subset_of(tb.dom())
    &&& ta.dom().subset_of(after.dom())
    &&& one_way(before)
    &&& one_way(after)
    &&& one_way(tb)
    &&& one_way(ta)
    &&& forall|a: Seq<char>, b: Seq<char>, c: Seq<char>, d: Seq<char>|
        plain_flow(a, b, c, d) && #[trigger] before.contains_key(flow_key_text(a, b, c, d))
            ==> flow_ok(after, tb, ta, nt, labels, a, b, c, d)
}

/// Excluding more flows keeps the flow tables in agreement.
proof fn lemma_flows_ok_more_excluded(
    before: Map<Seq<char>, u32>,
    after: Map<Seq<char>, u32>,
    tb: Map<Seq<char>, u32>,
    ta: Map<Seq<char>, u32>,
    nt0: Map<Seq<char>, (u32, u16, bool)>,
    nt1: Map<Seq<char>, (u32, u16, bool)>,
    labels: Set<Seq<char>>,
)
    requires
        flows_ok(before, after, tb, ta, nt0, labels),
        nt0.dom().subset_of(nt1.dom()),
    ensures
        flows_ok(before, after, tb, ta, nt1, labels),
{
    assert forall|a: Seq<char>, b: Seq<char>, c: Seq<char>, d: Seq<char>|
        plain_flow(a, b, c, d) && #[trigger] before.contains_key(flow_key_text(a, b, c, d))
        implies flow_ok(after, tb, ta, nt1, labels, a, b, c, d) by {
        assert(flow_ok(after, tb, ta, nt0, labels, a, b, c, d));
    }
}

/// Counting a packet of a flow with plain fields keeps a table holding at
/// most one direction of each such flow.
proof fn lemma_one_way_count(m: Map<Seq<char>, u32>, a: Seq<char>, b: Seq<char>, c: Seq<char>, d: Seq<char>)
    requires
        one_way(m),
        plain_flow(a, b, c, d),
    ensures
        one_way(count_packet(m, flow_key_text(a, b, c, d), flow_key_text(b, a, d, c))),
{
    let up = flow_key_text(a, b, c, d);
    let down = flow_key_text(b, a, d, c);
    let m2 = count_packet(m, up, down);
    assert forall|a1: Seq<char>, b1: Seq<char>, c1: Seq<char>, d1: Seq<char>|
        plain_flow(a1, b1, c1, d1) && #[trigger] m2.contains_key(flow_key_text(a1, b1, c1, d1))
            && flow_key_text(a1, b1, c1, d1) != flow_key_text(b1, a1, d1, c1)
        implies !m2.contains_key(flow_key_text(b1, a1, d1, c1)) by {
        let x = flow_key_text(a1, b1, c1, d1);
        let y = flow_key_text(b1, a1, d1, c1);
        if !m.contains_key(up) && !m.contains_key(down) {
            if x == up {
                lemma_flow_key_injective(a1, b1, c1, d1, a, b, c, d);
            } else if y == up {
                lemma_flow_key_injective(b1, a1, d1, c1, a, b, c, d);
            } else {
                assert(m.contains_key(x));
            }
        } else {
            assert(m2.dom() =~= m.dom());
            assert(m.contains_key(x));
        }
    }
}

/// Counting a TCP packet of a flow with plain fields in the flow tables, as
/// a capture run does after the sampler handled the packet, keeps them in
/// agreement with the excluded flows and the labels.
proof fn lemma_flows_ok_step(
    before: Map<Seq<char>, u32>,
    after: Map<Seq<char>, u32>,
    tb: Map<Seq<char>, u32>,
    ta: Map<Seq<char>, u32>,
    nt: Map<Seq<char>, (u32, u16, bool)>,
    labels: Set<Seq<char>>,
    a: Seq<char>,
    b: Seq<char>,
    c: Seq<char>,
    d: Seq<char>,
)
    requires
        flows_ok(before, after, tb, ta, nt, labels),
        plain_flow(a, b, c, d),
    ensures
        ({
            let tor = labelled(labels, a, b, c, d);
            let sampled = is_sampled(nt, flow_key_text(a, b, c, d), flow_key_text(b, a, d, c));
            flows_ok(
                counted_if(true, before, a, b, c, d),
                counted_if(sampled, after, a, b, c, d),
                counted_if(tor, tb, a, b, c, d),
                counted_if(sampled && tor, ta, a, b, c, d),
                nt,
                labels,
            )
        }),
{
    let up = flow_key_text(a, b, c, d);
    let down = flow_key_text(b, a, d, c);
    let tor = labelled(labels, a, b, c, d);
    let sampled = is_sampled(nt, up, down);
    let before2 = counted_if(true, before, a, b, c, d);
    let after2 = counted_if(sampled, after, a, b, c, d);
    let tb2 = counted_if(tor, tb, a, b, c, d);
    let ta2 = counted_if(sampled && tor, ta, a, b, c, d);
    assert(plain_flow(b, a, d, c));
    assert(labelled(labels, b, a, d, c) == tor);
    assert(is_sampled(nt, down, up) == sampled);
    if before.contains_key(up) {
        assert(flow_ok(after, tb, ta, nt, labels, a, b, c, d));
    }
    if before.contains_key(down) {
        assert(flow_ok(after, tb, ta, nt, labels, b, a, d, c));
    }
    let k = if before.contains_key(up) { up } else if before.contains_key(down) { down } else { up };
    assert(before2.dom() =~= before.dom().insert(k));
    if sampled {
        assert(after2.dom() =~= after.dom().insert(k));
    }
    if tor {
        assert(tb2.dom() =~= tb.dom().insert(k));
    }
    if sampled && tor {
        assert(ta2.dom() =~= ta.dom().insert(k));
    }
    lemma_one_way_count(before, a, b, c, d);
    if sampled {
        lemma_one_way_count(after, a, b, c, d);
    }
    if tor {
        lemma_one_way_count(tb, a, b, c, d);
    }
    if sampled && tor {
        lemma_one_way_count(ta, a, b, c, d);
    }
    assert forall|a1: Seq<char>, b1: Seq<char>, c1: Seq<char>, d1: Seq<char>|
        plain_flow(a1, b1, c1, d1) && #[trigger] before2.contains_key(flow_key_text(a1, b1, c1, d1))
        implies flow_ok(after2, tb2, ta2, nt, labels, a1, b1, c1, d1) by {
        let x = flow_key_text(a1, b1, c1, d1);
        if x == up {
            lemma_flow_key_injective(a1, b1, c1, d1, a, b, c, d);
        } else if x == down {
            lemma_flow_key_injective(a1, b1, c1, d1, b, a, d, c);
        } else {
            assert(before.contains_key(x));
            assert(flow_ok(after, tb, ta, nt, labels, a1, b1, c1, d1));
        }
    }
}

/// Counts a TCP packet of the flow from `src_ip`:`src_port` to
/// `dst_ip`:`dst_port` at `ts` milliseconds in a capture run: the sampler
/// handles it (`on_pkt_received_raw`, with `model` deciding timeouts), then
/// it is counted in `stats` (`record_tcp`), labelled Tor as `labels` says and
/// sampled as the sampler says after the packet.
///
/// `Some` of the sampler's outcome when the packet was counted, or
/// `Some(CountOverflow)` when a count of the sampler would overflow, with
/// `stats` unchanged; `None`, with `stats` unchanged, when a count of `stats`
/// would overflow. Counting keeps the counts in order, and keeps the flow
/// tables in agreement with the sampler and the labels for a flow whose
/// fields hold no comma.
pub fn stat<M: TimeoutModel>(
    sampler: &mut Sampler,
    model: &mut M,
    labels: &FlowLabel,
    stats: &mut FilterStats,
    src_ip: &str,
    dst_ip: &str,
    src_port: &str,
    dst_port: &str,
    ts: u64,
) -> (r: Option<PacketOutcome>)
    requires
        old(sampler).wf(),
        old(stats).wf(),
        labels.wf(),
    ensures
        final(sampler).wf(),
        final(sampler).same_settings(&*old(sampler)),
        keeps_excluded(old(sampler).non_target@, final(sampler).non_target@),
        final(stats).wf(),
        ({
            let up = flow_key_text(src_ip@, dst_ip@, src_port@, dst_port@);
            let down = flow_key_text(dst_ip@, src_ip@, dst_port@, src_port@);
            let tor = labelled(labels@, src_ip@, dst_ip@, src_port@, dst_port@);
            let sampled = is_sampled(final(sampler).non_target@, up, down);
            match r {
                Some(p) => {
                    &&& packet_handled(*old(sampler), *final(sampler), up, down, ts, p)
                    &&& p == PacketOutcome::CountOverflow ==> *final(stats) == *old(stats)
                    &&& p != PacketOutcome::CountOverflow
                        ==> old(stats).tcp_recorded(*final(stats), tor, sampled, src_ip@, dst_ip@, src_port@, dst_port@)
                },
                None => {
                    &&& exists|p: PacketOutcome|
                        p != PacketOutcome::CountOverflow && #[trigger] packet_handled(*old(sampler), *final(sampler), up, down, ts, p)
                    &&& !old(stats).tcp_fits(tor, sampled, src_ip@, dst_ip@, src_port@, dst_port@)
                    &&& *final(stats) == *old(stats)
                },
            }
        }),
        old(stats).counts_consistent() ==> final(stats).counts_consistent(),
        (old(stats).run_consistent() && old(stats).after_rule_based_pkt_count < old(stats).total_pkt_count_before)
            ==> final(stats).run_consistent(),
        (old(stats).flows_consistent(old(sampler).non_target@, labels@) && plain_flow(src_ip@, dst_ip@, src_port@, dst_port@))
            ==> final(stats).flows_consistent(final(sampler).non_target@, labels@),
{
    let is_tor = labels.is_tor(src_ip, dst_ip, src_port, dst_port);
    let p = sampler.on_pkt_received_raw(src_ip, dst_ip, src_port, dst_port, ts, model);
    if p == PacketOutcome::CountOverflow {
        proof {
            if old(stats).flows_consistent(old(sampler).non_target@, labels@) {
                assert(old(sampler).non_target@.dom().subset_of(sampler.non_target@.dom()));
                lemma_flows_ok_more_excluded(
                    stats.total_flow_count_before@,
                    stats.total_flow_count_after@,
                    stats.tor_flow_count_before@,
                    stats.tor_flow_count_after@,
                    old(sampler).non_target@,
                    sampler.non_target@,
                    labels@,
                );
            }
        }
        return Some(p);
    }
    let sampled = sampler.should_sample(src_ip, dst_ip, src_port, dst_port);
    if !stats.can_record_tcp(is_tor, sampled, src_ip, dst_ip, src_port, dst_port) {
        proof {
            if old(stats).flows_consistent(old(sampler).non_target@, labels@) {
                assert(old(sampler).non_target@.dom().subset_of(sampler.non_target@.dom()));
                lemma_flows_ok_more_excluded(
                    stats.total_flow_count_before@,
                    stats.total_flow_count_after@,
                    stats.tor_flow_count_before@,
                    stats.tor_flow_count_after@,
                    old(sampler).non_target@,
                    sampler.non_target@,
                    labels@,
                );
            }
        }
        return None;
    }
    let ghost s0 = *stats;
    stats.record_tcp(is_tor, sampled, src_ip, dst_ip, src_port, dst_port);
    proof {
        if s0.flows_consistent(old(sampler).non_target@, labels@) && plain_flow(src_ip@, dst_ip@, src_port@, dst_port@) {
            assert(old(sampler).non_target@.dom().subset_of(sampler.non_target@.dom()));
            lemma_flows_ok_more_excluded(
                s0.total_flow_count_before@,
                s0.total_flow_count_after@,
                s0.tor_flow_count_before@,
                s0.tor_flow_count_after@,
                old(sampler).non_target@,
                sampler.non_target@,
                labels@,
            );
            lemma_flows_ok_step(
                s0.total_flow_count_before@,
                s0.total_flow_count_after@,
                s0.tor_flow_count_before@,
                s0.tor_flow_count_after@,
                sampler.non_target@,
                labels@,
                src_ip@,
                dst_ip@,
                src_port@,
                dst_port@,
            );
        }
    }
    Some(p)
}

/// In a run whose flow tables agree with the sampler and the labels, a
/// table after sampling holds no more flows than the one before, and a Tor
/// table no more than the table of all flows: the Tor flows after sampling
/// are at most the Tor flows, which are at most all flows, and at most the
/// flows after sampling, which are at most all flows.
pub proof fn lemma_run_table_sizes(s: &FilterStats, nt: Map<Seq<char>, (u32, u16, bool)>, labels: Set<Seq<char>>)
    requires
        s.wf(),
        s.flows_consistent(nt, labels),
    ensures
        s.tor_flow_count_after@.dom().len() <= s.tor_flow_count_before@.dom().len(),
        s.tor_flow_count_before@.dom().len() <= s.total_flow_count_before@.dom().len(),
        s.tor_flow_count_after@.dom().len() <= s.total_flow_count_after@.dom().len(),
        s.total_flow_count_after@.dom().len() <= s.total_flow_count_before@.dom().len(),
{
    s.total_flow_count_before.lemma_finite();
    s.total_flow_count_after.lemma_finite();
    s.tor_flow_count_before.lemma_finite();
    s.tor_flow_count_after.lemma_finite();
    vstd::set_lib::lemma_len_subset(s.tor_flow_count_after@.dom(), s.tor_flow_count_before@.dom());
    vstd::set_lib::lemma_len_subset(s.tor_flow_count_before@.dom(), s.total_flow_count_before@.dom());
    vstd::set_lib::lemma_len_subset(s.tor_flow_count_after@.dom(), s.total_flow_count_after@.dom());
    vstd::set_lib::lemma_len_subset(s.total_flow_count_after@.dom(), s.total_flow_count_before@.dom());
}

} // verus!
