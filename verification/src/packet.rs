//! What the data plane reads from and writes into a frame: header fields at
//! their fixed offsets, the flow hash, and the rewrite towards a backend.
//!
//! Layout of a handled frame, by byte offset: Ethernet header `0..14`
//! (destination MAC `0..6`, EtherType `12..14`), IPv4 header from `14` (header
//! length in the low half of byte `14`, protocol `23`, checksum `24..26`, source
//! `26..30`, destination `30..34`, then options if it is longer than 20 bytes), then
//! the TCP or UDP header, which starts with the ports.

use vstd::prelude::*;
use vstd::arithmetic::div_mod::lemma_mod_equivalence;
use crate::checksum::{
    be16, csum_replace, lemma_word_sum_put, put16, update_is_a_ones_complement_sum, update_keeps_residue,
    updated_checksum, word_sum,
};
use crate::common::{M, Node};

verus! {

pub const ETH_LEN: usize = 14;

pub const IPV4_LEN: usize = 20;

pub const TCP_LEN: usize = 20;

pub const UDP_LEN: usize = 8;

pub const ETHER_TYPE_IPV4: u16 = 0x0800;

pub const PROTO_TCP: u8 = 6;

pub const PROTO_UDP: u8 = 17;

pub const FIN: u8 = 0x01;

pub const SYN: u8 = 0x02;

pub const RST: u8 = 0x04;

pub const PSH: u8 = 0x08;

pub const URG: u8 = 0x20;

pub const FNV_OFFSET: u32 = 2166136261;

pub const FNV_PRIME: u32 = 16777619;

/// The TCP or UDP flow a frame belongs to. Addresses and ports are in host
/// byte order; `flags` is the TCP flag byte (`0` for UDP).
#[derive(Debug, Clone, Copy, PartialEq, Eq, Structural)]
pub struct Flow {
    pub source_addr: u32,
    pub dest_addr: u32,
    pub source_port: u16,
    pub dest_port: u16,
    pub is_tcp: bool,
    pub flags: u8,
}

/// What the headers of a frame say.
#[derive(Debug, Clone, Copy, PartialEq, Eq, Structural)]
pub enum Parsed {
    /// Not IPv4, or neither TCP nor UDP.
    Unhandled,
    /// Too short for a header it should hold. `dest_port` is the TCP/UDP
    /// destination port if the frame still reaches that far.
    Truncated { dest_port: Option<u16> },
    /// A complete TCP or UDP header.
    Complete { flow: Flow },
}

pub open spec fn be32(s: Seq<u8>, o: int) -> u32 {
    (s[o] * 0x1000000 + s[o + 1] * 0x10000 + s[o + 2] * 0x100 + s[o + 3]) as u32
}

pub open spec fn addr_hi(addr: u32) -> u16 {
    (addr / 0x10000) as u16
}

pub open spec fn addr_lo(addr: u32) -> u16 {
    (addr % 0x10000) as u16
}

/// Offset of the TCP/UDP header, behind the IPv4 header and its options. A header
/// length below the minimum of 20 bytes counts as the minimum.
pub open spec fn l4_off(f: Seq<u8>) -> int {
    let len = 4 * (f[14] % 16);
    if len < IPV4_LEN {
        ETH_LEN + IPV4_LEN
    } else {
        ETH_LEN + len
    }
}

/// The destination port of a frame cut off inside its TCP/UDP header.
pub open spec fn cut_port(f: Seq<u8>) -> Option<u16> {
    if f.len() >= l4_off(f) + 4 {
        Some(be16(f, l4_off(f) + 2))
    } else {
        None
    }
}

/// The flow of a frame that holds a complete TCP or UDP header.
pub open spec fn flow_of(f: Seq<u8>, is_tcp: bool) -> Flow {
    Flow {
        source_addr: be32(f, 26),
        dest_addr: be32(f, 30),
        source_port: be16(f, l4_off(f)),
        dest_port: be16(f, l4_off(f) + 2),
        is_tcp,
        flags: if is_tcp {
            f[l4_off(f) + 13]
        } else {
            0
        },
    }
}

/// What the headers of frame `f` say.
pub open spec fn parsed(f: Seq<u8>) -> Parsed {
    if f.len() < ETH_LEN {
        Parsed::Truncated { dest_port: None }
    } else if be16(f, 12) != ETHER_TYPE_IPV4 {
        Parsed::Unhandled
    } else if f.len() < ETH_LEN + IPV4_LEN {
        Parsed::Truncated { dest_port: None }
    } else if f[23] == PROTO_TCP {
        if f.len() < l4_off(f) + TCP_LEN {
            Parsed::Truncated { dest_port: cut_port(f) }
        } else {
            Parsed::Complete { flow: flow_of(f, true) }
        }
    } else if f[23] == PROTO_UDP {
        if f.len() < l4_off(f) + UDP_LEN {
            Parsed::Truncated { dest_port: cut_port(f) }
        } else {
            Parsed::Complete { flow: flow_of(f, false) }
        }
    } else {
        Parsed::Unhandled
    }
}

/// Whether `size` bytes at `offset` lie inside a frame of `len` bytes.
fn fits(len: usize, offset: usize, size: usize) -> (inside: bool)
    requires
        offset + size <= usize::MAX,
    ensures
        inside == (offset + size <= len),
{
    offset + size <= len
}

fn read_be16(frame: &[u8], o: usize) -> (v: u16)
    requires
        o + 2 <= frame@.len(),
    ensures
        v == be16(frame@, o as int),
{
    frame[o] as u16 * 256 + frame[o + 1] as u16
}

fn read_be32(frame: &[u8], o: usize) -> (v: u32)
    requires
        o + 4 <= frame@.len(),
    ensures
        v == be32(frame@, o as int),
{
    frame[o] as u32 * 0x1000000 + frame[o + 1] as u32 * 0x10000 + frame[o + 2] as u32 * 0x100
        + frame[o + 3] as u32
}

fn write_be16(frame: &mut [u8], o: usize, v: u16)
    requires
        o + 2 <= old(frame)@.len(),
    ensures
        final(frame)@ == put16(old(frame)@, o as int, v),
{
    frame[o] = (v / 256) as u8;
    frame[o + 1] = (v % 256) as u8;
}

fn read_l4_off(frame: &[u8]) -> (off: usize)
    requires
        frame@.len() >= ETH_LEN + IPV4_LEN,
    ensures
        off == l4_off(frame@),
        34 <= off <= 74,
{
    let len: usize = 4 * (frame[14] % 16) as usize;
    if len < IPV4_LEN {
        ETH_LEN + IPV4_LEN
    } else {
        ETH_LEN + len
    }
}

fn read_cut_port(frame: &[u8], off: usize) -> (port: Option<u16>)
    requires
        frame@.len() >= ETH_LEN + IPV4_LEN,
        off == l4_off(frame@),
        off <= 74,
    ensures
        port == cut_port(frame@),
{
    if fits(frame.len(), off + 2, 2) {
        Some(read_be16(frame, off + 2))
    } else {
        None
    }
}

fn read_flow(frame: &[u8], off: usize, is_tcp: bool) -> (flow: Flow)
    requires
        off == l4_off(frame@),
        34 <= off <= 74,
        frame@.len() >= off + UDP_LEN,
        is_tcp ==> frame@.len() >= off + TCP_LEN,
    ensures
        flow == flow_of(frame@, is_tcp),
{
    Flow {
        source_addr: read_be32(frame, 26),
        dest_addr: read_be32(frame, 30),
        source_port: read_be16(frame, off),
        dest_port: read_be16(frame, off + 2),
        is_tcp,
        flags: if is_tcp {
            frame[off + 13]
        } else {
            0
        },
    }
}

/// Read the headers of `frame`.
pub fn parse_frame(frame: &[u8]) -> (p: Parsed)
    ensures
        p == parsed(frame@),
{
    if !fits(frame.len(), 0, ETH_LEN) {
        return Parsed::Truncated { dest_port: None };
    }
    if read_be16(frame, 12) != ETHER_TYPE_IPV4 {
        return Parsed::Unhandled;
    }
    if !fits(frame.len(), ETH_LEN, IPV4_LEN) {
        return Parsed::Truncated { dest_port: None };
    }
    let proto: u8 = frame[23];
    let off: usize = read_l4_off(frame);
    if proto == PROTO_TCP {
        if !fits(frame.len(), off, TCP_LEN) {
            return Parsed::Truncated { dest_port: read_cut_port(frame, off) };
        }
        Parsed::Complete { flow: read_flow(frame, off, true) }
    } else if proto == PROTO_UDP {
        if !fits(frame.len(), off, UDP_LEN) {
            return Parsed::Truncated { dest_port: read_cut_port(frame, off) };
        }
        Parsed::Complete { flow: read_flow(frame, off, false) }
    } else {
        Parsed::Unhandled
    }
}

/// An illegal TCP flag combination: NULL, SYN+FIN, SYN+RST, FIN+RST or XMAS.
pub open spec fn illegal_flags(f: u8) -> bool {
    ||| f == 0
    ||| f & SYN != 0 && f & FIN != 0
    ||| f & SYN != 0 && f & RST != 0
    ||| f & FIN != 0 && f & RST != 0
    ||| f & FIN != 0 && f & PSH != 0 && f & URG != 0
}

/// A TCP packet with an illegal flag combination. UDP is never malformed.
pub open spec fn malformed(flow: Flow) -> bool {
    flow.is_tcp && illegal_flags(flow.flags)
}

/// Whether the flow's packet is malformed.
pub fn is_malformed(flow: &Flow) -> (b: bool)
    ensures
        b == malformed(*flow),
{
    if !flow.is_tcp {
        return false;
    }
    let f: u8 = flow.flags;
    assert((f & (0x01u8 | 0x08u8 | 0x20u8) == (0x01u8 | 0x08u8 | 0x20u8)) == (f & 0x01 != 0 && f
        & 0x08 != 0 && f & 0x20 != 0)) by (bit_vector);
    f == 0 || (f & SYN != 0 && f & FIN != 0) || (f & SYN != 0 && f & RST != 0) || (f & FIN != 0
        && f & RST != 0) || (f & (FIN | PSH | URG) == (FIN | PSH | URG))
}

/// The FNV-1a hash of a byte string.
pub open spec fn fnv1a(s: Seq<u8>) -> u32
    decreases s.len(),
{
    if s.len() == 0 {
        FNV_OFFSET
    } else {
        (fnv1a(s.drop_last()) ^ s.last() as u32).wrapping_mul(FNV_PRIME)
    }
}

/// The four big-endian bytes of an address.
pub open spec fn addr_bytes(a: u32) -> Seq<u8> {
    seq![
        (a / 0x1000000) as u8,
        (a / 0x10000 % 256) as u8,
        (a / 0x100 % 256) as u8,
        (a % 256) as u8,
    ]
}

/// The two big-endian bytes of a port.
pub open spec fn port_bytes(p: u16) -> Seq<u8> {
    seq![(p / 256) as u8, (p % 256) as u8]
}

/// The twelve bytes that identify a flow: both addresses, then both ports.
pub open spec fn tuple_bytes(flow: Flow) -> Seq<u8> {
    addr_bytes(flow.source_addr) + addr_bytes(flow.dest_addr) + port_bytes(flow.source_port)
        + port_bytes(flow.dest_port)
}

/// The Maglev slot a flow hashes to.
pub open spec fn flow_slot(flow: Flow) -> u32 {
    fnv1a(tuple_bytes(flow)) % M
}

/// Hash the flow's 4-tuple (FNV-1a) onto a Maglev slot.
pub fn hash_flow(flow: &Flow) -> (h: u32)
    ensures
        h == flow_slot(*flow),
        h < M,
{
    let s: u32 = flow.source_addr;
    let d: u32 = flow.dest_addr;
    let sp: u16 = flow.source_port;
    let dp: u16 = flow.dest_port;
    let tuple: [u8; 12] = [
        (s / 0x1000000) as u8,
        (s / 0x10000 % 256) as u8,
        (s / 0x100 % 256) as u8,
        (s % 256) as u8,
        (d / 0x1000000) as u8,
        (d / 0x10000 % 256) as u8,
        (d / 0x100 % 256) as u8,
        (d % 256) as u8,
        (sp / 256) as u8,
        (sp % 256) as u8,
        (dp / 256) as u8,
        (dp % 256) as u8,
    ];
    assert(tuple@ =~= tuple_bytes(*flow));
    let mut hash: u32 = FNV_OFFSET;
    let mut i: usize = 0;
    while i < 12
        invariant
            i <= 12,
            hash == fnv1a(tuple@.take(i as int)),
        decreases 12 - i,
    {
        assert(tuple@.take(i + 1).drop_last() =~= tuple@.take(i as int));
        hash = (hash ^ tuple[i] as u32).wrapping_mul(FNV_PRIME);
        i = i + 1;
    }
    assert(tuple@.take(12) =~= tuple@);
    hash % M
}

/// The port a packet of `flow` is sent to when it is forwarded to `node`.
pub open spec fn target_port(flow: Flow, node: Node) -> u16 {
    if node.dport != 0 {
        node.dport
    } else {
        flow.dest_port
    }
}

/// Offset of the TCP or UDP checksum of frame `f`.
pub open spec fn check_offset(f: Seq<u8>, is_tcp: bool) -> int {
    if is_tcp {
        l4_off(f) + 16
    } else {
        l4_off(f) + 6
    }
}

/// A checksum after the address it covers went from `from` to `to`.
pub open spec fn readdressed(check: u16, from: u32, to: u32) -> u16 {
    updated_checksum(
        updated_checksum(check, addr_hi(from), addr_hi(to)),
        addr_lo(from),
        addr_lo(to),
    )
}

/// The TCP/UDP checksum of a forwarded packet whose checksum was `check`. A UDP
/// checksum of `0` means "none" and stays; one that comes out as `0` is sent as
/// `0xFFFF`.
pub open spec fn forwarded_check(flow: Flow, node: Node, check: u16) -> u16 {
    let moved = readdressed(check, flow.dest_addr, node.daddr);
    let port = target_port(flow, node);
    let full = if port != flow.dest_port {
        updated_checksum(moved, flow.dest_port, port)
    } else {
        moved
    };
    if !flow.is_tcp && check == 0 {
        0
    } else if !flow.is_tcp && full == 0 {
        0xFFFF
    } else {
        full
    }
}

pub open spec fn put_mac(f: Seq<u8>, mac: Seq<u8>) -> Seq<u8> {
    Seq::new(
        f.len(),
        |i: int|
            if i < 6 {
                mac[i]
            } else {
                f[i]
            },
    )
}

/// Frame `f` of `flow` as it is sent to `node`: new destination MAC, address
/// and port, and both checksums brought up to date.
pub open spec fn rewritten(f: Seq<u8>, flow: Flow, node: Node) -> Seq<u8> {
    let check_at = check_offset(f, flow.is_tcp);
    let f1 = put_mac(f, node.dmac@);
    let f2 = put16(f1, 24, readdressed(be16(f, 24), flow.dest_addr, node.daddr));
    let f3 = put16(put16(f2, 30, addr_hi(node.daddr)), 32, addr_lo(node.daddr));
    let f4 = put16(f3, check_at, forwarded_check(flow, node, be16(f, check_at)));
    put16(f4, l4_off(f) + 2, target_port(flow, node))
}

proof fn lemma_put16_same(s: Seq<u8>, o: int)
    requires
        0 <= o,
        o + 2 <= s.len(),
    ensures
        put16(s, o, be16(s, o)) == s,
{
    assert(put16(s, o, be16(s, o)) =~= s);
}

/// Writing two bytes inside a window commutes with cutting the window out.
proof fn lemma_put16_window(s: Seq<u8>, o: int, v: u16, from: int, to: int)
    requires
        0 <= from <= to <= s.len(),
        0 <= o,
        o + 2 <= s.len(),
    ensures
        from <= o && o + 2 <= to ==> put16(s, o, v).subrange(from, to) == put16(
            s.subrange(from, to),
            o - from,
            v,
        ),
        o + 2 <= from || to <= o ==> put16(s, o, v).subrange(from, to) == s.subrange(from, to),
{
    if from <= o && o + 2 <= to {
        assert(put16(s, o, v).subrange(from, to) =~= put16(s.subrange(from, to), o - from, v));
    }
    if o + 2 <= from || to <= o {
        assert(put16(s, o, v).subrange(from, to) =~= s.subrange(from, to));
    }
}

/// The effect of one 16-bit write on the word sum of a window that contains it.
proof fn lemma_window_sum(s: Seq<u8>, o: int, v: u16, from: int, to: int)
    requires
        0 <= from <= o,
        o + 2 <= to <= s.len(),
        (o - from) % 2 == 0,
    ensures
        word_sum(put16(s, o, v).subrange(from, to)) == word_sum(s.subrange(from, to)) - be16(s, o)
            + v,
{
    lemma_put16_window(s, o, v, from, to);
    lemma_word_sum_put(s.subrange(from, to), o - from, v);
}

/// Sums that differ as two congruent numbers do are congruent themselves.
proof fn lemma_same_residue(a: int, b: int, x: int, y: int)
    requires
        a - b == x - y,
        x % 0xFFFF == y % 0xFFFF,
    ensures
        a % 0xFFFF == b % 0xFFFF,
{
    lemma_mod_equivalence(x, y, 0xFFFF);
    lemma_mod_equivalence(a, b, 0xFFFF);
}

proof fn lemma_readdressed(check: u16, from: u32, to: u32)
    ensures
        (readdressed(check, from, to) + addr_hi(to) + addr_lo(to)) % 0xFFFF == (check + addr_hi(
            from,
        ) + addr_lo(from)) % 0xFFFF,
{
    let c1 = updated_checksum(check, addr_hi(from), addr_hi(to));
    let c2 = updated_checksum(c1, addr_lo(from), addr_lo(to));
    update_keeps_residue(check, addr_hi(from), addr_hi(to));
    update_keeps_residue(c1, addr_lo(from), addr_lo(to));
    lemma_same_residue(
        c2 + addr_hi(to) + addr_lo(to),
        c1 + addr_hi(to) + addr_lo(from),
        c2 + addr_lo(to),
        c1 + addr_lo(from),
    );
    lemma_same_residue(
        c1 + addr_hi(to) + addr_lo(from),
        check + addr_hi(from) + addr_lo(from),
        c1 + addr_hi(to),
        check + addr_hi(from),
    );
}

/// The stages of `rewritten`, one write at a time.
proof fn lemma_rewrite_stages(f: Seq<u8>, flow: Flow, node: Node) -> (stages: (
    Seq<u8>,
    Seq<u8>,
    Seq<u8>,
    Seq<u8>,
    Seq<u8>,
))
    requires
        parsed(f) == (Parsed::Complete { flow }),
    ensures
        stages.0 == put_mac(f, node.dmac@),
        stages.1 == put16(stages.0, 24, readdressed(be16(f, 24), flow.dest_addr, node.daddr)),
        stages.2 == put16(stages.1, 30, addr_hi(node.daddr)),
        stages.3 == put16(stages.2, 32, addr_lo(node.daddr)),
        stages.4 == put16(
            stages.3,
            check_offset(f, flow.is_tcp),
            forwarded_check(flow, node, be16(f, check_offset(f, flow.is_tcp))),
        ),
        rewritten(f, flow, node) == put16(stages.4, l4_off(f) + 2, target_port(flow, node)),
        stages.0.len() == f.len(),
        stages.1.len() == f.len(),
        stages.2.len() == f.len(),
        stages.3.len() == f.len(),
        stages.4.len() == f.len(),
        be16(stages.0, 24) == be16(f, 24),
        be16(stages.1, 30) == addr_hi(flow.dest_addr),
        be16(stages.2, 32) == addr_lo(flow.dest_addr),
        be16(stages.3, check_offset(f, flow.is_tcp)) == be16(f, check_offset(f, flow.is_tcp)),
        be16(stages.4, l4_off(f) + 2) == flow.dest_port,
        forall|from: int, to: int|
            6 <= from <= to <= f.len() ==> #[trigger] stages.0.subrange(from, to) == f.subrange(
                from,
                to,
            ),
{
    let f1 = put_mac(f, node.dmac@);
    let f2 = put16(f1, 24, readdressed(be16(f, 24), flow.dest_addr, node.daddr));
    let f3 = put16(f2, 30, addr_hi(node.daddr));
    let f4 = put16(f3, 32, addr_lo(node.daddr));
    let f5 = put16(
        f4,
        check_offset(f, flow.is_tcp),
        forwarded_check(flow, node, be16(f, check_offset(f, flow.is_tcp))),
    );
    assert(addr_hi(flow.dest_addr) == be16(f, 30));
    assert(addr_lo(flow.dest_addr) == be16(f, 32));
    assert forall|from: int, to: int| 6 <= from <= to <= f.len() implies #[trigger] f1.subrange(
        from,
        to,
    ) == f.subrange(from, to) by {
        assert(f1.subrange(from, to) =~= f.subrange(from, to));
    }
    (f1, f2, f3, f4, f5)
}

proof fn lemma_header_residue(f: Seq<u8>, flow: Flow, node: Node)
    requires
        parsed(f) == (Parsed::Complete { flow }),
    ensures
        word_sum(rewritten(f, flow, node).subrange(14, l4_off(f))) % 0xFFFF == word_sum(
            f.subrange(14, l4_off(f)),
        ) % 0xFFFF,
{
    let (f1, f2, f3, f4, f5) = lemma_rewrite_stages(f, flow, node);
    let v = readdressed(be16(f, 24), flow.dest_addr, node.daddr);
    let off = l4_off(f);
    let check_at = check_offset(f, flow.is_tcp);
    lemma_window_sum(f1, 24, v, 14, off);
    lemma_window_sum(f2, 30, addr_hi(node.daddr), 14, off);
    lemma_window_sum(f3, 32, addr_lo(node.daddr), 14, off);
    lemma_put16_window(f4, check_at, forwarded_check(flow, node, be16(f, check_at)), 14, off);
    lemma_put16_window(f5, off + 2, target_port(flow, node), 14, off);
    lemma_readdressed(be16(f, 24), flow.dest_addr, node.daddr);
    lemma_same_residue(
        word_sum(rewritten(f, flow, node).subrange(14, off)),
        word_sum(f.subrange(14, off)),
        v + addr_hi(node.daddr) + addr_lo(node.daddr),
        be16(f, 24) + addr_hi(flow.dest_addr) + addr_lo(flow.dest_addr),
    );
}

/// The checksum and the words it covers keep their residue.
proof fn lemma_forwarded_check(flow: Flow, node: Node, check: u16)
    requires
        flow.is_tcp || check != 0,
    ensures
        (forwarded_check(flow, node, check) + target_port(flow, node) + addr_hi(node.daddr)
            + addr_lo(node.daddr)) % 0xFFFF == (check + flow.dest_port + addr_hi(flow.dest_addr)
            + addr_lo(flow.dest_addr)) % 0xFFFF,
{
    let moved = readdressed(check, flow.dest_addr, node.daddr);
    let port = target_port(flow, node);
    let to = addr_hi(node.daddr) + addr_lo(node.daddr);
    let from = addr_hi(flow.dest_addr) + addr_lo(flow.dest_addr);
    lemma_readdressed(check, flow.dest_addr, node.daddr);
    lemma_same_residue(
        moved + flow.dest_port + to,
        check + flow.dest_port + from,
        moved + to,
        check + from,
    );
    let full = if port != flow.dest_port {
        updated_checksum(moved, flow.dest_port, port)
    } else {
        moved
    };
    if port != flow.dest_port {
        update_keeps_residue(moved, flow.dest_port, port);
        lemma_same_residue(
            full + port + to,
            moved + flow.dest_port + to,
            full + port,
            moved + flow.dest_port,
        );
    }
    let sent = forwarded_check(flow, node, check);
    lemma_same_residue(sent + port + to, full + port + to, sent as int, full as int);
}

/// The words that a TCP/UDP checksum covers and that forwarding can change: the
/// addresses of the pseudo-header and the segment up to `end`.
pub open spec fn covered_sum(f: Seq<u8>, end: int) -> int {
    word_sum(f.subrange(26, 34)) + word_sum(f.subrange(l4_off(f), end))
}

proof fn lemma_segment_residue(f: Seq<u8>, flow: Flow, node: Node, end: int)
    requires
        parsed(f) == (Parsed::Complete { flow }),
        check_offset(f, flow.is_tcp) + 2 <= end <= f.len(),
        flow.is_tcp || be16(f, check_offset(f, false)) != 0,
    ensures
        covered_sum(rewritten(f, flow, node), end) % 0xFFFF == covered_sum(f, end) % 0xFFFF,
{
    let (f1, f2, f3, f4, f5) = lemma_rewrite_stages(f, flow, node);
    let v = readdressed(be16(f, 24), flow.dest_addr, node.daddr);
    let off = l4_off(f);
    let check_at = check_offset(f, flow.is_tcp);
    let check = be16(f, check_at);
    let w = forwarded_check(flow, node, check);
    let port = target_port(flow, node);
    let g = rewritten(f, flow, node);
    assert(l4_off(g) == off);
    lemma_put16_window(f1, 24, v, 26, 34);
    lemma_window_sum(f2, 30, addr_hi(node.daddr), 26, 34);
    lemma_window_sum(f3, 32, addr_lo(node.daddr), 26, 34);
    lemma_put16_window(f4, check_at, w, 26, 34);
    lemma_put16_window(f5, off + 2, port, 26, 34);
    lemma_put16_window(f1, 24, v, off, end);
    lemma_put16_window(f2, 30, addr_hi(node.daddr), off, end);
    lemma_put16_window(f3, 32, addr_lo(node.daddr), off, end);
    lemma_window_sum(f4, check_at, w, off, end);
    lemma_window_sum(f5, off + 2, port, off, end);
    lemma_forwarded_check(flow, node, check);
    lemma_same_residue(
        covered_sum(g, end),
        covered_sum(f, end),
        w + port + addr_hi(node.daddr) + addr_lo(node.daddr),
        check + flow.dest_port + addr_hi(flow.dest_addr) + addr_lo(flow.dest_addr),
    );
}

/// Law: forwarding changes no checksum's residue. The IPv4 header with its options
/// sums to the same value modulo `0xFFFF` as before, and so does the TCP/UDP segment
/// up to `end` together with the addresses of its pseudo-header (the rest of which
/// does not change) unless the packet carries no UDP checksum. Checksums that
/// verified before therefore verify afterwards.
pub proof fn rewrite_keeps_checksums(f: Seq<u8>, flow: Flow, node: Node, end: int)
    requires
        parsed(f) == (Parsed::Complete { flow }),
        check_offset(f, flow.is_tcp) + 2 <= end <= f.len(),
    ensures
        l4_off(rewritten(f, flow, node)) == l4_off(f),
        word_sum(rewritten(f, flow, node).subrange(14, l4_off(f))) % 0xFFFF == word_sum(
            f.subrange(14, l4_off(f)),
        ) % 0xFFFF,
        flow.is_tcp || be16(f, check_offset(f, false)) != 0 ==> covered_sum(
            rewritten(f, flow, node),
            end,
        ) % 0xFFFF == covered_sum(f, end) % 0xFFFF,
{
    lemma_header_residue(f, flow, node);
    if flow.is_tcp || be16(f, check_offset(f, false)) != 0 {
        lemma_segment_residue(f, flow, node, end);
    }
}

/// Law: forwarding leaves the length of the frame and everything but the
/// destination MAC, the destination address, the destination port and the two
/// checksums as they were.
pub proof fn rewrite_touches_only_destination(f: Seq<u8>, flow: Flow, node: Node)
    requires
        parsed(f) == (Parsed::Complete { flow }),
    ensures
        rewritten(f, flow, node).len() == f.len(),
        forall|i: int|
            (6 <= i < 24 || 26 <= i < 30 || 34 <= i < l4_off(f) + 2 || l4_off(f) + 4 <= i < f.len())
                && !(check_offset(f, flow.is_tcp) <= i < check_offset(f, flow.is_tcp) + 2)
                ==> #[trigger] rewritten(f, flow, node)[i] == f[i],
{
}

/// A frame that differs from `f` in its destination alone parses as the same flow to
/// that destination.
proof fn lemma_parsed_readdressed(f: Seq<u8>, g: Seq<u8>, flow: Flow, addr: u32, port: u16)
    requires
        parsed(f) == (Parsed::Complete { flow }),
        g.len() == f.len(),
        g[12] == f[12] && g[13] == f[13] && g[14] == f[14] && g[23] == f[23],
        g[26] == f[26] && g[27] == f[27] && g[28] == f[28] && g[29] == f[29],
        g[l4_off(f)] == f[l4_off(f)] && g[l4_off(f) + 1] == f[l4_off(f) + 1],
        flow.is_tcp ==> g[l4_off(f) + 13] == f[l4_off(f) + 13],
        be32(g, 30) == addr,
        be16(g, l4_off(f) + 2) == port,
    ensures
        parsed(g) == (Parsed::Complete {
            flow: Flow { dest_addr: addr, dest_port: port, ..flow },
        }),
{
}

/// Law: a forwarded frame parses as the same flow, now addressed to the backend.
pub proof fn rewritten_frame_is_addressed_to_node(f: Seq<u8>, flow: Flow, node: Node)
    requires
        parsed(f) == (Parsed::Complete { flow }),
    ensures
        parsed(rewritten(f, flow, node)) == (Parsed::Complete {
            flow: Flow {
                dest_addr: node.daddr,
                dest_port: target_port(flow, node),
                ..flow
            },
        }),
        rewritten(f, flow, node).take(6) == node.dmac@,
{
    let g = rewritten(f, flow, node);
    let off = l4_off(f);
    let port = target_port(flow, node);
    assert(g.take(6) =~= node.dmac@);
    rewrite_touches_only_destination(f, flow, node);
    let hi = addr_hi(node.daddr);
    let lo = addr_lo(node.daddr);
    assert(g[30] == (hi / 256) as u8 && g[31] == (hi % 256) as u8);
    assert(g[32] == (lo / 256) as u8 && g[33] == (lo % 256) as u8);
    lemma_be32(g, hi, lo, node.daddr);
    assert(g[off + 2] == (port / 256) as u8 && g[off + 3] == (port % 256) as u8);
    assert(be16(g, off + 2) == port);
    lemma_parsed_readdressed(f, g, flow, node.daddr, port);
}

/// The address bytes put together from its two words.
proof fn lemma_be32(g: Seq<u8>, hi: u16, lo: u16, addr: u32)
    requires
        hi == addr_hi(addr),
        lo == addr_lo(addr),
        g[30] == (hi / 256) as u8,
        g[31] == (hi % 256) as u8,
        g[32] == (lo / 256) as u8,
        g[33] == (lo % 256) as u8,
    ensures
        be32(g, 30) == addr,
{
    assert(g[30] * 256 + g[31] == hi);
    assert(g[32] * 256 + g[33] == lo);
    assert(hi * 0x10000 + lo == addr);
}

/// Rewrite `frame`, which belongs to `flow`, so that it goes to `node`.
pub fn rewrite_frame(frame: &mut [u8], flow: &Flow, node: &Node)
    requires
        parsed(old(frame)@) == (Parsed::Complete { flow: *flow }),
    ensures
        final(frame)@ == rewritten(old(frame)@, *flow, *node),
{
    let ghost f = frame@;
    let backend_ip: u32 = node.daddr;
    let old_ip: u32 = flow.dest_addr;
    let new_port: u16 = if node.dport != 0 {
        node.dport
    } else {
        flow.dest_port
    };
    let old_hi: u16 = (old_ip / 0x10000) as u16;
    let old_lo: u16 = (old_ip % 0x10000) as u16;
    let new_hi: u16 = (backend_ip / 0x10000) as u16;
    let new_lo: u16 = (backend_ip % 0x10000) as u16;
    let off: usize = read_l4_off(frame);
    let check_at: usize = if flow.is_tcp {
        off + 16
    } else {
        off + 6
    };

    // Ethernet destination.
    let mut i: usize = 0;
    while i < 6
        invariant
            i <= 6,
            6 <= frame@.len(),
            frame@.len() == f.len(),
            forall|k: int| 0 <= k < i ==> frame@[k] == node.dmac@[k],
            forall|k: int| i <= k < f.len() ==> frame@[k] == f[k],
        decreases 6 - i,
    {
        frame[i] = node.dmac[i];
        i = i + 1;
    }
    assert(frame@ =~= put_mac(f, node.dmac@));

    // IPv4 header checksum: only the destination address changed.
    let mut ipck: u16 = read_be16(frame, 24);
    ipck = csum_replace(ipck, old_hi, new_hi);
    ipck = csum_replace(ipck, old_lo, new_lo);
    write_be16(frame, 24, ipck);
    write_be16(frame, 30, new_hi);
    write_be16(frame, 32, new_lo);
    let ghost f3 = frame@;

    // The TCP/UDP checksum covers the IPv4 pseudo-header, so the address change
    // is folded in too. A UDP checksum of 0 means "no checksum".
    let cur: u16 = read_be16(frame, check_at);
    assert(cur == be16(f, check_at as int));
    if flow.is_tcp || cur != 0 {
        let mut l4: u16 = csum_replace(cur, old_hi, new_hi);
        l4 = csum_replace(l4, old_lo, new_lo);
        if new_port != flow.dest_port {
            l4 = csum_replace(l4, flow.dest_port, new_port);
        }
        if !flow.is_tcp && l4 == 0 {
            l4 = 0xFFFF;
        }
        write_be16(frame, check_at, l4);
    } else {
        proof {
            lemma_put16_same(f3, check_at as int);
        }
    }
    let ghost f4 = frame@;
    assert(be16(f4, off + 2) == flow.dest_port);
    if new_port != flow.dest_port {
        write_be16(frame, off + 2, new_port);
    } else {
        proof {
            lemma_put16_same(f4, off + 2);
        }
    }
}

/// Law: which headers a frame holds is decided by its bytes and by whether it is long
/// enough for them, whatever comes after them.
pub proof fn frames_are_read_by_their_headers(f: Seq<u8>)
    ensures
        f.len() < 14 ==> parsed(f) == (Parsed::Truncated { dest_port: None }),
        f.len() >= 14 && !(f[12] == 8 && f[13] == 0) ==> parsed(f) == Parsed::Unhandled,
        14 <= f.len() < 34 && f[12] == 8 && f[13] == 0 ==> parsed(f) == (Parsed::Truncated {
            dest_port: None,
        }),
        f.len() >= 34 && f[12] == 8 && f[13] == 0 ==> {
            let ihl = (f[14] % 16) as int;
            let off = if ihl < 5 {
                34
            } else {
                14 + 4 * ihl
            };
            let need = if f[23] == 6 {
                20int
            } else {
                8
            };
            if f[23] != 6 && f[23] != 17 {
                parsed(f) == Parsed::Unhandled
            } else if f.len() < off + 4 {
                parsed(f) == (Parsed::Truncated { dest_port: None })
            } else if f.len() < off + need {
                parsed(f) matches Parsed::Truncated { dest_port } && dest_port matches Some(p) && p
                    == f[off + 2] * 256 + f[off + 3]
            } else {
                parsed(f) matches Parsed::Complete { flow } && {
                    &&& flow.source_addr == f[26] * 0x1000000 + f[27] * 0x10000 + f[28] * 0x100
                        + f[29]
                    &&& flow.dest_addr == f[30] * 0x1000000 + f[31] * 0x10000 + f[32] * 0x100
                        + f[33]
                    &&& flow.source_port == f[off] * 256 + f[off + 1]
                    &&& flow.dest_port == f[off + 2] * 256 + f[off + 3]
                    &&& flow.is_tcp == (f[23] == 6)
                    &&& flow.flags == (if f[23] == 6 {
                        f[off + 13]
                    } else {
                        0
                    })
                }
            }
        },
{
}

/// Law: the payload does not matter. More bytes behind a complete packet do not change
/// what it parses as, however many they are.
pub proof fn payload_does_not_matter(f: Seq<u8>, payload: Seq<u8>)
    requires
        parsed(f) is Complete,
    ensures
        parsed(f + payload) == parsed(f),
{
    let g = f + payload;
    assert(forall|i: int| 0 <= i < f.len() ==> #[trigger] g[i] == f[i]);
}

/// Law: the illegal flag combinations of TCP are no flag at all (NULL), SYN with FIN,
/// SYN with RST, FIN with RST, and FIN with PSH and URG (XMAS), whatever else is set.
/// Nothing else is malformed.
pub proof fn five_flag_combinations_are_malformed(flow: Flow)
    ensures
        malformed(flow) <==> flow.is_tcp && {
            let f = flow.flags;
            ||| f == 0
            ||| f & 0x03 == 0x03
            ||| f & 0x06 == 0x06
            ||| f & 0x05 == 0x05
            ||| f & 0x29 == 0x29
        },
{
    let f = flow.flags;
    assert((f & 0x02 != 0 && f & 0x01 != 0) == (f & 0x03 == 0x03)) by (bit_vector);
    assert((f & 0x02 != 0 && f & 0x04 != 0) == (f & 0x06 == 0x06)) by (bit_vector);
    assert((f & 0x01 != 0 && f & 0x04 != 0) == (f & 0x05 == 0x05)) by (bit_vector);
    assert((f & 0x01 != 0 && f & 0x08 != 0 && f & 0x20 != 0) == (f & 0x29 == 0x29)) by (bit_vector);
}

/// Law: the Maglev slot of a flow is the 32-bit FNV-1a hash of its addresses and ports,
/// reduced to the size of the table. `states` are the states of the hash as the twelve
/// bytes go in.
pub proof fn flows_are_hashed_by_fnv1a(flow: Flow, bytes: Seq<u8>) -> (states: Seq<u32>)
    requires
        bytes.len() == 12,
        bytes[0] * 0x1000000 + bytes[1] * 0x10000 + bytes[2] * 0x100 + bytes[3]
            == flow.source_addr,
        bytes[4] * 0x1000000 + bytes[5] * 0x10000 + bytes[6] * 0x100 + bytes[7] == flow.dest_addr,
        bytes[8] * 256 + bytes[9] == flow.source_port,
        bytes[10] * 256 + bytes[11] == flow.dest_port,
    ensures
        states.len() == 13,
        states[0] == 2166136261,
        forall|i: int|
            1 <= i < 13 ==> #[trigger] states[i] == ((states[i - 1] ^ bytes[i - 1] as u32)
                * 16777619) % 0x1_0000_0000,
        flow_slot(flow) == states[12] as int % 65537,
{
    lemma_addr_bytes(flow.source_addr, bytes[0], bytes[1], bytes[2], bytes[3]);
    lemma_addr_bytes(flow.dest_addr, bytes[4], bytes[5], bytes[6], bytes[7]);
    assert(bytes =~= tuple_bytes(flow));
    let states = Seq::new(13, |i: int| fnv1a(bytes.take(i)));
    assert(bytes.take(0) =~= Seq::empty());
    assert(bytes.take(12) =~= bytes);
    assert forall|i: int| 1 <= i < 13 implies #[trigger] states[i] == ((states[i - 1] ^ bytes[i
        - 1] as u32) * 16777619) % 0x1_0000_0000 by {
        assert(bytes.take(i).drop_last() =~= bytes.take(i - 1));
        assert(bytes.take(i).last() == bytes[i - 1]);
        lemma_wrapped_product(states[i - 1] ^ bytes[i - 1] as u32);
    }
    states
}

proof fn lemma_addr_bytes(addr: u32, a: u8, b: u8, c: u8, d: u8)
    requires
        a * 0x1000000 + b * 0x10000 + c * 0x100 + d == addr,
    ensures
        addr_bytes(addr) == seq![a, b, c, d],
{
    assert(addr / 0x1000000 == a);
    assert(addr / 0x10000 == a * 256 + b);
    assert(addr / 0x100 == a * 0x10000 + b * 0x100 + c);
    assert(addr / 0x10000 % 256 == b);
    assert(addr / 0x100 % 256 == c);
    assert(addr % 256 == d);
}

proof fn lemma_wrapped_product(x: u32)
    ensures
        x.wrapping_mul(FNV_PRIME) == (x * 16777619) % 0x1_0000_0000,
{
}

/// Law: a forwarded packet goes to the port of the backend if it has one, and to the
/// port it was sent to otherwise; its other fields stay.
pub proof fn forwarded_packets_go_to_the_backends_port(f: Seq<u8>, flow: Flow, node: Node)
    requires
        parsed(f) == (Parsed::Complete { flow }),
    ensures
        parsed(rewritten(f, flow, node)) matches Parsed::Complete { flow: sent } && {
            &&& node.dport != 0 ==> sent.dest_port == node.dport
            &&& node.dport == 0 ==> sent.dest_port == flow.dest_port
            &&& sent.dest_addr == node.daddr
            &&& sent.source_addr == flow.source_addr
            &&& sent.source_port == flow.source_port
            &&& sent.is_tcp == flow.is_tcp
            &&& sent.flags == flow.flags
        },
{
    rewritten_frame_is_addressed_to_node(f, flow, node);
}

/// Law: byte by byte, a forwarded frame is the frame that came in with the backend's MAC
/// and address as destination, its port unless that is `0`, and the two checksums
/// replaced. All other bytes stay.
pub proof fn forwarded_frames_byte_by_byte(f: Seq<u8>, flow: Flow, node: Node)
    requires
        parsed(f) == (Parsed::Complete { flow }),
    ensures
        ({
            let g = rewritten(f, flow, node);
            let ihl = (f[14] % 16) as int;
            let off = if ihl < 5 {
                34
            } else {
                14 + 4 * ihl
            };
            let at = if f[23] == 6 {
                off + 16
            } else {
                off + 6
            };
            &&& g.len() == f.len()
            &&& forall|i: int| 0 <= i < 6 ==> #[trigger] g[i] == node.dmac@[i]
            &&& g[30] * 0x1000000 + g[31] * 0x10000 + g[32] * 0x100 + g[33] == node.daddr
            &&& node.dport != 0 ==> g[off + 2] * 256 + g[off + 3] == node.dport
            &&& node.dport == 0 ==> g[off + 2] == f[off + 2] && g[off + 3] == f[off + 3]
            &&& forall|i: int|
                6 <= i < f.len() && !(24 <= i < 26) && !(30 <= i < 34) && !(off + 2 <= i < off + 4)
                    && !(at <= i < at + 2) ==> #[trigger] g[i] == f[i]
        }),
{
    let g = rewritten(f, flow, node);
    let off = l4_off(f);
    let port = target_port(flow, node);
    rewrite_touches_only_destination(f, flow, node);
    let hi = addr_hi(node.daddr);
    let lo = addr_lo(node.daddr);
    assert(g[30] == (hi / 256) as u8 && g[31] == (hi % 256) as u8);
    assert(g[32] == (lo / 256) as u8 && g[33] == (lo % 256) as u8);
    lemma_be32(g, hi, lo, node.daddr);
    assert(g[off + 2] == (port / 256) as u8 && g[off + 3] == (port % 256) as u8);
}

/// What folding the carries back into 16 bits leaves of a sum.
pub open spec fn folded(sum: int) -> int {
    if sum == 0 {
        0
    } else {
        (sum - 1) % 0xFFFF + 1
    }
}

proof fn lemma_folded(a: int, b: int)
    requires
        a >= 0,
        b >= 0,
    ensures
        folded(folded(a) + b) == folded(a + b),
        0 <= folded(a) <= 0xFFFF,
{
}

proof fn lemma_readdressed_folds(check: u16, from: u32, to: u32)
    ensures
        readdressed(check, from, to) == 0xFFFF - folded(
            (0xFFFF - check) + (0xFFFF - from / 0x10000) + to / 0x10000 + (0xFFFF - from % 0x10000)
                + to % 0x10000,
        ),
{
    let a = (0xFFFF - check) + (0xFFFF - addr_hi(from)) + addr_hi(to);
    let b = (0xFFFF - addr_lo(from)) + addr_lo(to);
    let c1 = updated_checksum(check, addr_hi(from), addr_hi(to));
    update_is_a_ones_complement_sum(check, addr_hi(from), addr_hi(to));
    update_is_a_ones_complement_sum(c1, addr_lo(from), addr_lo(to));
    lemma_folded(a, b);
    assert(0xFFFF - c1 == folded(a));
}

/// Law: the IPv4 checksum of a forwarded frame is the one it had, updated by the change of
/// the destination address: in one's-complement arithmetic, the complement of the sum of
/// its complement, the complements of the two words of the old address, and the two words
/// of the new one.
pub proof fn forwarded_header_checksum(f: Seq<u8>, flow: Flow, node: Node)
    requires
        parsed(f) == (Parsed::Complete { flow }),
    ensures
        ({
            let g = rewritten(f, flow, node);
            g[24] * 256 + g[25] == 0xFFFF - folded(
                (0xFFFF - (f[24] * 256 + f[25])) + (0xFFFF - flow.dest_addr / 0x10000) + node.daddr
                    / 0x10000 + (0xFFFF - flow.dest_addr % 0x10000) + node.daddr % 0x10000,
            )
        }),
{
    let g = rewritten(f, flow, node);
    let v = readdressed(be16(f, 24), flow.dest_addr, node.daddr);
    assert(g[24] == (v / 256) as u8 && g[25] == (v % 256) as u8);
    lemma_readdressed_folds(be16(f, 24), flow.dest_addr, node.daddr);
}

/// Law: the TCP or UDP checksum of a forwarded frame is the one it had, updated by the
/// change of the destination address and by that of the port, if the port changes. A
/// missing UDP checksum stays missing, and one that comes out as zero is sent as `0xFFFF`.
pub proof fn forwarded_segment_checksum(f: Seq<u8>, flow: Flow, node: Node)
    requires
        parsed(f) == (Parsed::Complete { flow }),
    ensures
        ({
            let g = rewritten(f, flow, node);
            let ihl = (f[14] % 16) as int;
            let off = if ihl < 5 {
                34
            } else {
                14 + 4 * ihl
            };
            let at = if flow.is_tcp {
                off + 16
            } else {
                off + 6
            };
            let check = f[at] * 256 + f[at + 1];
            let moved = (0xFFFF - check) + (0xFFFF - flow.dest_addr / 0x10000) + node.daddr
                / 0x10000 + (0xFFFF - flow.dest_addr % 0x10000) + node.daddr % 0x10000;
            let full = if node.dport != 0 && node.dport != flow.dest_port {
                0xFFFF - folded(moved + (0xFFFF - flow.dest_port) + node.dport)
            } else {
                0xFFFF - folded(moved)
            };
            g[at] * 256 + g[at + 1] == (if !flow.is_tcp && check == 0 {
                0
            } else if !flow.is_tcp && full == 0 {
                0xFFFF
            } else {
                full
            })
        }),
{
    let at = check_offset(f, flow.is_tcp);
    lemma_check_bytes(f, flow, node);
    lemma_forwarded_check_folds(flow, node, be16(f, at));
}

/// Where the forwarded checksum stands.
proof fn lemma_check_bytes(f: Seq<u8>, flow: Flow, node: Node)
    requires
        parsed(f) == (Parsed::Complete { flow }),
    ensures
        ({
            let g = rewritten(f, flow, node);
            let at = check_offset(f, flow.is_tcp);
            g[at] * 256 + g[at + 1] == forwarded_check(flow, node, be16(f, at))
        }),
{
    let g = rewritten(f, flow, node);
    let at = check_offset(f, flow.is_tcp);
    let w = forwarded_check(flow, node, be16(f, at));
    assert(g[at] == (w / 256) as u8 && g[at + 1] == (w % 256) as u8);
}

/// The forwarded checksum as one sum.
proof fn lemma_forwarded_check_folds(flow: Flow, node: Node, check: u16)
    ensures
        ({
            let moved = (0xFFFF - check) + (0xFFFF - flow.dest_addr / 0x10000) + node.daddr
                / 0x10000 + (0xFFFF - flow.dest_addr % 0x10000) + node.daddr % 0x10000;
            let full = if node.dport != 0 && node.dport != flow.dest_port {
                0xFFFF - folded(moved + (0xFFFF - flow.dest_port) + node.dport)
            } else {
                0xFFFF - folded(moved)
            };
            forwarded_check(flow, node, check) == (if !flow.is_tcp && check == 0 {
                0
            } else if !flow.is_tcp && full == 0 {
                0xFFFF
            } else {
                full
            })
        }),
{
    let a = (0xFFFF - check) + (0xFFFF - flow.dest_addr / 0x10000) + node.daddr / 0x10000 + (0xFFFF
        - flow.dest_addr % 0x10000) + node.daddr % 0x10000;
    let moved = readdressed(check, flow.dest_addr, node.daddr);
    lemma_readdressed_folds(check, flow.dest_addr, node.daddr);
    assert(0xFFFF - moved == folded(a));
    if node.dport != 0 && node.dport != flow.dest_port {
        lemma_port_folds(moved, a, flow.dest_port, node.dport);
    }
}

/// One more update of a checksum that is a sum adds to that sum.
proof fn lemma_port_folds(moved: u16, sum: int, from: u16, to: u16)
    requires
        sum >= 0,
        0xFFFF - moved == folded(sum),
    ensures
        updated_checksum(moved, from, to) == 0xFFFF - folded(sum + (0xFFFF - from) + to),
{
    update_is_a_ones_complement_sum(moved, from, to);
    lemma_folded(sum, (0xFFFF - from) + to);
}

} // verus!
