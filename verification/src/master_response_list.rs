//! The master server's reply to a list request: a set of game-server
//! socket addresses, IPv4 or IPv6, held and emitted in ascending natural
//! order of (address bytes, then port), count-prefixed by two bytes.

use vstd::prelude::*;
use crate::DecodeError;
use crate::EncodeError;
use crate::ordered::Keyed;
use crate::ordered::KeyCompare;
use crate::ordered::all_wf;
use crate::ordered::all_encodable;
use crate::ordered::sorted;
use crate::ordered::spec_encode_seq;
use crate::ordered::spec_read_sorted;
use crate::ordered::read_sorted_entries;
use crate::ordered::lemma_rt_sorted;
use crate::ordered::lemma_views_sorted;
use crate::ordered::views;
use crate::ordered::write_entries;
use crate::util::ByteWriter;
use crate::util::PacketPayload;
use crate::util::le16;
use crate::util::spec_read_u8;
use crate::util::spec_read_u16;
use crate::util::read_u8_at;
use crate::util::read_u16_at;
use crate::util::write_le;
use crate::util::lemma_rt_u8;
use crate::util::lemma_rt_u16;

verus! {

/// An IPv4 address, one field per wire octet.
#[derive(Clone, Copy, Debug, PartialEq, Eq, Structural)]
pub struct V4Ip {
    pub a: u8,
    pub b: u8,
    pub c: u8,
    pub d: u8,
}

/// An IPv4 socket address as the master server lists it.
#[derive(Clone, Copy, Debug, PartialEq, Eq, Structural)]
pub struct SocketV4 {
    pub ip: V4Ip,
    pub port: u16,
}

impl View for SocketV4 {
    type V = SocketV4;

    open spec fn view(&self) -> SocketV4 {
        *self
    }
}

impl Keyed for SocketV4 {
    /// Natural order of the pair (address bytes, then port).
    open spec fn key(&self) -> int {
        (((self.ip.a * 256 + self.ip.b) * 256 + self.ip.c) * 256 + self.ip.d) * 65536
            + self.port
    }
}

impl KeyCompare for SocketV4 {
    fn key_lt(&self, other: &Self) -> (r: bool) {
        if self.ip.a != other.ip.a {
            self.ip.a < other.ip.a
        } else if self.ip.b != other.ip.b {
            self.ip.b < other.ip.b
        } else if self.ip.c != other.ip.c {
            self.ip.c < other.ip.c
        } else if self.ip.d != other.ip.d {
            self.ip.d < other.ip.d
        } else {
            self.port < other.port
        }
    }

    fn key_eq(&self, other: &Self) -> (r: bool) {
        self.ip.a == other.ip.a && self.ip.b == other.ip.b && self.ip.c == other.ip.c
            && self.ip.d == other.ip.d && self.port == other.port
    }

    proof fn lemma_view_key(&self) {
    }
}

impl ByteWriter for SocketV4 {
    open spec fn wf(&self) -> bool {
        true
    }

    open spec fn encodable(&self) -> bool {
        true
    }

    open spec fn spec_encode(&self) -> Seq<u8> {
        seq![self.ip.a, self.ip.b, self.ip.c, self.ip.d] + le16(self.port)
    }

    fn write_pkt(&self, out: &mut Vec<u8>) -> (r: Result<(), EncodeError>) {
        out.push(self.ip.a);
        out.push(self.ip.b);
        out.push(self.ip.c);
        out.push(self.ip.d);
        write_le(out, self.port as u64, 2);
        proof {
            assert(out@ =~= old(out)@ + self.spec_encode());
        }
        Ok(())
    }
}

/// The address bytes of an IPv4 entry.
pub open spec fn spec_read_v4_ip(s: Seq<u8>) -> Option<(V4Ip, Seq<u8>)> {
    if s.len() >= 4 {
        Some((V4Ip { a: s[0], b: s[1], c: s[2], d: s[3] }, s.skip(4)))
    } else {
        None
    }
}

/// Parses the four address octets of an IPv4 entry at `pos`.
pub fn parse_v4_ip(input: &[u8], pos: usize) -> (r: Result<(V4Ip, usize), DecodeError>)
    requires
        pos <= input@.len(),
    ensures
        match spec_read_v4_ip(input@.skip(pos as int)) {
            Some(p) => {
                &&& r matches Ok(q)
                &&& q.0 == p.0
                &&& pos <= q.1 <= input@.len()
                &&& input@.skip(q.1 as int) == p.1
            },
            None => r == Err::<(V4Ip, usize), DecodeError>(DecodeError::UnexpectedEnd),
        },
{
    if input.len() - pos < 4 {
        return Err(DecodeError::UnexpectedEnd);
    }
    let ip = V4Ip { a: input[pos], b: input[pos + 1], c: input[pos + 2], d: input[pos + 3] };
    proof {
        let s = input@.skip(pos as int);
        assert(s[0] == input@[pos as int]);
        assert(s[1] == input@[pos as int + 1]);
        assert(s[2] == input@[pos as int + 2]);
        assert(s[3] == input@[pos as int + 3]);
        assert(s.skip(4) =~= input@.skip(pos as int + 4));
    }
    Ok((ip, pos + 4))
}

impl PacketPayload for SocketV4 {
    open spec fn spec_decode(s: Seq<u8>) -> Option<(SocketV4, Seq<u8>)> {
        match spec_read_v4_ip(s) {
            None => None,
            Some((ip, s1)) => match spec_read_u16(s1) {
                None => None,
                Some((port, s2)) => Some((SocketV4 { ip, port }, s2)),
            },
        }
    }

    fn read_from(input: &[u8], pos: usize) -> (r: Result<(Self, usize), DecodeError>) {
        let (ip, p1) = parse_v4_ip(input, pos)?;
        let (port, p2) = read_u16_at(input, p1)?;
        Ok((SocketV4 { ip, port }, p2))
    }

    proof fn lemma_round_trip(v: Self, rest: Seq<u8>) {
        let t1 = le16(v.port) + rest;
        let t0 = seq![v.ip.a, v.ip.b, v.ip.c, v.ip.d] + t1;
        assert(v.spec_encode() + rest =~= t0);
        assert(t0[0] == v.ip.a && t0[1] == v.ip.b && t0[2] == v.ip.c && t0[3] == v.ip.d);
        assert(t0.skip(4) =~= t1);
        lemma_rt_u16(v.port, rest);
    }
}

/// Parses one IPv4 server entry (address, then port) at `pos`.
pub fn parse_master_response_v4_server_entry(input: &[u8], pos: usize) -> (r: Result<
    (SocketV4, usize),
    DecodeError,
>)
    requires
        pos <= input@.len(),
    ensures
        match SocketV4::spec_decode(input@.skip(pos as int)) {
            Some(p) => {
                &&& r matches Ok(q)
                &&& q.0 == p.0
                &&& pos <= q.1 <= input@.len()
                &&& input@.skip(q.1 as int) == p.1
            },
            None => r is Err,
        },
{
    SocketV4::read_from(input, pos)
}

/// An IPv6 address, one field per 16-bit wire segment, most significant
/// segment first.
#[derive(Clone, Copy, Debug, PartialEq, Eq, Structural)]
pub struct V6Ip {
    pub s0: u16,
    pub s1: u16,
    pub s2: u16,
    pub s3: u16,
    pub s4: u16,
    pub s5: u16,
    pub s6: u16,
    pub s7: u16,
}

/// An IPv6 socket address as the master server lists it.
#[derive(Clone, Copy, Debug, PartialEq, Eq, Structural)]
pub struct SocketV6 {
    pub ip: V6Ip,
    pub port: u16,
}

impl View for SocketV6 {
    type V = SocketV6;

    open spec fn view(&self) -> SocketV6 {
        *self
    }
}

impl Keyed for SocketV6 {
    /// Natural order of the pair (address segments, then port).
    open spec fn key(&self) -> int {
        (((((((self.ip.s0 * 65536 + self.ip.s1) * 65536 + self.ip.s2) * 65536 + self.ip.s3)
            * 65536 + self.ip.s4) * 65536 + self.ip.s5) * 65536 + self.ip.s6) * 65536
            + self.ip.s7) * 65536 + self.port
    }
}

impl KeyCompare for SocketV6 {
    fn key_lt(&self, other: &Self) -> (r: bool) {
        if self.ip.s0 != other.ip.s0 {
            self.ip.s0 < other.ip.s0
        } else if self.ip.s1 != other.ip.s1 {
            self.ip.s1 < other.ip.s1
        } else if self.ip.s2 != other.ip.s2 {
            self.ip.s2 < other.ip.s2
        } else if self.ip.s3 != other.ip.s3 {
            self.ip.s3 < other.ip.s3
        } else if self.ip.s4 != other.ip.s4 {
            self.ip.s4 < other.ip.s4
        } else if self.ip.s5 != other.ip.s5 {
            self.ip.s5 < other.ip.s5
        } else if self.ip.s6 != other.ip.s6 {
            self.ip.s6 < other.ip.s6
        } else if self.ip.s7 != other.ip.s7 {
            self.ip.s7 < other.ip.s7
        } else {
            self.port < other.port
        }
    }

    fn key_eq(&self, other: &Self) -> (r: bool) {
        self.ip.s0 == other.ip.s0 && self.ip.s1 == other.ip.s1 && self.ip.s2 == other.ip.s2
            && self.ip.s3 == other.ip.s3 && self.ip.s4 == other.ip.s4 && self.ip.s5 == other.ip.s5
            && self.ip.s6 == other.ip.s6 && self.ip.s7 == other.ip.s7 && self.port == other.port
    }

    proof fn lemma_view_key(&self) {
    }
}

impl ByteWriter for SocketV6 {
    open spec fn wf(&self) -> bool {
        true
    }

    open spec fn encodable(&self) -> bool {
        true
    }

    /// Each segment is itself little-endian on the wire; the segments come
    /// most significant first, the port last.
    open spec fn spec_encode(&self) -> Seq<u8> {
        le16(self.ip.s0) + le16(self.ip.s1) + le16(self.ip.s2) + le16(self.ip.s3) + le16(
            self.ip.s4,
        ) + le16(self.ip.s5) + le16(self.ip.s6) + le16(self.ip.s7) + le16(self.port)
    }

    fn write_pkt(&self, out: &mut Vec<u8>) -> (r: Result<(), EncodeError>) {
        write_le(out, self.ip.s0 as u64, 2);
        write_le(out, self.ip.s1 as u64, 2);
        write_le(out, self.ip.s2 as u64, 2);
        write_le(out, self.ip.s3 as u64, 2);
        write_le(out, self.ip.s4 as u64, 2);
        write_le(out, self.ip.s5 as u64, 2);
        write_le(out, self.ip.s6 as u64, 2);
        write_le(out, self.ip.s7 as u64, 2);
        write_le(out, self.port as u64, 2);
        proof {
            assert(out@ =~= old(out)@ + self.spec_encode());
        }
        Ok(())
    }
}

/// The address segments of an IPv6 entry.
pub open spec fn spec_read_v6_ip(s: Seq<u8>) -> Option<(V6Ip, Seq<u8>)> {
    match spec_read_u16(s) {
        None => None,
        Some((s0, r0)) => match spec_read_u16(r0) {
            None => None,
            Some((s1, r1)) => match spec_read_u16(r1) {
                None => None,
                Some((s2, r2)) => match spec_read_u16(r2) {
                    None => None,
                    Some((s3, r3)) => match spec_read_u16(r3) {
                        None => None,
                        Some((s4, r4)) => match spec_read_u16(r4) {
                            None => None,
                            Some((s5, r5)) => match spec_read_u16(r5) {
                                None => None,
                                Some((s6, r6)) => match spec_read_u16(r6) {
                                    None => None,
                                    Some((s7, r7)) => Some(
                                        (V6Ip { s0, s1, s2, s3, s4, s5, s6, s7 }, r7),
                                    ),
                                },
                            },
                        },
                    },
                },
            },
        },
    }
}

/// Parses the eight address segments of an IPv6 entry at `pos`.
pub fn parse_v6_ip(input: &[u8], pos: usize) -> (r: Result<(V6Ip, usize), DecodeError>)
    requires
        pos <= input@.len(),
    ensures
        match spec_read_v6_ip(input@.skip(pos as int)) {
            Some(p) => {
                &&& r matches Ok(q)
                &&& q.0 == p.0
                &&& pos <= q.1 <= input@.len()
                &&& input@.skip(q.1 as int) == p.1
            },
            None => r is Err,
        },
{
    let (s0, p0) = read_u16_at(input, pos)?;
    let (s1, p1) = read_u16_at(input, p0)?;
    let (s2, p2) = read_u16_at(input, p1)?;
    let (s3, p3) = read_u16_at(input, p2)?;
    let (s4, p4) = read_u16_at(input, p3)?;
    let (s5, p5) = read_u16_at(input, p4)?;
    let (s6, p6) = read_u16_at(input, p5)?;
    let (s7, p7) = read_u16_at(input, p6)?;
    Ok((V6Ip { s0, s1, s2, s3, s4, s5, s6, s7 }, p7))
}

impl PacketPayload for SocketV6 {
    open spec fn spec_decode(s: Seq<u8>) -> Option<(SocketV6, Seq<u8>)> {
        match spec_read_v6_ip(s) {
            None => None,
            Some((ip, s1)) => match spec_read_u16(s1) {
                None => None,
                Some((port, s2)) => Some((SocketV6 { ip, port }, s2)),
            },
        }
    }

    fn read_from(input: &[u8], pos: usize) -> (r: Result<(Self, usize), DecodeError>) {
        let (ip, p1) = parse_v6_ip(input, pos)?;
        let (port, p2) = read_u16_at(input, p1)?;
        Ok((SocketV6 { ip, port }, p2))
    }

    #[verifier::rlimit(100)]
    proof fn lemma_round_trip(v: Self, rest: Seq<u8>) {
        let t8 = le16(v.port) + rest;
        let t7 = le16(v.ip.s7) + t8;
        let t6 = le16(v.ip.s6) + t7;
        let t5 = le16(v.ip.s5) + t6;
        let t4 = le16(v.ip.s4) + t5;
        let t3 = le16(v.ip.s3) + t4;
        let t2 = le16(v.ip.s2) + t3;
        let t1 = le16(v.ip.s1) + t2;
        let t0 = le16(v.ip.s0) + t1;
        let p1 = le16(v.ip.s0);
        let p2 = p1 + le16(v.ip.s1);
        let p3 = p2 + le16(v.ip.s2);
        let p4 = p3 + le16(v.ip.s3);
        let p5 = p4 + le16(v.ip.s4);
        let p6 = p5 + le16(v.ip.s5);
        let p7 = p6 + le16(v.ip.s6);
        let p8 = p7 + le16(v.ip.s7);
        let p9 = p8 + le16(v.port);
        assert(v.spec_encode() == p9);
        vstd::seq_lib::lemma_concat_associative(p8, le16(v.port), rest);
        vstd::seq_lib::lemma_concat_associative(p7, le16(v.ip.s7), t8);
        vstd::seq_lib::lemma_concat_associative(p6, le16(v.ip.s6), t7);
        vstd::seq_lib::lemma_concat_associative(p5, le16(v.ip.s5), t6);
        vstd::seq_lib::lemma_concat_associative(p4, le16(v.ip.s4), t5);
        vstd::seq_lib::lemma_concat_associative(p3, le16(v.ip.s3), t4);
        vstd::seq_lib::lemma_concat_associative(p2, le16(v.ip.s2), t3);
        vstd::seq_lib::lemma_concat_associative(p1, le16(v.ip.s1), t2);
        assert(v.spec_encode() + rest == t0);
        lemma_rt_u16(v.ip.s0, t1);
        lemma_rt_u16(v.ip.s1, t2);
        lemma_rt_u16(v.ip.s2, t3);
        lemma_rt_u16(v.ip.s3, t4);
        lemma_rt_u16(v.ip.s4, t5);
        lemma_rt_u16(v.ip.s5, t6);
        lemma_rt_u16(v.ip.s6, t7);
        lemma_rt_u16(v.ip.s7, t8);
        lemma_rt_u16(v.port, rest);
    }
}

/// Parses one IPv6 server entry (address, then port) at `pos`.
pub fn parse_master_response_v6_server_entry(input: &[u8], pos: usize) -> (r: Result<
    (SocketV6, usize),
    DecodeError,
>)
    requires
        pos <= input@.len(),
    ensures
        match SocketV6::spec_decode(input@.skip(pos as int)) {
            Some(p) => {
                &&& r matches Ok(q)
                &&& q.0 == p.0
                &&& pos <= q.1 <= input@.len()
                &&& input@.skip(q.1 as int) == p.1
            },
            None => r is Err,
        },
{
    SocketV6::read_from(input, pos)
}

/// An ordered set of IPv4 server addresses.
pub type V4Set = Vec<SocketV4>;

/// An ordered set of IPv6 server addresses.
pub type V6Set = Vec<SocketV6>;

/// The mathematical parser for a two-byte-counted ordered address set.
pub open spec fn spec_read_server_set<E: PacketPayload>(s: Seq<u8>) -> Option<
    (Seq<E::V>, Seq<u8>),
> where E::V: Keyed {
    match spec_read_u16(s) {
        None => None,
        Some((n, s1)) => spec_read_sorted::<E>(s1, n as nat, Seq::empty()),
    }
}

/// Reads a two-byte count and that many entries into an ordered set.
pub fn parse_master_response_inner<E: PacketPayload + KeyCompare>(input: &[u8], pos: usize) -> (r:
    Result<(Vec<E>, usize), DecodeError>) where E::V: Keyed
    requires
        pos <= input@.len(),
    ensures
        match spec_read_server_set::<E>(input@.skip(pos as int)) {
            Some(p) => {
                &&& r matches Ok(q)
                &&& views(q.0@) == p.0
                &&& sorted(q.0@)
                &&& all_wf(q.0@)
                &&& pos <= q.1 <= input@.len()
                &&& input@.skip(q.1 as int) == p.1
            },
            None => r is Err,
        },
{
    let (n, p1) = read_u16_at(input, pos)?;
    read_sorted_entries::<E>(input, p1, n as usize)
}

/// Parses a counted ordered set of IPv4 server entries at `pos`.
pub fn parse_master_response_v4(input: &[u8], pos: usize) -> (r: Result<
    (V4Set, usize),
    DecodeError,
>)
    requires
        pos <= input@.len(),
    ensures
        match spec_read_server_set::<SocketV4>(input@.skip(pos as int)) {
            Some(p) => {
                &&& r matches Ok(q)
                &&& views(q.0@) == p.0
                &&& sorted(q.0@)
                &&& pos <= q.1 <= input@.len()
                &&& input@.skip(q.1 as int) == p.1
            },
            None => r is Err,
        },
{
    parse_master_response_inner::<SocketV4>(input, pos)
}

/// Parses a counted ordered set of IPv6 server entries at `pos`.
pub fn parse_master_response_v6(input: &[u8], pos: usize) -> (r: Result<
    (V6Set, usize),
    DecodeError,
>)
    requires
        pos <= input@.len(),
    ensures
        match spec_read_server_set::<SocketV6>(input@.skip(pos as int)) {
            Some(p) => {
                &&& r matches Ok(q)
                &&& views(q.0@) == p.0
                &&& sorted(q.0@)
                &&& pos <= q.1 <= input@.len()
                &&& input@.skip(q.1 as int) == p.1
            },
            None => r is Err,
        },
{
    parse_master_response_inner::<SocketV6>(input, pos)
}

/// A master-server address list, IPv4 or IPv6, tagged by one type byte
/// whose values are 1 and 2.
#[derive(Clone, Debug, PartialEq, Eq)]
pub enum ServerList {
    IPv4(V4Set),
    IPv6(V6Set),
}

/// The mathematical content of a `ServerList`.
pub enum ServerListV {
    IPv4(Seq<SocketV4>),
    IPv6(Seq<SocketV6>),
}

impl View for ServerList {
    type V = ServerListV;

    open spec fn view(&self) -> ServerListV {
        match self {
            ServerList::IPv4(set) => ServerListV::IPv4(set@),
            ServerList::IPv6(set) => ServerListV::IPv6(set@),
        }
    }
}

impl ByteWriter for ServerList {
    open spec fn wf(&self) -> bool {
        match self {
            ServerList::IPv4(set) => sorted(set@),
            ServerList::IPv6(set) => sorted(set@),
        }
    }

    open spec fn encodable(&self) -> bool {
        match self {
            ServerList::IPv4(set) => set@.len() <= 65535,
            ServerList::IPv6(set) => set@.len() <= 65535,
        }
    }

    /// The type byte (1 for IPv4, 2 for IPv6), a two-byte count, then the
    /// entries in ascending order.
    open spec fn spec_encode(&self) -> Seq<u8> {
        match self {
            ServerList::IPv4(set) => seq![1u8] + le16(set@.len() as u16) + spec_encode_seq(set@),
            ServerList::IPv6(set) => seq![2u8] + le16(set@.len() as u16) + spec_encode_seq(set@),
        }
    }

    fn write_pkt(&self, out: &mut Vec<u8>) -> (r: Result<(), EncodeError>) {
        match self {
            ServerList::IPv4(set) => {
                if set.len() > 65535 {
                    return Err(EncodeError::Overflow);
                }
                out.push(1);
                write_le(out, set.len() as u64, 2);
                proof {
                    assert(all_wf(set@) && all_encodable(set@));
                }
                match write_entries(out, set) {
                    Ok(()) => {
                        proof {
                            assert(out@ =~= old(out)@ + self.spec_encode());
                        }
                        Ok(())
                    },
                    Err(e) => {
                        proof {
                            assert(false);
                        }
                        Err(e)
                    },
                }
            },
            ServerList::IPv6(set) => {
                if set.len() > 65535 {
                    return Err(EncodeError::Overflow);
                }
                out.push(2);
                write_le(out, set.len() as u64, 2);
                proof {
                    assert(all_wf(set@) && all_encodable(set@));
                }
                match write_entries(out, set) {
                    Ok(()) => {
                        proof {
                            assert(out@ =~= old(out)@ + self.spec_encode());
                        }
                        Ok(())
                    },
                    Err(e) => {
                        proof {
                            assert(false);
                        }
                        Err(e)
                    },
                }
            },
        }
    }
}

impl PacketPayload for ServerList {
    open spec fn spec_decode(s: Seq<u8>) -> Option<(ServerListV, Seq<u8>)> {
        match spec_read_u8(s) {
            None => None,
            Some((t, s1)) => if t == 1 {
                match spec_read_server_set::<SocketV4>(s1) {
                    None => None,
                    Some((set, s2)) => Some((ServerListV::IPv4(set), s2)),
                }
            } else if t == 2 {
                match spec_read_server_set::<SocketV6>(s1) {
                    None => None,
                    Some((set, s2)) => Some((ServerListV::IPv6(set), s2)),
                }
            } else {
                None
            },
        }
    }

    fn read_from(input: &[u8], pos: usize) -> (r: Result<(Self, usize), DecodeError>) {
        let (t, p1) = read_u8_at(input, pos)?;
        if t == 1 {
            let (set, p2) = parse_master_response_v4(input, p1)?;
            proof {
                assert(views(set@) =~= set@);
            }
            Ok((ServerList::IPv4(set), p2))
        } else if t == 2 {
            let (set, p2) = parse_master_response_v6(input, p1)?;
            proof {
                assert(views(set@) =~= set@);
            }
            Ok((ServerList::IPv6(set), p2))
        } else {
            Err(DecodeError::UnknownTag)
        }
    }

    proof fn lemma_round_trip(v: Self, rest: Seq<u8>) {
        match v {
            ServerList::IPv4(set) => {
                let body = spec_encode_seq(set@) + rest;
                let cnt = le16(set@.len() as u16);
                vstd::seq_lib::lemma_concat_associative(seq![1u8], cnt, spec_encode_seq(set@));
                vstd::seq_lib::lemma_concat_associative(seq![1u8], cnt + spec_encode_seq(set@), rest);
                vstd::seq_lib::lemma_concat_associative(cnt, spec_encode_seq(set@), rest);
                assert(v.spec_encode() + rest == seq![1u8] + (cnt + body));
                lemma_rt_u8(1u8, cnt + body);
                lemma_rt_u16(set@.len() as u16, body);
                lemma_views_sorted(set@);
                assert(Seq::empty() + views(set@) =~= views(set@));
                assert(all_wf(set@) && all_encodable(set@));
                lemma_rt_sorted::<SocketV4>(set@, Seq::empty(), rest);
                assert(views(set@) =~= set@);
            },
            ServerList::IPv6(set) => {
                let body = spec_encode_seq(set@) + rest;
                let cnt = le16(set@.len() as u16);
                vstd::seq_lib::lemma_concat_associative(seq![2u8], cnt, spec_encode_seq(set@));
                vstd::seq_lib::lemma_concat_associative(seq![2u8], cnt + spec_encode_seq(set@), rest);
                vstd::seq_lib::lemma_concat_associative(cnt, spec_encode_seq(set@), rest);
                assert(v.spec_encode() + rest == seq![2u8] + (cnt + body));
                lemma_rt_u8(2u8, cnt + body);
                lemma_rt_u16(set@.len() as u16, body);
                lemma_views_sorted(set@);
                assert(Seq::empty() + views(set@) =~= views(set@));
                assert(all_wf(set@) && all_encodable(set@));
                lemma_rt_sorted::<SocketV6>(set@, Seq::empty(), rest);
                assert(views(set@) =~= set@);
            },
        }
    }
}

/// Truncation of one IPv4 entry: a cut inside it never decodes.
proof fn lemma_truncated_v4_entry(e: SocketV4, j: int)
    requires
        0 <= j < e.spec_encode().len(),
    ensures
        SocketV4::spec_decode(e.spec_encode().take(j)) is None,
{
    crate::util::lemma_le_bytes_len(e.port as int, 2);
    let t = e.spec_encode().take(j);
    assert(t.len() == j);
    if j >= 4 {
        assert(t.skip(4).len() == j - 4);
    }
}

/// Truncation of one IPv6 entry: a cut inside it never decodes.
proof fn lemma_truncated_v6_entry(e: SocketV6, j: int)
    requires
        0 <= j < e.spec_encode().len(),
    ensures
        SocketV6::spec_decode(e.spec_encode().take(j)) is None,
{
    crate::util::lemma_le_bytes_len(e.ip.s0 as int, 2);
    crate::util::lemma_le_bytes_len(e.ip.s1 as int, 2);
    crate::util::lemma_le_bytes_len(e.ip.s2 as int, 2);
    crate::util::lemma_le_bytes_len(e.ip.s3 as int, 2);
    crate::util::lemma_le_bytes_len(e.ip.s4 as int, 2);
    crate::util::lemma_le_bytes_len(e.ip.s5 as int, 2);
    crate::util::lemma_le_bytes_len(e.ip.s6 as int, 2);
    crate::util::lemma_le_bytes_len(e.ip.s7 as int, 2);
    crate::util::lemma_le_bytes_len(e.port as int, 2);
    let t = e.spec_encode().take(j);
    assert(t.len() == j && j < 18);
    assert(t.skip(2).len() == j - 2 || j < 2);
    assert(t.skip(2).skip(2).len() == j - 4 || j < 4);
    assert(t.skip(2).skip(2).skip(2).len() == j - 6 || j < 6);
    assert(t.skip(2).skip(2).skip(2).skip(2).len() == j - 8 || j < 8);
    assert(t.skip(2).skip(2).skip(2).skip(2).skip(2).len() == j - 10 || j < 10);
    assert(t.skip(2).skip(2).skip(2).skip(2).skip(2).skip(2).len() == j - 12 || j < 12);
    assert(t.skip(2).skip(2).skip(2).skip(2).skip(2).skip(2).skip(2).len() == j - 14 || j < 14);
    assert(t.skip(2).skip(2).skip(2).skip(2).skip(2).skip(2).skip(2).skip(2).len() == j - 16 || j
        < 16);
}

/// Truncation: an encoded address list cut anywhere short fails to decode
/// rather than yielding a partial set.
pub proof fn lemma_truncated_server_list(v: ServerList, k: int)
    requires
        v.wf(),
        v.encodable(),
        0 <= k < v.spec_encode().len(),
    ensures
        ServerList::spec_decode(v.spec_encode().take(k)) is None,
{
    let t = v.spec_encode().take(k);
    assert(t.len() == k);
    match v {
        ServerList::IPv4(set) => {
            crate::util::lemma_le_bytes_len(set@.len() as u16 as int, 2);
            if k == 0 {
            } else if k < 3 {
                assert(t[0] == 1);
                assert(t.skip(1).len() == k - 1);
            } else {
                let body = spec_encode_seq(set@);
                let cut = body.take(k - 3);
                assert(t =~= seq![1u8] + (le16(set@.len() as u16) + cut));
                lemma_rt_u8(1u8, le16(set@.len() as u16) + cut);
                lemma_rt_u16(set@.len() as u16, cut);
                assert(crate::ordered::truncation_safe::<SocketV4>()) by {
                    assert forall|e: SocketV4, j: int|
                        e.wf() && e.encodable() && 0 <= j < e.spec_encode().len() implies (
                    #[trigger] SocketV4::spec_decode(e.spec_encode().take(j))) is None by {
                        lemma_truncated_v4_entry(e, j);
                    }
                }
                assert(all_wf(set@) && all_encodable(set@));
                crate::ordered::lemma_truncated_sorted::<SocketV4>(set@, Seq::empty(), k - 3);
            }
        },
        ServerList::IPv6(set) => {
            crate::util::lemma_le_bytes_len(set@.len() as u16 as int, 2);
            if k == 0 {
            } else if k < 3 {
                assert(t[0] == 2);
                assert(t.skip(1).len() == k - 1);
            } else {
                let body = spec_encode_seq(set@);
                let cut = body.take(k - 3);
                assert(t =~= seq![2u8] + (le16(set@.len() as u16) + cut));
                lemma_rt_u8(2u8, le16(set@.len() as u16) + cut);
                lemma_rt_u16(set@.len() as u16, cut);
                assert(crate::ordered::truncation_safe::<SocketV6>()) by {
                    assert forall|e: SocketV6, j: int|
                        e.wf() && e.encodable() && 0 <= j < e.spec_encode().len() implies (
                    #[trigger] SocketV6::spec_decode(e.spec_encode().take(j))) is None by {
                        lemma_truncated_v6_entry(e, j);
                    }
                }
                assert(all_wf(set@) && all_encodable(set@));
                crate::ordered::lemma_truncated_sorted::<SocketV6>(set@, Seq::empty(), k - 3);
            }
        },
    }
}

} // verus!
