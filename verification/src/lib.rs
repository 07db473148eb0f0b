//! Binary codec for the OpenTTD server-discovery and coordinator protocols.
//!
//! Every message is a typed value with an exact little-endian wire layout.
//! Encoding and decoding are pure functions over byte buffers, specified by
//! `spec_encode` / `spec_decode` models and proved to round-trip.

pub mod client_get_list;
pub mod master_response_list;
pub mod newgrf;
pub mod server_detail_info;
pub mod server_register;
pub mod server_response;
pub mod server_unregister;
pub mod ordered;
pub mod util;

use vstd::prelude::*;
use crate::newgrf::NewGRFHash;
use crate::ordered::all_encodable;
use crate::ordered::all_wf;
use crate::ordered::lemma_rt_entries;
use crate::ordered::lemma_rt_sorted;
use crate::ordered::lemma_views_sorted;
use crate::ordered::read_entries;
use crate::ordered::read_sorted_entries;
use crate::ordered::sorted;
use crate::ordered::spec_encode_seq;
use crate::ordered::spec_read_entries;
use crate::ordered::spec_read_sorted;
use crate::ordered::views;
use crate::ordered::write_entries;
use crate::ordered::Keyed;
use crate::ordered::KeyCompare;
use crate::server_response::ServerResponse;
use crate::server_response::ServerResponseV;
use crate::util::le16;
use crate::util::le32;
use crate::util::lemma_rt_raw;
use crate::util::lemma_rt_u16;
use crate::util::lemma_rt_u32;
use crate::util::lemma_rt_u8;
use crate::util::lemma_rt_zstring;
use crate::util::read_raw_at;
use crate::util::read_u16_at;
use crate::util::read_u32_at;
use crate::util::read_u8_at;
use crate::util::read_cstring;
use crate::util::spec_read_raw;
use crate::util::spec_read_u16;
use crate::util::spec_read_u32;
use crate::util::spec_read_u8;
use crate::util::spec_read_zstring;
use crate::util::write_le;
use crate::util::zstring_encode;
use crate::util::ByteWriter;
use crate::util::PacketPayload;
use crate::util::ZString;

verus! {

/// A failure while decoding a wire buffer.
#[derive(Clone, Copy, Debug, PartialEq, Eq, Structural)]
pub enum DecodeError {
    /// The buffer ended before the field that was being read.
    UnexpectedEnd,
    /// A discriminant byte matched no known variant.
    UnknownTag,
    /// The declared envelope length does not match the bytes consumed.
    BadLength,
}

/// A failure while encoding a value.
#[derive(Clone, Copy, Debug, PartialEq, Eq, Structural)]
pub enum EncodeError {
    /// A collection holds more entries than its count field can carry.
    Overflow,
}

/// A discovery-protocol datagram: a two-byte total length that counts
/// itself, a one-byte message tag, then the tag's payload.
#[derive(Clone, Debug, PartialEq, Eq)]
pub enum UdpPacket {
    ClientFindServer,
    ServerResponse(ServerResponse),
}

/// The mathematical content of a `UdpPacket`.
pub enum UdpPacketV {
    ClientFindServer,
    ServerResponse(ServerResponseV),
}

impl View for UdpPacket {
    type V = UdpPacketV;

    open spec fn view(&self) -> UdpPacketV {
        match self {
            UdpPacket::ClientFindServer => UdpPacketV::ClientFindServer,
            UdpPacket::ServerResponse(d) => UdpPacketV::ServerResponse(d@),
        }
    }
}

impl ByteWriter for UdpPacket {
    open spec fn wf(&self) -> bool {
        match self {
            UdpPacket::ClientFindServer => true,
            UdpPacket::ServerResponse(d) => d.wf(),
        }
    }

    open spec fn encodable(&self) -> bool {
        match self {
            UdpPacket::ClientFindServer => true,
            UdpPacket::ServerResponse(d) => d.encodable() && 3 + d.spec_encode().len() <= 65535,
        }
    }

    /// Total length (counting its own two bytes and the tag), the tag
    /// (0 for find-server, 1 for server response), then the payload.
    open spec fn spec_encode(&self) -> Seq<u8> {
        match self {
            UdpPacket::ClientFindServer => le16(3) + seq![0u8],
            UdpPacket::ServerResponse(d) => le16((3 + d.spec_encode().len()) as u16) + (seq![1u8]
                + d.spec_encode()),
        }
    }

    fn write_pkt(&self, out: &mut Vec<u8>) -> (r: Result<(), EncodeError>) {
        match self.to_bytes() {
            Ok(bytes) => {
                out.extend_from_slice(bytes.as_slice());
                Ok(())
            },
            Err(e) => Err(e),
        }
    }
}

impl UdpPacket {
    /// Encodes this datagram as its full wire image.
    pub fn to_bytes(&self) -> (r: Result<Vec<u8>, EncodeError>)
        requires
            self.wf(),
        ensures
            r is Ok <==> self.encodable(),
            r matches Ok(v) ==> v@ == self.spec_encode(),
    {
        let mut buf: Vec<u8> = Vec::new();
        match self {
            UdpPacket::ClientFindServer => {
                buf.push(0);
            },
            UdpPacket::ServerResponse(data) => {
                buf.push(1);
                match data.write_pkt(&mut buf) {
                    Ok(()) => {},
                    Err(e) => {
                        return Err(e);
                    },
                }
            },
        }
        if buf.len() > 65533 {
            return Err(EncodeError::Overflow);
        }
        let mut out: Vec<u8> = Vec::new();
        write_le(&mut out, (buf.len() + 2) as u64, 2);
        let n = buf.len();
        out.append(&mut buf);
        proof {
            match self {
                UdpPacket::ClientFindServer => {
                    assert(out@ =~= self.spec_encode());
                },
                UdpPacket::ServerResponse(d) => {
                    assert((3 + d.spec_encode().len()) as u16 == (n + 2) as u64 as u16);
                    assert(out@ =~= self.spec_encode());
                },
            }
        }
        Ok(out)
    }
}

impl PacketPayload for UdpPacket {
    open spec fn spec_decode(s: Seq<u8>) -> Option<(UdpPacketV, Seq<u8>)> {
        match spec_read_u16(s) {
            None => None,
            Some((total, s1)) => match spec_read_u8(s1) {
                None => None,
                Some((tag, s2)) => if tag == 0 {
                    if total == 3 {
                        Some((UdpPacketV::ClientFindServer, s2))
                    } else {
                        None
                    }
                } else if tag == 1 {
                    match ServerResponse::spec_decode(s2) {
                        None => None,
                        Some((d, s3)) => if total as int == 3 + (s2.len() - s3.len()) {
                            Some((UdpPacketV::ServerResponse(d), s3))
                        } else {
                            None
                        },
                    }
                } else {
                    None
                },
            },
        }
    }

    fn read_from(input: &[u8], pos: usize) -> (r: Result<(Self, usize), DecodeError>) {
        let (total, p1) = read_u16_at(input, pos)?;
        let (tag, p2) = read_u8_at(input, p1)?;
        if tag == 0 {
            if total == 3 {
                Ok((UdpPacket::ClientFindServer, p2))
            } else {
                Err(DecodeError::BadLength)
            }
        } else if tag == 1 {
            let (d, p3) = ServerResponse::read_from(input, p2)?;
            if total as usize == p3 - pos {
                Ok((UdpPacket::ServerResponse(d), p3))
            } else {
                Err(DecodeError::BadLength)
            }
        } else {
            Err(DecodeError::UnknownTag)
        }
    }

    proof fn lemma_round_trip(v: Self, rest: Seq<u8>) {
        match v {
            UdpPacket::ClientFindServer => {
                vstd::seq_lib::lemma_concat_associative(le16(3), seq![0u8], rest);
                lemma_rt_u16(3, seq![0u8] + rest);
                lemma_rt_u8(0u8, rest);
            },
            UdpPacket::ServerResponse(d) => {
                let enc = d.spec_encode();
                let total = (3 + enc.len()) as u16;
                let t1 = (seq![1u8] + enc) + rest;
                vstd::seq_lib::lemma_concat_associative(le16(total), seq![1u8] + enc, rest);
                lemma_rt_u16(total, t1);
                vstd::seq_lib::lemma_concat_associative(seq![1u8], enc, rest);
                lemma_rt_u8(1u8, enc + rest);
                ServerResponse::lemma_round_trip(d, rest);
            },
        }
    }
}

/// Truncation: a valid datagram with its last byte removed fails to
/// decode with an error; it never yields a spuriously successful partial
/// value.
pub proof fn lemma_truncated_datagram_fails(v: UdpPacket)
    requires
        v.wf(),
        v.encodable(),
    ensures
        v.spec_encode().len() > 0,
        UdpPacket::spec_decode(v.spec_encode().take(v.spec_encode().len() - 1)) is None,
{
    crate::util::lemma_le_bytes_len(3, 2);
    match v {
        UdpPacket::ClientFindServer => {
            lemma_truncated_find_server_fails(2);
        },
        UdpPacket::ServerResponse(d) => {
            let enc = d.spec_encode();
            let total = (3 + enc.len()) as u16;
            crate::util::lemma_le_bytes_len(total as int, 2);
            let k = v.spec_encode().len() - 1;
            assert(enc.len() >= 1);
            crate::util::lemma_take_concat(le16(total), seq![1u8] + enc, k);
            crate::util::lemma_take_concat(seq![1u8], enc, k - 2);
            let cut = enc.take(enc.len() - 1);
            lemma_rt_u16(total, seq![1u8] + cut);
            lemma_rt_u8(1u8, cut);
            crate::server_response::ServerResponse::lemma_truncated_last(d);
        },
    }
}

/// Truncation: the three-byte find-server datagram with any tail byte
/// removed fails to decode rather than yielding a partial value.
pub proof fn lemma_truncated_find_server_fails(k: int)
    requires
        0 <= k < 3,
    ensures
        UdpPacket::spec_decode(UdpPacket::ClientFindServer.spec_encode().take(k)) is None,
{
    crate::util::lemma_le_bytes_len(3, 2);
    let t = UdpPacket::ClientFindServer.spec_encode().take(k);
    if k < 2 {
        assert(t.len() < 2);
    } else {
        assert(t.len() == 2);
        assert(spec_read_u16(t) matches Some(p) && p.1.len() == 0);
    }
}

/// The coordinator protocol's message family. Its tag space is distinct
/// from the discovery datagrams'. Only the listing and add-on lookup
/// messages carry a payload shape in this core; the others are typed
/// placeholders whose payload is an extension point, not known to be empty.
#[derive(Clone, Debug, PartialEq, Eq)]
pub enum CoordinatorPacket {
    GcError,
    ServerRegister,
    GcRegisterAck,
    ServerUpdate,
    ClientListing(ClientListingPacket),
    GcListing(GcListingPacket),
    ClientConnect,
    GcConnecting,
    SerCliConnectFailed,
    GcConnectFailed,
    ClientConnected,
    GcDirectConnect,
    GcStunRequest,
    SerCliStunResult,
    GcStunConnect,
    GcNewgrfLookup(GcNewgrfLookupPacket),
    GcTurnConnect,
}

/// A client's request for the coordinator's server listing.
#[derive(Clone, Debug, PartialEq, Eq)]
pub struct ClientListingPacket {
    pub openttd_revision: ZString,
    pub newgrf_lookup_table_cursor: u32,
}

/// The mathematical content of a `ClientListingPacket`.
pub struct ClientListingPacketV {
    pub openttd_revision: Seq<u8>,
    pub newgrf_lookup_table_cursor: u32,
}

impl View for ClientListingPacket {
    type V = ClientListingPacketV;

    open spec fn view(&self) -> ClientListingPacketV {
        ClientListingPacketV {
            openttd_revision: self.openttd_revision@,
            newgrf_lookup_table_cursor: self.newgrf_lookup_table_cursor,
        }
    }
}

impl ByteWriter for ClientListingPacket {
    open spec fn wf(&self) -> bool {
        self.openttd_revision.zwf()
    }

    open spec fn encodable(&self) -> bool {
        true
    }

    open spec fn spec_encode(&self) -> Seq<u8> {
        zstring_encode(self.openttd_revision@) + le32(self.newgrf_lookup_table_cursor)
    }

    fn write_pkt(&self, out: &mut Vec<u8>) -> (r: Result<(), EncodeError>) {
        out.extend_from_slice(self.openttd_revision.bytes.as_slice());
        out.push(0);
        write_le(out, self.newgrf_lookup_table_cursor as u64, 4);
        proof {
            assert(out@ =~= old(out)@ + self.spec_encode());
        }
        Ok(())
    }
}

impl PacketPayload for ClientListingPacket {
    open spec fn spec_decode(s: Seq<u8>) -> Option<(ClientListingPacketV, Seq<u8>)> {
        match spec_read_zstring(s) {
            None => None,
            Some((openttd_revision, s1)) => match spec_read_u32(s1) {
                None => None,
                Some((newgrf_lookup_table_cursor, s2)) => Some(
                    (ClientListingPacketV { openttd_revision, newgrf_lookup_table_cursor }, s2),
                ),
            },
        }
    }

    fn read_from(input: &[u8], pos: usize) -> (r: Result<(Self, usize), DecodeError>) {
        let (openttd_revision, p1) = read_cstring(input, pos)?;
        let (newgrf_lookup_table_cursor, p2) = read_u32_at(input, p1)?;
        Ok((ClientListingPacket { openttd_revision, newgrf_lookup_table_cursor }, p2))
    }

    proof fn lemma_round_trip(v: Self, rest: Seq<u8>) {
        let t1 = le32(v.newgrf_lookup_table_cursor) + rest;
        assert(v.spec_encode() + rest =~= zstring_encode(v.openttd_revision@) + t1);
        lemma_rt_zstring(v.openttd_revision@, t1);
        lemma_rt_u32(v.newgrf_lookup_table_cursor, rest);
    }
}

/// Truncation: a listing request cut short anywhere fails to decode
/// rather than yielding a partial value.
pub proof fn lemma_truncated_client_listing_fails(v: ClientListingPacket, k: int)
    requires
        v.wf(),
        0 <= k < v.spec_encode().len(),
    ensures
        ClientListingPacket::spec_decode(v.spec_encode().take(k)) is None,
{
    crate::util::lemma_le_bytes_len(v.newgrf_lookup_table_cursor as int, 4);
    let z = zstring_encode(v.openttd_revision@);
    let c = le32(v.newgrf_lookup_table_cursor);
    let t = v.spec_encode().take(k);
    if k <= v.openttd_revision@.len() {
        assert(t =~= v.openttd_revision@.take(k));
        assert(forall|j: int| 0 <= j < t.len() ==> t[j] != 0);
        crate::util::lemma_zstring_none(t);
    } else {
        let k2 = k - z.len();
        assert(t =~= z + c.take(k2));
        lemma_rt_zstring(v.openttd_revision@, c.take(k2));
        assert(c.take(k2).len() < 4);
    }
}

/// One server of the coordinator's listing: its textual address and its
/// full status.
#[derive(Clone, Debug, PartialEq, Eq)]
pub struct GcListingServer {
    pub address: ZString,
    pub server_info: ServerResponse,
}

/// The mathematical content of a `GcListingServer`.
pub struct GcListingServerV {
    pub address: Seq<u8>,
    pub server_info: ServerResponseV,
}

impl View for GcListingServer {
    type V = GcListingServerV;

    open spec fn view(&self) -> GcListingServerV {
        GcListingServerV { address: self.address@, server_info: self.server_info@ }
    }
}

impl ByteWriter for GcListingServer {
    open spec fn wf(&self) -> bool {
        self.address.zwf() && self.server_info.wf()
    }

    open spec fn encodable(&self) -> bool {
        self.server_info.encodable()
    }

    open spec fn spec_encode(&self) -> Seq<u8> {
        zstring_encode(self.address@) + self.server_info.spec_encode()
    }

    fn write_pkt(&self, out: &mut Vec<u8>) -> (r: Result<(), EncodeError>) {
        let orig_len = out.len();
        out.extend_from_slice(self.address.bytes.as_slice());
        out.push(0);
        match self.server_info.write_pkt(out) {
            Ok(()) => {
                proof {
                    assert(out@ =~= old(out)@ + self.spec_encode());
                }
                Ok(())
            },
            Err(e) => {
                out.truncate(orig_len);
                proof {
                    assert(out@ =~= old(out)@);
                }
                Err(e)
            },
        }
    }
}

impl PacketPayload for GcListingServer {
    open spec fn spec_decode(s: Seq<u8>) -> Option<(GcListingServerV, Seq<u8>)> {
        match spec_read_zstring(s) {
            None => None,
            Some((address, s1)) => match ServerResponse::spec_decode(s1) {
                None => None,
                Some((server_info, s2)) => Some((GcListingServerV { address, server_info }, s2)),
            },
        }
    }

    fn read_from(input: &[u8], pos: usize) -> (r: Result<(Self, usize), DecodeError>) {
        let (address, p1) = read_cstring(input, pos)?;
        let (server_info, p2) = ServerResponse::read_from(input, p1)?;
        Ok((GcListingServer { address, server_info }, p2))
    }

    proof fn lemma_round_trip(v: Self, rest: Seq<u8>) {
        let t1 = v.server_info.spec_encode() + rest;
        assert(v.spec_encode() + rest =~= zstring_encode(v.address@) + t1);
        lemma_rt_zstring(v.address@, t1);
        ServerResponse::lemma_round_trip(v.server_info, rest);
    }
}

/// Truncation at the end: a listing entry with its last byte removed
/// fails to decode.
pub proof fn lemma_truncated_listing_server_last(v: GcListingServer)
    requires
        v.wf(),
        v.encodable(),
    ensures
        v.spec_encode().len() > 0,
        GcListingServer::spec_decode(v.spec_encode().take(v.spec_encode().len() - 1)) is None,
{
    let z = zstring_encode(v.address@);
    let enc = v.server_info.spec_encode();
    assert(enc.len() >= 1) by {
        crate::server_response::ServerResponse::lemma_truncated_last(v.server_info);
    }
    let k = v.spec_encode().len() - 1;
    crate::util::lemma_take_concat(z, enc, k);
    lemma_rt_zstring(v.address@, enc.take(enc.len() - 1));
    crate::server_response::ServerResponse::lemma_truncated_last(v.server_info);
}

/// The coordinator's game-server listing: a two-byte-counted run of
/// servers, kept in wire order.
#[derive(Clone, Debug, PartialEq, Eq)]
pub struct GcListingPacket {
    pub servers: Vec<GcListingServer>,
}

/// The mathematical content of a `GcListingPacket`.
pub struct GcListingPacketV {
    pub servers: Seq<GcListingServerV>,
}

impl View for GcListingPacket {
    type V = GcListingPacketV;

    open spec fn view(&self) -> GcListingPacketV {
        GcListingPacketV { servers: views(self.servers@) }
    }
}

impl ByteWriter for GcListingPacket {
    open spec fn wf(&self) -> bool {
        all_wf(self.servers@)
    }

    open spec fn encodable(&self) -> bool {
        self.servers@.len() <= 65535 && all_encodable(self.servers@)
    }

    open spec fn spec_encode(&self) -> Seq<u8> {
        le16(self.servers@.len() as u16) + spec_encode_seq(self.servers@)
    }

    fn write_pkt(&self, out: &mut Vec<u8>) -> (r: Result<(), EncodeError>) {
        if self.servers.len() > 65535 {
            return Err(EncodeError::Overflow);
        }
        let orig_len = out.len();
        write_le(out, self.servers.len() as u64, 2);
        match write_entries(out, &self.servers) {
            Ok(()) => {
                proof {
                    assert(out@ =~= old(out)@ + self.spec_encode());
                }
                Ok(())
            },
            Err(e) => {
                out.truncate(orig_len);
                proof {
                    assert(out@ =~= old(out)@);
                }
                Err(e)
            },
        }
    }
}

impl PacketPayload for GcListingPacket {
    open spec fn spec_decode(s: Seq<u8>) -> Option<(GcListingPacketV, Seq<u8>)> {
        match spec_read_u16(s) {
            None => None,
            Some((n, s1)) => match spec_read_entries::<GcListingServer>(s1, n as nat) {
                None => None,
                Some((servers, s2)) => Some((GcListingPacketV { servers }, s2)),
            },
        }
    }

    fn read_from(input: &[u8], pos: usize) -> (r: Result<(Self, usize), DecodeError>) {
        let (n, p1) = read_u16_at(input, pos)?;
        let (servers, p2) = read_entries::<GcListingServer>(input, p1, n as usize)?;
        Ok((GcListingPacket { servers }, p2))
    }

    proof fn lemma_round_trip(v: Self, rest: Seq<u8>) {
        let body = spec_encode_seq(v.servers@) + rest;
        vstd::seq_lib::lemma_concat_associative(
            le16(v.servers@.len() as u16),
            spec_encode_seq(v.servers@),
            rest,
        );
        lemma_rt_u16(v.servers@.len() as u16, body);
        lemma_rt_entries(v.servers@, rest);
    }
}

/// Truncation at the end: a listing with its last byte removed fails to
/// decode rather than yielding a partial list.
pub proof fn lemma_truncated_listing_last(v: GcListingPacket)
    requires
        v.wf(),
        v.encodable(),
    ensures
        v.spec_encode().len() > 0,
        GcListingPacket::spec_decode(v.spec_encode().take(v.spec_encode().len() - 1)) is None,
{
    let cnt = le16(v.servers@.len() as u16);
    let body = spec_encode_seq(v.servers@);
    crate::util::lemma_le_bytes_len(v.servers@.len() as u16 as int, 2);
    let k = v.spec_encode().len() - 1;
    if v.servers@.len() == 0 {
        assert(body =~= Seq::<u8>::empty());
        assert(v.spec_encode().take(k).len() == 1);
    } else {
        let last = v.servers@.last();
        assert(last.wf() && last.encodable());
        lemma_truncated_listing_server_last(last);
        crate::ordered::lemma_encode_seq_last_len(v.servers@);
        crate::util::lemma_take_concat(cnt, body, k);
        lemma_rt_u16(v.servers@.len() as u16, body.take(body.len() - 1));
        crate::ordered::lemma_truncated_entries_last::<GcListingServer>(v.servers@);
    }
}

/// One row of the coordinator's add-on lookup table: the table index, the
/// add-on id, its hash and its display name.
#[derive(Clone, Debug, PartialEq, Eq)]
pub struct GrfLookupEntry {
    pub index: u32,
    pub grfid: u32,
    pub hash: NewGRFHash,
    pub name: ZString,
}

/// The mathematical content of a `GrfLookupEntry`.
pub struct GrfLookupEntryV {
    pub index: u32,
    pub grfid: u32,
    pub hash: Seq<u8>,
    pub name: Seq<u8>,
}

impl View for GrfLookupEntry {
    type V = GrfLookupEntryV;

    open spec fn view(&self) -> GrfLookupEntryV {
        GrfLookupEntryV {
            index: self.index,
            grfid: self.grfid,
            hash: self.hash@,
            name: self.name@,
        }
    }
}

impl Keyed for GrfLookupEntry {
    open spec fn key(&self) -> int {
        self.index as int
    }
}

impl Keyed for GrfLookupEntryV {
    open spec fn key(&self) -> int {
        self.index as int
    }
}

impl KeyCompare for GrfLookupEntry {
    fn key_lt(&self, other: &Self) -> bool {
        self.index < other.index
    }

    fn key_eq(&self, other: &Self) -> bool {
        self.index == other.index
    }

    proof fn lemma_view_key(&self) {
    }
}

impl ByteWriter for GrfLookupEntry {
    open spec fn wf(&self) -> bool {
        self.hash.wf() && self.name.zwf()
    }

    open spec fn encodable(&self) -> bool {
        true
    }

    open spec fn spec_encode(&self) -> Seq<u8> {
        le32(self.index) + le32(self.grfid) + self.hash@ + zstring_encode(self.name@)
    }

    fn write_pkt(&self, out: &mut Vec<u8>) -> (r: Result<(), EncodeError>) {
        write_le(out, self.index as u64, 4);
        write_le(out, self.grfid as u64, 4);
        out.extend_from_slice(self.hash.0.as_slice());
        out.extend_from_slice(self.name.bytes.as_slice());
        out.push(0);
        proof {
            assert(out@ =~= old(out)@ + self.spec_encode());
        }
        Ok(())
    }
}

impl PacketPayload for GrfLookupEntry {
    open spec fn spec_decode(s: Seq<u8>) -> Option<(GrfLookupEntryV, Seq<u8>)> {
        match spec_read_u32(s) {
            None => None,
            Some((index, s1)) => match spec_read_u32(s1) {
                None => None,
                Some((grfid, s2)) => match spec_read_raw(s2, 16) {
                    None => None,
                    Some((hash, s3)) => match spec_read_zstring(s3) {
                        None => None,
                        Some((name, s4)) => Some((GrfLookupEntryV { index, grfid, hash, name }, s4)),
                    },
                },
            },
        }
    }

    fn read_from(input: &[u8], pos: usize) -> (r: Result<(Self, usize), DecodeError>) {
        let (index, p1) = read_u32_at(input, pos)?;
        let (grfid, p2) = read_u32_at(input, p1)?;
        let (bytes, p3) = read_raw_at(input, p2, 16)?;
        let (name, p4) = read_cstring(input, p3)?;
        Ok((GrfLookupEntry { index, grfid, hash: NewGRFHash(bytes), name }, p4))
    }

    proof fn lemma_round_trip(v: Self, rest: Seq<u8>) {
        let t3 = zstring_encode(v.name@) + rest;
        let t2 = v.hash@ + t3;
        let t1 = le32(v.grfid) + t2;
        let t0 = le32(v.index) + t1;
        assert(v.spec_encode() + rest =~= t0);
        lemma_rt_u32(v.index, t1);
        lemma_rt_u32(v.grfid, t2);
        lemma_rt_raw(v.hash@, t3);
        lemma_rt_zstring(v.name@, rest);
    }
}

/// Truncation of one lookup row: a cut inside any of its fields never
/// decodes.
proof fn lemma_truncated_lookup_entry(e: GrfLookupEntry, j: int)
    requires
        e.wf(),
        0 <= j < e.spec_encode().len(),
    ensures
        GrfLookupEntry::spec_decode(e.spec_encode().take(j)) is None,
{
    crate::util::lemma_le_bytes_len(e.index as int, 4);
    crate::util::lemma_le_bytes_len(e.grfid as int, 4);
    let t = e.spec_encode().take(j);
    assert(t.len() == j);
    if j < 24 {
        if j >= 4 {
            assert(t.skip(4).len() == j - 4);
        }
        if j >= 8 {
            assert(t.skip(4).skip(4).len() == j - 8);
        }
    } else {
        let j2 = j - 24;
        let cut = e.name@.take(j2);
        assert(t =~= le32(e.index) + le32(e.grfid) + e.hash@ + cut);
        assert(t.skip(4).skip(4).skip(16) =~= cut);
        crate::util::lemma_rt_u32(e.index, le32(e.grfid) + e.hash@ + cut);
        assert(forall|m: int| 0 <= m < cut.len() ==> cut[m] != 0);
        crate::util::lemma_zstring_none(cut);
    }
}

/// Truncation: an encoded add-on lookup response cut anywhere short fails
/// to decode rather than yielding a partial table.
pub proof fn lemma_truncated_newgrf_lookup(v: GcNewgrfLookupPacket, k: int)
    requires
        v.wf(),
        v.encodable(),
        0 <= k < v.spec_encode().len(),
    ensures
        GcNewgrfLookupPacket::spec_decode(v.spec_encode().take(k)) is None,
{
    crate::util::lemma_le_bytes_len(v.newgrf_lookup_table_cursor as int, 4);
    crate::util::lemma_le_bytes_len(v.newgrfs@.len() as u16 as int, 2);
    let body = spec_encode_seq(v.newgrfs@);
    let t = v.spec_encode().take(k);
    assert(t.len() == k);
    if k < 4 {
    } else if k < 6 {
        assert(t.skip(4).len() == k - 4);
    } else {
        let cut = body.take(k - 6);
        assert(t =~= le32(v.newgrf_lookup_table_cursor) + (le16(v.newgrfs@.len() as u16) + cut));
        lemma_rt_u32(v.newgrf_lookup_table_cursor, le16(v.newgrfs@.len() as u16) + cut);
        lemma_rt_u16(v.newgrfs@.len() as u16, cut);
        assert(crate::ordered::truncation_safe::<GrfLookupEntry>()) by {
            assert forall|e: GrfLookupEntry, j: int|
                e.wf() && e.encodable() && 0 <= j < e.spec_encode().len() implies (
            #[trigger] GrfLookupEntry::spec_decode(e.spec_encode().take(j))) is None by {
                lemma_truncated_lookup_entry(e, j);
            }
        }
        crate::ordered::lemma_truncated_sorted::<GrfLookupEntry>(v.newgrfs@, Seq::empty(), k - 6);
    }
}

/// The coordinator's add-on lookup response: a table-generation cursor and
/// a two-byte-counted mapping from index to add-on row, in ascending index
/// order.
#[derive(Clone, Debug, PartialEq, Eq)]
pub struct GcNewgrfLookupPacket {
    pub newgrf_lookup_table_cursor: u32,
    pub newgrfs: Vec<GrfLookupEntry>,
}

/// The mathematical content of a `GcNewgrfLookupPacket`.
pub struct GcNewgrfLookupPacketV {
    pub newgrf_lookup_table_cursor: u32,
    pub newgrfs: Seq<GrfLookupEntryV>,
}

impl View for GcNewgrfLookupPacket {
    type V = GcNewgrfLookupPacketV;

    open spec fn view(&self) -> GcNewgrfLookupPacketV {
        GcNewgrfLookupPacketV {
            newgrf_lookup_table_cursor: self.newgrf_lookup_table_cursor,
            newgrfs: views(self.newgrfs@),
        }
    }
}

impl ByteWriter for GcNewgrfLookupPacket {
    open spec fn wf(&self) -> bool {
        sorted(self.newgrfs@) && all_wf(self.newgrfs@)
    }

    open spec fn encodable(&self) -> bool {
        self.newgrfs@.len() <= 65535
    }

    open spec fn spec_encode(&self) -> Seq<u8> {
        le32(self.newgrf_lookup_table_cursor) + le16(self.newgrfs@.len() as u16) + spec_encode_seq(
            self.newgrfs@,
        )
    }

    fn write_pkt(&self, out: &mut Vec<u8>) -> (r: Result<(), EncodeError>) {
        if self.newgrfs.len() > 65535 {
            return Err(EncodeError::Overflow);
        }
        write_le(out, self.newgrf_lookup_table_cursor as u64, 4);
        write_le(out, self.newgrfs.len() as u64, 2);
        proof {
            assert(all_encodable(self.newgrfs@));
        }
        match write_entries(out, &self.newgrfs) {
            Ok(()) => {
                proof {
                    assert(out@ =~= old(out)@ + self.spec_encode());
                }
                Ok(())
            },
            Err(e) => {
                proof {
                    assert(false);
                }
                Err(e)
            },
        }
    }
}

impl PacketPayload for GcNewgrfLookupPacket {
    open spec fn spec_decode(s: Seq<u8>) -> Option<(GcNewgrfLookupPacketV, Seq<u8>)> {
        match spec_read_u32(s) {
            None => None,
            Some((newgrf_lookup_table_cursor, s1)) => match spec_read_u16(s1) {
                None => None,
                Some((n, s2)) => match spec_read_sorted::<GrfLookupEntry>(s2, n as nat, Seq::empty()) {
                    None => None,
                    Some((newgrfs, s3)) => Some(
                        (GcNewgrfLookupPacketV { newgrf_lookup_table_cursor, newgrfs }, s3),
                    ),
                },
            },
        }
    }

    fn read_from(input: &[u8], pos: usize) -> (r: Result<(Self, usize), DecodeError>) {
        let (newgrf_lookup_table_cursor, p1) = read_u32_at(input, pos)?;
        let (n, p2) = read_u16_at(input, p1)?;
        let (newgrfs, p3) = read_sorted_entries::<GrfLookupEntry>(input, p2, n as usize)?;
        Ok((GcNewgrfLookupPacket { newgrf_lookup_table_cursor, newgrfs }, p3))
    }

    proof fn lemma_round_trip(v: Self, rest: Seq<u8>) {
        let cnt = le16(v.newgrfs@.len() as u16);
        let body = spec_encode_seq(v.newgrfs@);
        vstd::seq_lib::lemma_concat_associative(le32(v.newgrf_lookup_table_cursor), cnt, body);
        vstd::seq_lib::lemma_concat_associative(
            le32(v.newgrf_lookup_table_cursor),
            cnt + body,
            rest,
        );
        vstd::seq_lib::lemma_concat_associative(cnt, body, rest);
        assert(v.spec_encode() + rest == le32(v.newgrf_lookup_table_cursor) + (cnt + (body
            + rest)));
        lemma_rt_u32(v.newgrf_lookup_table_cursor, cnt + (body + rest));
        lemma_rt_u16(v.newgrfs@.len() as u16, body + rest);
        lemma_views_sorted(v.newgrfs@);
        assert(Seq::empty() + views(v.newgrfs@) =~= views(v.newgrfs@));
        assert(all_encodable(v.newgrfs@));
        lemma_rt_sorted::<GrfLookupEntry>(v.newgrfs@, Seq::empty(), rest);
    }
}

} // verus!
