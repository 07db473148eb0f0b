//! Add-on ("NewGRF") metadata: a 16-byte content hash per add-on id, and
//! the three wire shapes of an active-add-on set. Which shape a buffer
//! holds is not self-describing: the caller supplies it out-of-band.

use vstd::prelude::*;
use crate::DecodeError;
use crate::EncodeError;
use crate::ordered::Keyed;
use crate::ordered::KeyCompare;
use crate::ordered::all_wf;
use crate::ordered::all_encodable;
use crate::ordered::sorted;
use crate::ordered::spec_encode_seq;
use crate::ordered::spec_read_sorted;
use crate::ordered::read_sorted_entries;
use crate::ordered::lemma_rt_sorted;
use crate::ordered::lemma_views_sorted;
use crate::ordered::views;
use crate::util::ByteWriter;
use crate::util::PacketPayload;
use crate::util::ZString;
use crate::util::le32;
use crate::util::spec_read_u8;
use crate::util::spec_read_u32;
use crate::util::spec_read_raw;
use crate::util::spec_read_zstring;
use crate::util::zstring_encode;
use crate::util::read_u8_at;
use crate::util::read_u32_at;
use crate::util::read_raw_at;
use crate::util::read_cstring;
use crate::util::write_le;
use crate::util::lemma_rt_u8;
use crate::util::lemma_rt_u32;
use crate::util::lemma_rt_raw;
use crate::util::lemma_rt_zstring;
use crate::ordered::truncation_safe;
use crate::ordered::lemma_truncated_sorted;
use crate::util::lemma_le_bytes_len;
use crate::util::lemma_zstring_none;

verus! {

/// A 16-byte add-on content hash.
#[derive(Clone, Debug, PartialEq, Eq)]
pub struct NewGRFHash(pub Vec<u8>);

impl View for NewGRFHash {
    type V = Seq<u8>;

    open spec fn view(&self) -> Seq<u8> {
        self.0@
    }
}

impl ByteWriter for NewGRFHash {
    open spec fn wf(&self) -> bool {
        self@.len() == 16
    }

    open spec fn encodable(&self) -> bool {
        true
    }

    open spec fn spec_encode(&self) -> Seq<u8> {
        self@
    }

    fn write_pkt(&self, out: &mut Vec<u8>) -> (r: Result<(), EncodeError>) {
        out.extend_from_slice(self.0.as_slice());
        Ok(())
    }
}

impl PacketPayload for NewGRFHash {
    open spec fn spec_decode(s: Seq<u8>) -> Option<(Seq<u8>, Seq<u8>)> {
        spec_read_raw(s, 16)
    }

    fn read_from(input: &[u8], pos: usize) -> (r: Result<(Self, usize), DecodeError>) {
        let (bytes, p1) = read_raw_at(input, pos, 16)?;
        Ok((NewGRFHash(bytes), p1))
    }

    proof fn lemma_round_trip(v: Self, rest: Seq<u8>) {
        lemma_rt_raw(v@, rest);
    }
}

/// Parses a 16-byte content hash at `pos`.
pub fn newgrf_md5(input: &[u8], pos: usize) -> (r: Result<(NewGRFHash, usize), DecodeError>)
    requires
        pos <= input@.len(),
    ensures
        match NewGRFHash::spec_decode(input@.skip(pos as int)) {
            Some(p) => {
                &&& r matches Ok(q)
                &&& q.0@ == p.0
                &&& q.0.wf()
                &&& pos <= q.1 <= input@.len()
                &&& input@.skip(q.1 as int) == p.1
            },
            None => r is Err,
        },
{
    NewGRFHash::read_from(input, pos)
}

/// One entry of the id-only shape: an add-on id with its content hash.
#[derive(Clone, Debug, PartialEq, Eq)]
pub struct GrfIdEntry {
    pub id: u32,
    pub hash: NewGRFHash,
}

/// The mathematical content of a `GrfIdEntry`.
pub struct GrfIdEntryV {
    pub id: u32,
    pub hash: Seq<u8>,
}

impl View for GrfIdEntry {
    type V = GrfIdEntryV;

    open spec fn view(&self) -> GrfIdEntryV {
        GrfIdEntryV { id: self.id, hash: self.hash@ }
    }
}

impl Keyed for GrfIdEntry {
    open spec fn key(&self) -> int {
        self.id as int
    }
}

impl Keyed for GrfIdEntryV {
    open spec fn key(&self) -> int {
        self.id as int
    }
}

impl KeyCompare for GrfIdEntry {
    fn key_lt(&self, other: &Self) -> bool {
        self.id < other.id
    }

    fn key_eq(&self, other: &Self) -> bool {
        self.id == other.id
    }

    proof fn lemma_view_key(&self) {
    }
}

impl ByteWriter for GrfIdEntry {
    open spec fn wf(&self) -> bool {
        self.hash.wf()
    }

    open spec fn encodable(&self) -> bool {
        true
    }

    open spec fn spec_encode(&self) -> Seq<u8> {
        le32(self.id) + self.hash@
    }

    fn write_pkt(&self, out: &mut Vec<u8>) -> (r: Result<(), EncodeError>) {
        write_le(out, self.id as u64, 4);
        out.extend_from_slice(self.hash.0.as_slice());
        proof {
            assert(out@ =~= old(out)@ + self.spec_encode());
        }
        Ok(())
    }
}

impl PacketPayload for GrfIdEntry {
    open spec fn spec_decode(s: Seq<u8>) -> Option<(GrfIdEntryV, Seq<u8>)> {
        match spec_read_u32(s) {
            None => None,
            Some((id, s1)) => match spec_read_raw(s1, 16) {
                None => None,
                Some((h, s2)) => Some((GrfIdEntryV { id, hash: h }, s2)),
            },
        }
    }

    fn read_from(input: &[u8], pos: usize) -> (r: Result<(Self, usize), DecodeError>) {
        let (id, p1) = read_u32_at(input, pos)?;
        let (bytes, p2) = read_raw_at(input, p1, 16)?;
        Ok((GrfIdEntry { id, hash: NewGRFHash(bytes) }, p2))
    }

    proof fn lemma_round_trip(v: Self, rest: Seq<u8>) {
        assert(v.spec_encode() + rest =~= le32(v.id) + (v.hash@ + rest));
        lemma_rt_u32(v.id, v.hash@ + rest);
        lemma_rt_raw(v.hash@, rest);
    }
}

/// Parses one id-only entry (id, then hash) at `pos`.
pub fn newgrf_entry(input: &[u8], pos: usize) -> (r: Result<(GrfIdEntry, usize), DecodeError>)
    requires
        pos <= input@.len(),
    ensures
        match GrfIdEntry::spec_decode(input@.skip(pos as int)) {
            Some(p) => {
                &&& r matches Ok(q)
                &&& q.0@ == p.0
                &&& q.0.wf()
                &&& pos <= q.1 <= input@.len()
                &&& input@.skip(q.1 as int) == p.1
            },
            None => r is Err,
        },
{
    GrfIdEntry::read_from(input, pos)
}

/// One entry of the full shape: id, hash and display name.
#[derive(Clone, Debug, PartialEq, Eq)]
pub struct GrfFullEntry {
    pub id: u32,
    pub hash: NewGRFHash,
    pub name: ZString,
}

/// The mathematical content of a `GrfFullEntry`.
pub struct GrfFullEntryV {
    pub id: u32,
    pub hash: Seq<u8>,
    pub name: Seq<u8>,
}

impl View for GrfFullEntry {
    type V = GrfFullEntryV;

    open spec fn view(&self) -> GrfFullEntryV {
        GrfFullEntryV { id: self.id, hash: self.hash@, name: self.name@ }
    }
}

impl Keyed for GrfFullEntry {
    open spec fn key(&self) -> int {
        self.id as int
    }
}

impl Keyed for GrfFullEntryV {
    open spec fn key(&self) -> int {
        self.id as int
    }
}

impl KeyCompare for GrfFullEntry {
    fn key_lt(&self, other: &Self) -> bool {
        self.id < other.id
    }

    fn key_eq(&self, other: &Self) -> bool {
        self.id == other.id
    }

    proof fn lemma_view_key(&self) {
    }
}

impl ByteWriter for GrfFullEntry {
    open spec fn wf(&self) -> bool {
        self.hash.wf() && self.name.zwf()
    }

    open spec fn encodable(&self) -> bool {
        true
    }

    open spec fn spec_encode(&self) -> Seq<u8> {
        le32(self.id) + self.hash@ + zstring_encode(self.name@)
    }

    fn write_pkt(&self, out: &mut Vec<u8>) -> (r: Result<(), EncodeError>) {
        write_le(out, self.id as u64, 4);
        out.extend_from_slice(self.hash.0.as_slice());
        out.extend_from_slice(self.name.bytes.as_slice());
        out.push(0);
        proof {
            assert(out@ =~= old(out)@ + self.spec_encode());
        }
        Ok(())
    }
}

impl PacketPayload for GrfFullEntry {
    open spec fn spec_decode(s: Seq<u8>) -> Option<(GrfFullEntryV, Seq<u8>)> {
        match spec_read_u32(s) {
            None => None,
            Some((id, s1)) => match spec_read_raw(s1, 16) {
                None => None,
                Some((h, s2)) => match spec_read_zstring(s2) {
                    None => None,
                    Some((name, s3)) => Some((GrfFullEntryV { id, hash: h, name }, s3)),
                },
            },
        }
    }

    fn read_from(input: &[u8], pos: usize) -> (r: Result<(Self, usize), DecodeError>) {
        let (id, p1) = read_u32_at(input, pos)?;
        let (bytes, p2) = read_raw_at(input, p1, 16)?;
        let (name, p3) = read_cstring(input, p2)?;
        Ok((GrfFullEntry { id, hash: NewGRFHash(bytes), name }, p3))
    }

    proof fn lemma_round_trip(v: Self, rest: Seq<u8>) {
        assert(v.spec_encode() + rest =~= le32(v.id) + (v.hash@ + (zstring_encode(v.name@)
            + rest)));
        lemma_rt_u32(v.id, v.hash@ + (zstring_encode(v.name@) + rest));
        lemma_rt_raw(v.hash@, zstring_encode(v.name@) + rest);
        lemma_rt_zstring(v.name@, rest);
    }
}

/// Parses one full entry (id, hash, name) at `pos`.
pub fn newgrf_entry_full(input: &[u8], pos: usize) -> (r: Result<
    (GrfFullEntry, usize),
    DecodeError,
>)
    requires
        pos <= input@.len(),
    ensures
        match GrfFullEntry::spec_decode(input@.skip(pos as int)) {
            Some(p) => {
                &&& r matches Ok(q)
                &&& q.0@ == p.0
                &&& q.0.wf()
                &&& pos <= q.1 <= input@.len()
                &&& input@.skip(q.1 as int) == p.1
            },
            None => r is Err,
        },
{
    GrfFullEntry::read_from(input, pos)
}

/// The three wire shapes of an active-add-on set. The shape tag travels
/// separately from the set itself (see `ServerResponse`), so decoding takes
/// the shape as a parameter.
#[derive(Clone, Copy, Debug, PartialEq, Eq, Structural)]
pub enum ActiveNewGrfKind {
    OnlyId,
    Full,
    Lookup,
}

impl ActiveNewGrfKind {
    /// The wire tag of this shape.
    pub open spec fn spec_num(self) -> u8 {
        match self {
            ActiveNewGrfKind::OnlyId => 0,
            ActiveNewGrfKind::Full => 1,
            ActiveNewGrfKind::Lookup => 2,
        }
    }

    /// The shape a wire tag stands for, if any.
    pub open spec fn spec_from_num(v: u8) -> Option<ActiveNewGrfKind> {
        if v == 0 {
            Some(ActiveNewGrfKind::OnlyId)
        } else if v == 1 {
            Some(ActiveNewGrfKind::Full)
        } else if v == 2 {
            Some(ActiveNewGrfKind::Lookup)
        } else {
            None
        }
    }

    pub fn to_num(self) -> (r: u8)
        ensures
            r == self.spec_num(),
    {
        match self {
            ActiveNewGrfKind::OnlyId => 0,
            ActiveNewGrfKind::Full => 1,
            ActiveNewGrfKind::Lookup => 2,
        }
    }

    pub fn from_num(v: u8) -> (r: Option<ActiveNewGrfKind>)
        ensures
            r == ActiveNewGrfKind::spec_from_num(v),
    {
        if v == 0 {
            Some(ActiveNewGrfKind::OnlyId)
        } else if v == 1 {
            Some(ActiveNewGrfKind::Full)
        } else if v == 2 {
            Some(ActiveNewGrfKind::Lookup)
        } else {
            None
        }
    }
}

/// An active-add-on set, in one of its three shapes. Collections are held
/// in ascending id order; the one-byte count caps them at 255 entries.
#[derive(Clone, Debug, PartialEq, Eq)]
pub enum ActiveNewGrf {
    OnlyId(Vec<GrfIdEntry>),
    Full(Vec<GrfFullEntry>),
    Lookup(Vec<u32>),
}

/// The mathematical content of an `ActiveNewGrf`.
pub enum ActiveNewGrfV {
    OnlyId(Seq<GrfIdEntryV>),
    Full(Seq<GrfFullEntryV>),
    Lookup(Seq<u32>),
}

impl View for ActiveNewGrf {
    type V = ActiveNewGrfV;

    open spec fn view(&self) -> ActiveNewGrfV {
        match self {
            ActiveNewGrf::OnlyId(es) => ActiveNewGrfV::OnlyId(views(es@)),
            ActiveNewGrf::Full(es) => ActiveNewGrfV::Full(views(es@)),
            ActiveNewGrf::Lookup(ids) => ActiveNewGrfV::Lookup(ids@),
        }
    }
}

impl ActiveNewGrf {
    /// The shape this value is in.
    pub open spec fn spec_kind(&self) -> ActiveNewGrfKind {
        match self {
            ActiveNewGrf::OnlyId(_) => ActiveNewGrfKind::OnlyId,
            ActiveNewGrf::Full(_) => ActiveNewGrfKind::Full,
            ActiveNewGrf::Lookup(_) => ActiveNewGrfKind::Lookup,
        }
    }

    pub fn kind(&self) -> (r: ActiveNewGrfKind)
        ensures
            r == self.spec_kind(),
    {
        match self {
            ActiveNewGrf::OnlyId(_) => ActiveNewGrfKind::OnlyId,
            ActiveNewGrf::Full(_) => ActiveNewGrfKind::Full,
            ActiveNewGrf::Lookup(_) => ActiveNewGrfKind::Lookup,
        }
    }

    /// The number of entries in the set.
    pub open spec fn spec_len(&self) -> nat {
        match self {
            ActiveNewGrf::OnlyId(es) => es@.len(),
            ActiveNewGrf::Full(es) => es@.len(),
            ActiveNewGrf::Lookup(ids) => ids@.len(),
        }
    }

    /// The mathematical parser for a set of the given shape: a one-byte
    /// count, then that many entries folded into the ordered collection.
    pub open spec fn spec_decode_kind(s: Seq<u8>, kind: ActiveNewGrfKind) -> Option<
        (ActiveNewGrfV, Seq<u8>),
    > {
        match spec_read_u8(s) {
            None => None,
            Some((n, s1)) => match kind {
                ActiveNewGrfKind::OnlyId => match spec_read_sorted::<GrfIdEntry>(
                    s1,
                    n as nat,
                    Seq::empty(),
                ) {
                    None => None,
                    Some(p) => Some((ActiveNewGrfV::OnlyId(p.0), p.1)),
                },
                ActiveNewGrfKind::Full => match spec_read_sorted::<GrfFullEntry>(
                    s1,
                    n as nat,
                    Seq::empty(),
                ) {
                    None => None,
                    Some(p) => Some((ActiveNewGrfV::Full(p.0), p.1)),
                },
                ActiveNewGrfKind::Lookup => match spec_read_sorted::<u32>(
                    s1,
                    n as nat,
                    Seq::empty(),
                ) {
                    None => None,
                    Some(p) => Some((ActiveNewGrfV::Lookup(p.0), p.1)),
                },
            },
        }
    }

    /// Decodes a set of the given shape at `pos`.
    pub fn read_kind_at(input: &[u8], pos: usize, kind: ActiveNewGrfKind) -> (r: Result<
        (ActiveNewGrf, usize),
        DecodeError,
    >)
        requires
            pos <= input@.len(),
        ensures
            match ActiveNewGrf::spec_decode_kind(input@.skip(pos as int), kind) {
                Some(p) => {
                    &&& r matches Ok(q)
                    &&& q.0@ == p.0
                    &&& q.0.wf()
                    &&& q.0.spec_kind() == kind
                    &&& pos <= q.1 <= input@.len()
                    &&& input@.skip(q.1 as int) == p.1
                },
                None => r is Err,
            },
    {
        let (n, p1) = read_u8_at(input, pos)?;
        match kind {
            ActiveNewGrfKind::OnlyId => {
                let (es, p2) = read_sorted_entries::<GrfIdEntry>(input, p1, n as usize)?;
                Ok((ActiveNewGrf::OnlyId(es), p2))
            },
            ActiveNewGrfKind::Full => {
                let (es, p2) = read_sorted_entries::<GrfFullEntry>(input, p1, n as usize)?;
                Ok((ActiveNewGrf::Full(es), p2))
            },
            ActiveNewGrfKind::Lookup => {
                let (ids, p2) = read_sorted_entries::<u32>(input, p1, n as usize)?;
                proof {
                    assert(views(ids@) =~= ids@);
                }
                Ok((ActiveNewGrf::Lookup(ids), p2))
            },
        }
    }

    /// Decodes a set of the given shape from the start of `input`.
    pub fn from_bytes(input: &[u8], kind: ActiveNewGrfKind) -> (r: Result<
        (ActiveNewGrf, usize),
        DecodeError,
    >)
        ensures
            match ActiveNewGrf::spec_decode_kind(input@, kind) {
                Some(p) => {
                    &&& r matches Ok(q)
                    &&& q.0@ == p.0
                    &&& q.0.wf()
                    &&& q.0.spec_kind() == kind
                    &&& q.1 <= input@.len()
                    &&& input@.skip(q.1 as int) == p.1
                },
                None => r is Err,
            },
    {
        proof {
            assert(input@.skip(0) =~= input@);
        }
        ActiveNewGrf::read_kind_at(input, 0, kind)
    }

    /// Round trip: an encoded set of at most 255 entries decodes, under its
    /// own shape, back to the same content.
    pub proof fn lemma_round_trip_kind(v: ActiveNewGrf, rest: Seq<u8>)
        requires
            v.wf(),
            v.encodable(),
        ensures
            ActiveNewGrf::spec_decode_kind(v.spec_encode() + rest, v.spec_kind()) == Some(
                (v@, rest),
            ),
    {
        match v {
            ActiveNewGrf::OnlyId(es) => {
                let body = spec_encode_seq(es@) + rest;
                assert(v.spec_encode() + rest =~= seq![(es@.len() as u8)] + body);
                lemma_rt_u8(es@.len() as u8, body);
                lemma_views_sorted(es@);
                assert(Seq::empty() + views(es@) =~= views(es@));
                lemma_rt_sorted::<GrfIdEntry>(es@, Seq::empty(), rest);
            },
            ActiveNewGrf::Full(es) => {
                let body = spec_encode_seq(es@) + rest;
                assert(v.spec_encode() + rest =~= seq![(es@.len() as u8)] + body);
                lemma_rt_u8(es@.len() as u8, body);
                lemma_views_sorted(es@);
                assert(Seq::empty() + views(es@) =~= views(es@));
                lemma_rt_sorted::<GrfFullEntry>(es@, Seq::empty(), rest);
            },
            ActiveNewGrf::Lookup(ids) => {
                let body = spec_encode_seq(ids@) + rest;
                assert(v.spec_encode() + rest =~= seq![(ids@.len() as u8)] + body);
                lemma_rt_u8(ids@.len() as u8, body);
                lemma_views_sorted(ids@);
                assert(Seq::empty() + views(ids@) =~= views(ids@));
                lemma_rt_sorted::<u32>(ids@, Seq::empty(), rest);
                assert(views(ids@) =~= ids@);
            },
        }
    }
}

/// Truncation of one id-only entry: a cut inside the id or the hash
/// never decodes.
proof fn lemma_truncated_grf_id_entry(e: GrfIdEntry, j: int)
    requires
        e.wf(),
        0 <= j < e.spec_encode().len(),
    ensures
        GrfIdEntry::spec_decode(e.spec_encode().take(j)) is None,
{
    lemma_le_bytes_len(e.id as int, 4);
    let t = e.spec_encode().take(j);
    if j < 4 {
        assert(t.len() < 4);
    } else {
        assert(t =~= le32(e.id) + e.hash@.take(j - 4));
        lemma_rt_u32(e.id, e.hash@.take(j - 4));
        assert(e.hash@.take(j - 4).len() < 16);
    }
}

/// Truncation of one full entry: a cut inside the id, the hash or the
/// name never decodes.
proof fn lemma_truncated_grf_full_entry(e: GrfFullEntry, j: int)
    requires
        e.wf(),
        0 <= j < e.spec_encode().len(),
    ensures
        GrfFullEntry::spec_decode(e.spec_encode().take(j)) is None,
{
    lemma_le_bytes_len(e.id as int, 4);
    let t = e.spec_encode().take(j);
    if j < 4 {
        assert(t.len() < 4);
    } else if j < 20 {
        assert(t =~= le32(e.id) + e.hash@.take(j - 4));
        lemma_rt_u32(e.id, e.hash@.take(j - 4));
        assert(e.hash@.take(j - 4).len() < 16);
    } else {
        let j2 = j - 20;
        let cut = zstring_encode(e.name@).take(j2);
        assert(t =~= le32(e.id) + (e.hash@ + cut));
        lemma_rt_u32(e.id, e.hash@ + cut);
        lemma_rt_raw(e.hash@, cut);
        assert(cut =~= e.name@.take(j2));
        assert(forall|m: int| 0 <= m < cut.len() ==> cut[m] != 0);
        lemma_zstring_none(cut);
    }
}

impl ActiveNewGrf {
    /// Truncation: an encoded add-on set cut anywhere short fails to
    /// decode under its own shape; a shortened buffer never yields a
    /// partial set.
    pub proof fn lemma_truncated_kind(v: ActiveNewGrf, k: int)
        requires
            v.wf(),
            v.encodable(),
            0 <= k < v.spec_encode().len(),
        ensures
            ActiveNewGrf::spec_decode_kind(v.spec_encode().take(k), v.spec_kind()) is None,
    {
        match v {
            ActiveNewGrf::OnlyId(es) => {
                if k == 0 {
                    assert(v.spec_encode().take(0).len() == 0);
                } else {
                    let body = spec_encode_seq(es@);
                    assert(v.spec_encode().take(k) =~= seq![(es@.len() as u8)] + body.take(k - 1));
                    lemma_rt_u8(es@.len() as u8, body.take(k - 1));
                    assert(truncation_safe::<GrfIdEntry>()) by {
                        assert forall|e: GrfIdEntry, j: int|
                            e.wf() && e.encodable() && 0 <= j < e.spec_encode().len() implies (
                        #[trigger] GrfIdEntry::spec_decode(e.spec_encode().take(j))) is None by {
                            lemma_truncated_grf_id_entry(e, j);
                        }
                    }
                    lemma_truncated_sorted::<GrfIdEntry>(es@, Seq::empty(), k - 1);
                }
            },
            ActiveNewGrf::Full(es) => {
                if k == 0 {
                    assert(v.spec_encode().take(0).len() == 0);
                } else {
                    let body = spec_encode_seq(es@);
                    assert(v.spec_encode().take(k) =~= seq![(es@.len() as u8)] + body.take(k - 1));
                    lemma_rt_u8(es@.len() as u8, body.take(k - 1));
                    assert(truncation_safe::<GrfFullEntry>()) by {
                        assert forall|e: GrfFullEntry, j: int|
                            e.wf() && e.encodable() && 0 <= j < e.spec_encode().len() implies (
                        #[trigger] GrfFullEntry::spec_decode(e.spec_encode().take(j))) is None by {
                            lemma_truncated_grf_full_entry(e, j);
                        }
                    }
                    lemma_truncated_sorted::<GrfFullEntry>(es@, Seq::empty(), k - 1);
                }
            },
            ActiveNewGrf::Lookup(ids) => {
                if k == 0 {
                    assert(v.spec_encode().take(0).len() == 0);
                } else {
                    let body = spec_encode_seq(ids@);
                    assert(v.spec_encode().take(k) =~= seq![(ids@.len() as u8)] + body.take(k - 1));
                    lemma_rt_u8(ids@.len() as u8, body.take(k - 1));
                    assert(truncation_safe::<u32>()) by {
                        assert forall|e: u32, j: int|
                            e.wf() && e.encodable() && 0 <= j < e.spec_encode().len() implies (
                        #[trigger] <u32 as PacketPayload>::spec_decode(
                            e.spec_encode().take(j),
                        )) is None by {
                            lemma_le_bytes_len(e as int, 4);
                            assert(e.spec_encode().take(j).len() < 4);
                        }
                    }
                    lemma_truncated_sorted::<u32>(ids@, Seq::empty(), k - 1);
                }
            },
        }
    }
}

impl ByteWriter for ActiveNewGrf {
    open spec fn wf(&self) -> bool {
        match self {
            ActiveNewGrf::OnlyId(es) => sorted(es@) && all_wf(es@),
            ActiveNewGrf::Full(es) => sorted(es@) && all_wf(es@),
            ActiveNewGrf::Lookup(ids) => sorted(ids@) && all_wf(ids@),
        }
    }

    open spec fn encodable(&self) -> bool {
        self.spec_len() <= 255
    }

    /// One count byte, then the entries in ascending id order. The shape
    /// tag is not part of this image: the containing message carries it.
    open spec fn spec_encode(&self) -> Seq<u8> {
        match self {
            ActiveNewGrf::OnlyId(es) => seq![(es@.len() as u8)] + spec_encode_seq(es@),
            ActiveNewGrf::Full(es) => seq![(es@.len() as u8)] + spec_encode_seq(es@),
            ActiveNewGrf::Lookup(ids) => seq![(ids@.len() as u8)] + spec_encode_seq(ids@),
        }
    }

    fn write_pkt(&self, out: &mut Vec<u8>) -> (r: Result<(), EncodeError>) {
        match self {
            ActiveNewGrf::OnlyId(es) => {
                if es.len() > 255 {
                    return Err(EncodeError::Overflow);
                }
                out.push(es.len() as u8);
                proof {
                    assert(all_encodable(es@));
                }
                match crate::ordered::write_entries(out, es) {
                    Ok(()) => {
                        proof {
                            assert(out@ =~= old(out)@ + self.spec_encode());
                        }
                        Ok(())
                    },
                    Err(e) => {
                        proof {
                            assert(false);
                        }
                        Err(e)
                    },
                }
            },
            ActiveNewGrf::Full(es) => {
                if es.len() > 255 {
                    return Err(EncodeError::Overflow);
                }
                out.push(es.len() as u8);
                proof {
                    assert(all_encodable(es@));
                }
                match crate::ordered::write_entries(out, es) {
                    Ok(()) => {
                        proof {
                            assert(out@ =~= old(out)@ + self.spec_encode());
                        }
                        Ok(())
                    },
                    Err(e) => {
                        proof {
                            assert(false);
                        }
                        Err(e)
                    },
                }
            },
            ActiveNewGrf::Lookup(ids) => {
                if ids.len() > 255 {
                    return Err(EncodeError::Overflow);
                }
                out.push(ids.len() as u8);
                proof {
                    assert(all_encodable(ids@));
                }
                match crate::ordered::write_entries(out, ids) {
                    Ok(()) => {
                        proof {
                            assert(out@ =~= old(out)@ + self.spec_encode());
                        }
                        Ok(())
                    },
                    Err(e) => {
                        proof {
                            assert(false);
                        }
                        Err(e)
                    },
                }
            },
        }
    }
}

} // verus!
