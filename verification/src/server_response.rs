//! The full server-status payload: protocol version tag, active add-on
//! set, game dates, counts, names and map data, in one exact wire layout.

use vstd::prelude::*;
use vstd::seq_lib::lemma_concat_associative;
use crate::DecodeError;
use crate::EncodeError;
use crate::newgrf::ActiveNewGrf;
use crate::newgrf::ActiveNewGrfKind;
use crate::newgrf::ActiveNewGrfV;
use crate::util::ByteWriter;
use crate::util::PacketPayload;
use crate::util::ZString;
use crate::util::bool_byte;
use crate::util::le16;
use crate::util::le32;
use crate::util::spec_read_u8;
use crate::util::spec_read_u16;
use crate::util::spec_read_u32;
use crate::util::spec_read_bool;
use crate::util::spec_read_zstring;
use crate::util::zstring_encode;
use crate::util::read_u8_at;
use crate::util::read_u16_at;
use crate::util::read_u32_at;
use crate::util::read_bool_at;
use crate::util::read_cstring;
use crate::util::write_le;
use crate::util::lemma_rt_u8;
use crate::util::lemma_rt_u16;
use crate::util::lemma_rt_u32;
use crate::util::lemma_rt_bool;
use crate::util::lemma_rt_zstring;

verus! {

/// The one protocol revision this codec speaks; its wire tag is 6.
#[derive(Clone, Copy, Debug, PartialEq, Eq, Structural)]
pub enum ProtocolVer {
    V6,
}

impl ProtocolVer {
    /// The wire tag of this protocol revision.
    pub open spec fn spec_num(self) -> u8 {
        match self {
            ProtocolVer::V6 => 6,
        }
    }
}

impl View for ProtocolVer {
    type V = ProtocolVer;

    open spec fn view(&self) -> ProtocolVer {
        *self
    }
}

impl ByteWriter for ProtocolVer {
    open spec fn wf(&self) -> bool {
        true
    }

    open spec fn encodable(&self) -> bool {
        true
    }

    open spec fn spec_encode(&self) -> Seq<u8> {
        seq![self.spec_num()]
    }

    fn write_pkt(&self, out: &mut Vec<u8>) -> (r: Result<(), EncodeError>) {
        match *self {
            ProtocolVer::V6 => out.push(6),
        }
        Ok(())
    }
}

/// The version tag on the wire, accepted only when it names a revision
/// this codec speaks.
pub open spec fn spec_read_protocol(s: Seq<u8>) -> Option<(ProtocolVer, Seq<u8>)> {
    match spec_read_u8(s) {
        None => None,
        Some((b, s1)) => if b == 6 {
            Some((ProtocolVer::V6, s1))
        } else {
            None
        },
    }
}

/// Reads the protocol version tag at `pos`; an unknown revision is an
/// unknown-tag error.
fn read_protocol_at(input: &[u8], pos: usize) -> (r: Result<(ProtocolVer, usize), DecodeError>)
    requires
        pos <= input@.len(),
    ensures
        match spec_read_protocol(input@.skip(pos as int)) {
            Some(p) => {
                &&& r matches Ok(q)
                &&& q.0 == p.0
                &&& pos <= q.1 <= input@.len()
                &&& input@.skip(q.1 as int) == p.1
            },
            None => r is Err,
        },
{
    let (b, p1) = read_u8_at(input, pos)?;
    if b == 6 {
        Ok((ProtocolVer::V6, p1))
    } else {
        Err(DecodeError::UnknownTag)
    }
}

/// The canonical full-status payload of a game server.
#[derive(Clone, Debug, PartialEq, Eq)]
pub struct ServerResponse {
    pub gamescript_version: u32,
    pub gamescript_name: ZString,
    pub active_newgrf: ActiveNewGrf,
    /// Current in-game date, as seconds since the Unix epoch.
    pub game_date: u32,
    /// Game start date, as seconds since the Unix epoch.
    pub start_date: u32,
    pub max_companies: u8,
    pub current_companies: u8,
    pub max_spectators: u8,
    pub server_name: ZString,
    pub server_revision: ZString,
    pub server_lang: u8,
    pub use_password: bool,
    pub clients_max: u8,
    pub clients_on: u8,
    pub spectators_on: u8,
    pub map_name: ZString,
    pub map_width: u16,
    pub map_height: u16,
    pub map_set: u8,
    pub dedicated: bool,
}

/// The mathematical content of a `ServerResponse`.
pub struct ServerResponseV {
    pub gamescript_version: u32,
    pub gamescript_name: Seq<u8>,
    pub active_newgrf: ActiveNewGrfV,
    pub game_date: u32,
    pub start_date: u32,
    pub max_companies: u8,
    pub current_companies: u8,
    pub max_spectators: u8,
    pub server_name: Seq<u8>,
    pub server_revision: Seq<u8>,
    pub server_lang: u8,
    pub use_password: bool,
    pub clients_max: u8,
    pub clients_on: u8,
    pub spectators_on: u8,
    pub map_name: Seq<u8>,
    pub map_width: u16,
    pub map_height: u16,
    pub map_set: u8,
    pub dedicated: bool,
}

impl View for ServerResponse {
    type V = ServerResponseV;

    open spec fn view(&self) -> ServerResponseV {
        ServerResponseV {
            gamescript_version: self.gamescript_version,
            gamescript_name: self.gamescript_name@,
            active_newgrf: self.active_newgrf@,
            game_date: self.game_date,
            start_date: self.start_date,
            max_companies: self.max_companies,
            current_companies: self.current_companies,
            max_spectators: self.max_spectators,
            server_name: self.server_name@,
            server_revision: self.server_revision@,
            server_lang: self.server_lang,
            use_password: self.use_password,
            clients_max: self.clients_max,
            clients_on: self.clients_on,
            spectators_on: self.spectators_on,
            map_name: self.map_name@,
            map_width: self.map_width,
            map_height: self.map_height,
            map_set: self.map_set,
            dedicated: self.dedicated,
        }
    }
}

impl ByteWriter for ServerResponse {
    open spec fn wf(&self) -> bool {
        &&& self.gamescript_name.zwf()
        &&& self.active_newgrf.wf()
        &&& self.server_name.zwf()
        &&& self.server_revision.zwf()
        &&& self.map_name.zwf()
    }

    open spec fn encodable(&self) -> bool {
        self.active_newgrf.encodable()
    }

    /// Protocol tag, add-on shape tag, then every field in wire order.
    open spec fn spec_encode(&self) -> Seq<u8> {
        self.spec_encode_head() + self.spec_encode_tail()
    }

    #[verifier::rlimit(100)]
    fn write_pkt(&self, out: &mut Vec<u8>) -> (r: Result<(), EncodeError>) {
        let fits = match &self.active_newgrf {
            ActiveNewGrf::OnlyId(es) => es.len() <= 255,
            ActiveNewGrf::Full(es) => es.len() <= 255,
            ActiveNewGrf::Lookup(ids) => ids.len() <= 255,
        };
        if !fits {
            return Err(EncodeError::Overflow);
        }
        let ghost e1 = seq![6u8];
        let ghost e2 = seq![self.active_newgrf.spec_kind().spec_num()];
        let ghost e3 = le32(self.gamescript_version);
        let ghost e4 = zstring_encode(self.gamescript_name@);
        let ghost e5 = self.active_newgrf.spec_encode();
        let ghost e6 = le32(self.game_date);
        let ghost e7 = le32(self.start_date);
        let ghost e8 = seq![self.max_companies];
        let ghost e9 = seq![self.current_companies];
        let ghost e10 = seq![self.max_spectators];
        let ghost e11 = zstring_encode(self.server_name@);
        let ghost e12 = zstring_encode(self.server_revision@);
        let ghost e13 = seq![self.server_lang];
        let ghost e14 = seq![bool_byte(self.use_password)];
        let ghost e15 = seq![self.clients_max];
        let ghost e16 = seq![self.clients_on];
        let ghost e17 = seq![self.spectators_on];
        let ghost e18 = zstring_encode(self.map_name@);
        let ghost e19 = le16(self.map_width);
        let ghost e20 = le16(self.map_height);
        let ghost e21 = seq![self.map_set];
        let ghost e22 = seq![bool_byte(self.dedicated)];
        let ghost p1 = e1;
        let ghost p2 = p1 + e2;
        let ghost p3 = p2 + e3;
        let ghost p4 = p3 + e4;
        let ghost p5 = p4 + e5;
        let ghost p6 = p5 + e6;
        let ghost p7 = p6 + e7;
        let ghost p8 = p7 + e8;
        let ghost p9 = p8 + e9;
        let ghost p10 = p9 + e10;
        let ghost p11 = p10 + e11;
        let ghost p12 = p11 + e12;
        let ghost p13 = p12 + e13;
        let ghost p14 = p13 + e14;
        let ghost p15 = p14 + e15;
        let ghost p16 = p15 + e16;
        let ghost p17 = p16 + e17;
        let ghost p18 = p17 + e18;
        let ghost p19 = p18 + e19;
        let ghost p20 = p19 + e20;
        let ghost p21 = p20 + e21;
        let ghost p22 = p21 + e22;
        out.push(6);
        proof {
            assert(out@ =~= old(out)@ + p1);
        }
        out.push(self.active_newgrf.kind().to_num());
        proof {
            assert(out@ =~= (old(out)@ + p1) + e2);
            lemma_concat_associative(old(out)@, p1, e2);
        }
        write_le(out, self.gamescript_version as u64, 4);
        proof {
            assert(out@ =~= (old(out)@ + p2) + e3);
            lemma_concat_associative(old(out)@, p2, e3);
        }
        out.extend_from_slice(self.gamescript_name.bytes.as_slice());
        out.push(0);
        proof {
            assert(out@ =~= (old(out)@ + p3) + e4);
            lemma_concat_associative(old(out)@, p3, e4);
        }
        match self.active_newgrf.write_pkt(out) {
            Ok(()) => {},
            Err(e) => {
                proof {
                    assert(false);
                }
                return Err(e);
            },
        }
        proof {
            assert(out@ =~= (old(out)@ + p4) + e5);
            lemma_concat_associative(old(out)@, p4, e5);
        }
        write_le(out, self.game_date as u64, 4);
        proof {
            assert(out@ =~= (old(out)@ + p5) + e6);
            lemma_concat_associative(old(out)@, p5, e6);
        }
        write_le(out, self.start_date as u64, 4);
        proof {
            assert(out@ =~= (old(out)@ + p6) + e7);
            lemma_concat_associative(old(out)@, p6, e7);
        }
        out.push(self.max_companies);
        proof {
            assert(out@ =~= (old(out)@ + p7) + e8);
            lemma_concat_associative(old(out)@, p7, e8);
        }
        out.push(self.current_companies);
        proof {
            assert(out@ =~= (old(out)@ + p8) + e9);
            lemma_concat_associative(old(out)@, p8, e9);
        }
        out.push(self.max_spectators);
        proof {
            assert(out@ =~= (old(out)@ + p9) + e10);
            lemma_concat_associative(old(out)@, p9, e10);
        }
        out.extend_from_slice(self.server_name.bytes.as_slice());
        out.push(0);
        proof {
            assert(out@ =~= (old(out)@ + p10) + e11);
            lemma_concat_associative(old(out)@, p10, e11);
        }
        out.extend_from_slice(self.server_revision.bytes.as_slice());
        out.push(0);
        proof {
            assert(out@ =~= (old(out)@ + p11) + e12);
            lemma_concat_associative(old(out)@, p11, e12);
        }
        out.push(self.server_lang);
        proof {
            assert(out@ =~= (old(out)@ + p12) + e13);
            lemma_concat_associative(old(out)@, p12, e13);
        }
        out.push(if self.use_password { 1 } else { 0 });
        proof {
            assert(out@ =~= (old(out)@ + p13) + e14);
            lemma_concat_associative(old(out)@, p13, e14);
        }
        out.push(self.clients_max);
        proof {
            assert(out@ =~= (old(out)@ + p14) + e15);
            lemma_concat_associative(old(out)@, p14, e15);
        }
        out.push(self.clients_on);
        proof {
            assert(out@ =~= (old(out)@ + p15) + e16);
            lemma_concat_associative(old(out)@, p15, e16);
        }
        out.push(self.spectators_on);
        proof {
            assert(out@ =~= (old(out)@ + p16) + e17);
            lemma_concat_associative(old(out)@, p16, e17);
        }
        out.extend_from_slice(self.map_name.bytes.as_slice());
        out.push(0);
        proof {
            assert(out@ =~= (old(out)@ + p17) + e18);
            lemma_concat_associative(old(out)@, p17, e18);
        }
        write_le(out, self.map_width as u64, 2);
        proof {
            assert(out@ =~= (old(out)@ + p18) + e19);
            lemma_concat_associative(old(out)@, p18, e19);
        }
        write_le(out, self.map_height as u64, 2);
        proof {
            assert(out@ =~= (old(out)@ + p19) + e20);
            lemma_concat_associative(old(out)@, p19, e20);
        }
        out.push(self.map_set);
        proof {
            assert(out@ =~= (old(out)@ + p20) + e21);
            lemma_concat_associative(old(out)@, p20, e21);
        }
        out.push(if self.dedicated { 1 } else { 0 });
        proof {
            assert(out@ =~= (old(out)@ + p21) + e22);
            lemma_concat_associative(old(out)@, p21, e22);
        }
        proof {
            assert(self.spec_encode_head() == p14);
            let q15 = e15;
            let q16 = q15 + e16;
            let q17 = q16 + e17;
            let q18 = q17 + e18;
            let q19 = q18 + e19;
            let q20 = q19 + e20;
            let q21 = q20 + e21;
            let q22 = q21 + e22;
            assert(self.spec_encode_tail() == q22);
            lemma_concat_associative(p14, q15, e16);
            lemma_concat_associative(p14, q16, e17);
            lemma_concat_associative(p14, q17, e18);
            lemma_concat_associative(p14, q18, e19);
            lemma_concat_associative(p14, q19, e20);
            lemma_concat_associative(p14, q20, e21);
            lemma_concat_associative(p14, q21, e22);
            assert(self.spec_encode() == p22);
            assert(out@ == old(out)@ + self.spec_encode());
        }
        Ok(())
    }
}

impl PacketPayload for ServerResponse {
    open spec fn spec_decode(s: Seq<u8>) -> Option<(ServerResponseV, Seq<u8>)> {
        match spec_read_protocol(s) {
            None => None,
            Some((_, s1)) => match spec_read_u8(s1) {
                None => None,
                Some((kb, s2)) => match ActiveNewGrfKind::spec_from_num(kb) {
                    None => None,
                    Some(kind) => match spec_read_u32(s2) {
                        None => None,
                        Some((gamescript_version, s3)) => match spec_read_zstring(s3) {
                            None => None,
                            Some((gamescript_name, s4)) => match ActiveNewGrf::spec_decode_kind(
                                s4,
                                kind,
                            ) {
                                None => None,
                                Some((active_newgrf, s5)) => match spec_read_u32(s5) {
                                    None => None,
                                    Some((game_date, s6)) => match spec_read_u32(s6) {
                                        None => None,
                                        Some((start_date, s7)) => match spec_read_u8(s7) {
                                            None => None,
                                            Some((max_companies, s8)) => match spec_read_u8(s8) {
                                                None => None,
                                                Some((current_companies, s9)) => match
                                                    spec_read_u8(s9) {
                                                    None => None,
                                                    Some((max_spectators, s10)) => match
                                                        spec_read_zstring(s10) {
                                                        None => None,
                                                        Some((server_name, s11)) => match
                                                            spec_read_zstring(s11) {
                                                            None => None,
                                                            Some((server_revision, s12)) => match
                                                                spec_read_u8(s12) {
                                                                None => None,
                                                                Some((server_lang, s13)) => match
                                                                    spec_read_bool(s13) {
                                                                    None => None,
                                                                    Some((use_password, s14)) => Self::spec_decode_tail(
                                                                        ServerPrefixV {
                                                                            gamescript_version,
                                                                            gamescript_name,
                                                                            active_newgrf,
                                                                            game_date,
                                                                            start_date,
                                                                            max_companies,
                                                                            current_companies,
                                                                            max_spectators,
                                                                            server_name,
                                                                            server_revision,
                                                                            server_lang,
                                                                            use_password,
                                                                        },
                                                                        s14,
                                                                    ),
                                                                },
                                                            },
                                                        },
                                                    },
                                                },
                                            },
                                        },
                                    },
                                },
                            },
                        },
                    },
                },
            },
        }
    }

    fn read_from(input: &[u8], pos: usize) -> (r: Result<(Self, usize), DecodeError>) {
        let (_, p1) = read_protocol_at(input, pos)?;
        let (kb, p2) = read_u8_at(input, p1)?;
        let kind = match ActiveNewGrfKind::from_num(kb) {
            Some(k) => k,
            None => {
                return Err(DecodeError::UnknownTag);
            },
        };
        let (gamescript_version, p3) = read_u32_at(input, p2)?;
        let (gamescript_name, p4) = read_cstring(input, p3)?;
        let (active_newgrf, p5) = ActiveNewGrf::read_kind_at(input, p4, kind)?;
        let (game_date, p6) = read_u32_at(input, p5)?;
        let (start_date, p7) = read_u32_at(input, p6)?;
        let (max_companies, p8) = read_u8_at(input, p7)?;
        let (current_companies, p9) = read_u8_at(input, p8)?;
        let (max_spectators, p10) = read_u8_at(input, p9)?;
        let (server_name, p11) = read_cstring(input, p10)?;
        let (server_revision, p12) = read_cstring(input, p11)?;
        let (server_lang, p13) = read_u8_at(input, p12)?;
        let (use_password, p14) = read_bool_at(input, p13)?;
        let (clients_max, p15) = read_u8_at(input, p14)?;
        let (clients_on, p16) = read_u8_at(input, p15)?;
        let (spectators_on, p17) = read_u8_at(input, p16)?;
        let (map_name, p18) = read_cstring(input, p17)?;
        let (map_width, p19) = read_u16_at(input, p18)?;
        let (map_height, p20) = read_u16_at(input, p19)?;
        let (map_set, p21) = read_u8_at(input, p20)?;
        let (dedicated, p22) = read_bool_at(input, p21)?;
        Ok((
            ServerResponse {
                gamescript_version,
                gamescript_name,
                active_newgrf,
                game_date,
                start_date,
                max_companies,
                current_companies,
                max_spectators,
                server_name,
                server_revision,
                server_lang,
                use_password,
                clients_max,
                clients_on,
                spectators_on,
                map_name,
                map_width,
                map_height,
                map_set,
                dedicated,
            },
            p22,
        ))
    }

    #[verifier::rlimit(100)]
    proof fn lemma_round_trip(v: Self, rest: Seq<u8>) {
        lemma_concat_associative(v.spec_encode_head(), v.spec_encode_tail(), rest);
        ServerResponse::lemma_decode_head(v, v.spec_encode_tail() + rest);
        ServerResponse::lemma_rt_tail(v, v.spec_prefix(), rest);
        assert(v.spec_with_prefix(v.spec_prefix()) == v@);
    }
}

/// The fields decoded before the client/spectator block; splitting the
/// parse here keeps each spec function within the prover's depth.
pub struct ServerPrefixV {
    pub gamescript_version: u32,
    pub gamescript_name: Seq<u8>,
    pub active_newgrf: ActiveNewGrfV,
    pub game_date: u32,
    pub start_date: u32,
    pub max_companies: u8,
    pub current_companies: u8,
    pub max_spectators: u8,
    pub server_name: Seq<u8>,
    pub server_revision: Seq<u8>,
    pub server_lang: u8,
    pub use_password: bool,
}

impl ServerResponse {
    /// The current in-game date as a calendar value at UTC.
    pub fn game_datetime(&self) -> (r: crate::util::UtcDateTime)
        ensures
            crate::util::dt_secs(r) == self.game_date as int,
    {
        crate::util::datetime_from_ts(self.game_date)
    }

    /// The game start date as a calendar value at UTC.
    pub fn start_datetime(&self) -> (r: crate::util::UtcDateTime)
        ensures
            crate::util::dt_secs(r) == self.start_date as int,
    {
        crate::util::datetime_from_ts(self.start_date)
    }

    /// The wire image up to and including the password flag.
    pub open spec fn spec_encode_head(&self) -> Seq<u8> {
        seq![6u8] + seq![self.active_newgrf.spec_kind().spec_num()] + le32(self.gamescript_version)
            + zstring_encode(self.gamescript_name@) + self.active_newgrf.spec_encode() + le32(
            self.game_date,
        ) + le32(self.start_date) + seq![self.max_companies] + seq![self.current_companies]
            + seq![self.max_spectators] + zstring_encode(self.server_name@) + zstring_encode(
            self.server_revision@,
        ) + seq![self.server_lang] + seq![bool_byte(self.use_password)]
    }

    /// The wire image from the client counts to the dedicated flag.
    pub open spec fn spec_encode_tail(&self) -> Seq<u8> {
        seq![self.clients_max] + seq![self.clients_on] + seq![self.spectators_on] + zstring_encode(
            self.map_name@,
        ) + le16(self.map_width) + le16(self.map_height) + seq![self.map_set]
            + seq![bool_byte(self.dedicated)]
    }

    /// The tail fields of this value, joined onto already-decoded
    /// prefix fields.
    pub open spec fn spec_with_prefix(&self, prefix: ServerPrefixV) -> ServerResponseV {
        ServerResponseV {
            gamescript_version: prefix.gamescript_version,
            gamescript_name: prefix.gamescript_name,
            active_newgrf: prefix.active_newgrf,
            game_date: prefix.game_date,
            start_date: prefix.start_date,
            max_companies: prefix.max_companies,
            current_companies: prefix.current_companies,
            max_spectators: prefix.max_spectators,
            server_name: prefix.server_name,
            server_revision: prefix.server_revision,
            server_lang: prefix.server_lang,
            use_password: prefix.use_password,
            clients_max: self.clients_max,
            clients_on: self.clients_on,
            spectators_on: self.spectators_on,
            map_name: self.map_name@,
            map_width: self.map_width,
            map_height: self.map_height,
            map_set: self.map_set,
            dedicated: self.dedicated,
        }
    }

    /// The decoded content of the head fields of this value.
    pub open spec fn spec_prefix(&self) -> ServerPrefixV {
        ServerPrefixV {
            gamescript_version: self.gamescript_version,
            gamescript_name: self.gamescript_name@,
            active_newgrf: self.active_newgrf@,
            game_date: self.game_date,
            start_date: self.start_date,
            max_companies: self.max_companies,
            current_companies: self.current_companies,
            max_spectators: self.max_spectators,
            server_name: self.server_name@,
            server_revision: self.server_revision@,
            server_lang: self.server_lang,
            use_password: self.use_password,
        }
    }

    /// Parsing the head fields of an encoding consumes exactly the head
    /// image and continues into the tail parse, whatever follows.
    #[verifier::rlimit(100)]
    proof fn lemma_decode_head(v: ServerResponse, x: Seq<u8>)
        requires
            v.wf(),
            v.encodable(),
        ensures
            ServerResponse::spec_decode(v.spec_encode_head() + x) == ServerResponse::spec_decode_tail(
                v.spec_prefix(),
                x,
            ),
    {

        let t13 = x;
        let t12 = seq![bool_byte(v.use_password)] + t13;
        let t11 = seq![v.server_lang] + t12;
        let t10 = zstring_encode(v.server_revision@) + t11;
        let t9 = zstring_encode(v.server_name@) + t10;
        let t8 = seq![v.max_spectators] + t9;
        let t7 = seq![v.current_companies] + t8;
        let t6 = seq![v.max_companies] + t7;
        let t5 = le32(v.start_date) + t6;
        let t4 = le32(v.game_date) + t5;
        let t3 = v.active_newgrf.spec_encode() + t4;
        let t2 = zstring_encode(v.gamescript_name@) + t3;
        let t1 = le32(v.gamescript_version) + t2;
        let t0a = seq![v.active_newgrf.spec_kind().spec_num()] + t1;
        let t0 = seq![6u8] + t0a;
        // peel the head apart one field at a time: each step is one
        // re-association of the concatenation
        let p1 = seq![6u8];
        let p2 = p1 + seq![v.active_newgrf.spec_kind().spec_num()];
        let p3 = p2 + le32(v.gamescript_version);
        let p4 = p3 + zstring_encode(v.gamescript_name@);
        let p5 = p4 + v.active_newgrf.spec_encode();
        let p6 = p5 + le32(v.game_date);
        let p7 = p6 + le32(v.start_date);
        let p8 = p7 + seq![v.max_companies];
        let p9 = p8 + seq![v.current_companies];
        let p10 = p9 + seq![v.max_spectators];
        let p11 = p10 + zstring_encode(v.server_name@);
        let p12 = p11 + zstring_encode(v.server_revision@);
        let p13 = p12 + seq![v.server_lang];
        let p14 = p13 + seq![bool_byte(v.use_password)];
        assert(v.spec_encode_head() == p14);
        assert(v.spec_encode_head() + x == p14 + t13);
        lemma_concat_associative(p13, seq![bool_byte(v.use_password)], t13);
        lemma_concat_associative(p12, seq![v.server_lang], t12);
        lemma_concat_associative(p11, zstring_encode(v.server_revision@), t11);
        lemma_concat_associative(p10, zstring_encode(v.server_name@), t10);
        lemma_concat_associative(p9, seq![v.max_spectators], t9);
        lemma_concat_associative(p8, seq![v.current_companies], t8);
        lemma_concat_associative(p7, seq![v.max_companies], t7);
        lemma_concat_associative(p6, le32(v.start_date), t6);
        lemma_concat_associative(p5, le32(v.game_date), t5);
        lemma_concat_associative(p4, v.active_newgrf.spec_encode(), t4);
        lemma_concat_associative(p3, zstring_encode(v.gamescript_name@), t3);
        lemma_concat_associative(p2, le32(v.gamescript_version), t2);
        lemma_concat_associative(p1, seq![v.active_newgrf.spec_kind().spec_num()], t1);
        assert(v.spec_encode_head() + x == t0);
        lemma_rt_u8(6u8, t0a);
        lemma_rt_u8(v.active_newgrf.spec_kind().spec_num(), t1);
        assert(ActiveNewGrfKind::spec_from_num(v.active_newgrf.spec_kind().spec_num()) == Some(
            v.active_newgrf.spec_kind(),
        ));
        lemma_rt_u32(v.gamescript_version, t2);
        lemma_rt_zstring(v.gamescript_name@, t3);
        ActiveNewGrf::lemma_round_trip_kind(v.active_newgrf, t4);
        lemma_rt_u32(v.game_date, t5);
        lemma_rt_u32(v.start_date, t6);
        lemma_rt_u8(v.max_companies, t7);
        lemma_rt_u8(v.current_companies, t8);
        lemma_rt_u8(v.max_spectators, t9);
        lemma_rt_zstring(v.server_name@, t10);
        lemma_rt_zstring(v.server_revision@, t11);
        lemma_rt_u8(v.server_lang, t12);
        lemma_rt_bool(v.use_password, t13);
    }

    /// Round trip for the tail fields.
    proof fn lemma_rt_tail(v: ServerResponse, prefix: ServerPrefixV, rest: Seq<u8>)
        requires
            v.map_name.zwf(),
        ensures
            ServerResponse::spec_decode_tail(prefix, v.spec_encode_tail() + rest) == Some(
                (v.spec_with_prefix(prefix), rest),
            ),
    {
        let t7 = seq![bool_byte(v.dedicated)] + rest;
        let t6 = seq![v.map_set] + t7;
        let t5 = le16(v.map_height) + t6;
        let t4 = le16(v.map_width) + t5;
        let t3 = zstring_encode(v.map_name@) + t4;
        let t2 = seq![v.spectators_on] + t3;
        let t1 = seq![v.clients_on] + t2;
        let t0 = seq![v.clients_max] + t1;
        let p1 = seq![v.clients_max];
        let p2 = p1 + seq![v.clients_on];
        let p3 = p2 + seq![v.spectators_on];
        let p4 = p3 + zstring_encode(v.map_name@);
        let p5 = p4 + le16(v.map_width);
        let p6 = p5 + le16(v.map_height);
        let p7 = p6 + seq![v.map_set];
        let p8 = p7 + seq![bool_byte(v.dedicated)];
        assert(v.spec_encode_tail() == p8);
        lemma_concat_associative(p7, seq![bool_byte(v.dedicated)], rest);
        lemma_concat_associative(p6, seq![v.map_set], t7);
        lemma_concat_associative(p5, le16(v.map_height), t6);
        lemma_concat_associative(p4, le16(v.map_width), t5);
        lemma_concat_associative(p3, zstring_encode(v.map_name@), t4);
        lemma_concat_associative(p2, seq![v.spectators_on], t3);
        lemma_concat_associative(p1, seq![v.clients_on], t2);
        assert(v.spec_encode_tail() + rest == t0);
        lemma_rt_u8(v.clients_max, t1);
        lemma_rt_u8(v.clients_on, t2);
        lemma_rt_u8(v.spectators_on, t3);
        lemma_rt_zstring(v.map_name@, t4);
        lemma_rt_u16(v.map_width, t5);
        lemma_rt_u16(v.map_height, t6);
        lemma_rt_u8(v.map_set, t7);
        lemma_rt_bool(v.dedicated, rest);
    }

    /// Truncation at the end: a full-status payload with its last byte
    /// removed fails to decode rather than yielding a partial value.
    pub proof fn lemma_truncated_last(v: ServerResponse)
        requires
            v.wf(),
            v.encodable(),
        ensures
            v.spec_encode().len() > 0,
            ServerResponse::spec_decode(v.spec_encode().take(v.spec_encode().len() - 1)) is None,
    {
        let head = v.spec_encode_head();
        let tail = v.spec_encode_tail();
        let k = v.spec_encode().len() - 1;
        assert(tail.len() >= 1);
        crate::util::lemma_take_concat(head, tail, k);
        ServerResponse::lemma_decode_head(v, tail.take(tail.len() - 1));
        ServerResponse::lemma_truncated_tail_last(v, v.spec_prefix());
    }

    /// The tail fields with the final flag byte missing never finish
    /// decoding.
    proof fn lemma_truncated_tail_last(v: ServerResponse, prefix: ServerPrefixV)
        requires
            v.map_name.zwf(),
        ensures
            ServerResponse::spec_decode_tail(
                prefix,
                v.spec_encode_tail().take(v.spec_encode_tail().len() - 1),
            ) is None,
    {
        let t7 = Seq::<u8>::empty();
        let t6 = seq![v.map_set] + t7;
        let t5 = le16(v.map_height) + t6;
        let t4 = le16(v.map_width) + t5;
        let t3 = zstring_encode(v.map_name@) + t4;
        let t2 = seq![v.spectators_on] + t3;
        let t1 = seq![v.clients_on] + t2;
        let t0 = seq![v.clients_max] + t1;
        let p1 = seq![v.clients_max];
        let p2 = p1 + seq![v.clients_on];
        let p3 = p2 + seq![v.spectators_on];
        let p4 = p3 + zstring_encode(v.map_name@);
        let p5 = p4 + le16(v.map_width);
        let p6 = p5 + le16(v.map_height);
        let p7 = p6 + seq![v.map_set];
        let p8 = p7 + seq![bool_byte(v.dedicated)];
        assert(v.spec_encode_tail() == p8);
        crate::util::lemma_take_concat(p7, seq![bool_byte(v.dedicated)], p7.len() as int);
        assert(seq![bool_byte(v.dedicated)].take(0) =~= Seq::<u8>::empty());
        assert(p7 + Seq::<u8>::empty() =~= p7);
        assert(v.spec_encode_tail().take(v.spec_encode_tail().len() - 1) == p7);
        lemma_concat_associative(p6, seq![v.map_set], t7);
        assert(p7 + t7 =~= p7);
        lemma_concat_associative(p5, le16(v.map_height), t6);
        lemma_concat_associative(p4, le16(v.map_width), t5);
        lemma_concat_associative(p3, zstring_encode(v.map_name@), t4);
        lemma_concat_associative(p2, seq![v.spectators_on], t3);
        lemma_concat_associative(p1, seq![v.clients_on], t2);
        assert(p7 == t0);
        lemma_rt_u8(v.clients_max, t1);
        lemma_rt_u8(v.clients_on, t2);
        lemma_rt_u8(v.spectators_on, t3);
        lemma_rt_zstring(v.map_name@, t4);
        lemma_rt_u16(v.map_width, t5);
        lemma_rt_u16(v.map_height, t6);
        lemma_rt_u8(v.map_set, t7);
    }

    /// The rest of the parse: client counts, map data and flags.
    pub open spec fn spec_decode_tail(prefix: ServerPrefixV, s: Seq<u8>) -> Option<
        (ServerResponseV, Seq<u8>),
    > {
        match spec_read_u8(s) {
            None => None,
            Some((clients_max, s1)) => match spec_read_u8(s1) {
                None => None,
                Some((clients_on, s2)) => match spec_read_u8(s2) {
                    None => None,
                    Some((spectators_on, s3)) => match spec_read_zstring(s3) {
                        None => None,
                        Some((map_name, s4)) => match spec_read_u16(s4) {
                            None => None,
                            Some((map_width, s5)) => match spec_read_u16(s5) {
                                None => None,
                                Some((map_height, s6)) => match spec_read_u8(s6) {
                                    None => None,
                                    Some((map_set, s7)) => match spec_read_bool(s7) {
                                        None => None,
                                        Some((dedicated, s8)) => Some(
                                            (
                                                ServerResponseV {
                                                    gamescript_version: prefix.gamescript_version,
                                                    gamescript_name: prefix.gamescript_name,
                                                    active_newgrf: prefix.active_newgrf,
                                                    game_date: prefix.game_date,
                                                    start_date: prefix.start_date,
                                                    max_companies: prefix.max_companies,
                                                    current_companies: prefix.current_companies,
                                                    max_spectators: prefix.max_spectators,
                                                    server_name: prefix.server_name,
                                                    server_revision: prefix.server_revision,
                                                    server_lang: prefix.server_lang,
                                                    use_password: prefix.use_password,
                                                    clients_max,
                                                    clients_on,
                                                    spectators_on,
                                                    map_name,
                                                    map_width,
                                                    map_height,
                                                    map_set,
                                                    dedicated,
                                                },
                                                s8,
                                            ),
                                        ),
                                    },
                                },
                            },
                        },
                    },
                },
            },
        }
    }
}

} // verus!
