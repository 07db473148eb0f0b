//! A game server's registration request to the master server.

use vstd::prelude::*;
use crate::DecodeError;
use crate::EncodeError;
use crate::util::ByteWriter;
use crate::util::PacketPayload;
use crate::util::ZString;
use crate::util::le16;
use crate::util::le64;
use crate::util::spec_read_u8;
use crate::util::spec_read_u16;
use crate::util::spec_read_u64;
use crate::util::spec_read_zstring;
use crate::util::zstring_encode;
use crate::util::read_u8_at;
use crate::util::read_u16_at;
use crate::util::read_u64_at;
use crate::util::read_cstring;
use crate::util::write_le;
use crate::util::lemma_rt_u8;
use crate::util::lemma_rt_u16;
use crate::util::lemma_rt_u64;
use crate::util::lemma_rt_zstring;

verus! {

/// Welcome text, protocol version, the port to reach the server on, and
/// its session key.
#[derive(Clone, Debug, PartialEq, Eq)]
pub struct ServerRegistrationData {
    pub welcome_message: ZString,
    pub server_version: u8,
    pub port: u16,
    pub session_key: u64,
}

/// The mathematical content of a `ServerRegistrationData`.
pub struct ServerRegistrationDataV {
    pub welcome_message: Seq<u8>,
    pub server_version: u8,
    pub port: u16,
    pub session_key: u64,
}

impl View for ServerRegistrationData {
    type V = ServerRegistrationDataV;

    open spec fn view(&self) -> ServerRegistrationDataV {
        ServerRegistrationDataV {
            welcome_message: self.welcome_message@,
            server_version: self.server_version,
            port: self.port,
            session_key: self.session_key,
        }
    }
}

impl ByteWriter for ServerRegistrationData {
    open spec fn wf(&self) -> bool {
        self.welcome_message.zwf()
    }

    open spec fn encodable(&self) -> bool {
        true
    }

    open spec fn spec_encode(&self) -> Seq<u8> {
        zstring_encode(self.welcome_message@) + seq![self.server_version] + le16(self.port) + le64(
            self.session_key,
        )
    }

    fn write_pkt(&self, out: &mut Vec<u8>) -> (r: Result<(), EncodeError>) {
        out.extend_from_slice(self.welcome_message.bytes.as_slice());
        out.push(0);
        out.push(self.server_version);
        write_le(out, self.port as u64, 2);
        write_le(out, self.session_key, 8);
        proof {
            assert(out@ =~= old(out)@ + self.spec_encode());
        }
        Ok(())
    }
}

impl PacketPayload for ServerRegistrationData {
    open spec fn spec_decode(s: Seq<u8>) -> Option<(ServerRegistrationDataV, Seq<u8>)> {
        match spec_read_zstring(s) {
            None => None,
            Some((welcome_message, s1)) => match spec_read_u8(s1) {
                None => None,
                Some((server_version, s2)) => match spec_read_u16(s2) {
                    None => None,
                    Some((port, s3)) => match spec_read_u64(s3) {
                        None => None,
                        Some((session_key, s4)) => Some(
                            (
                                ServerRegistrationDataV {
                                    welcome_message,
                                    server_version,
                                    port,
                                    session_key,
                                },
                                s4,
                            ),
                        ),
                    },
                },
            },
        }
    }

    fn read_from(input: &[u8], pos: usize) -> (r: Result<(Self, usize), DecodeError>) {
        let (welcome_message, p1) = read_cstring(input, pos)?;
        let (server_version, p2) = read_u8_at(input, p1)?;
        let (port, p3) = read_u16_at(input, p2)?;
        let (session_key, p4) = read_u64_at(input, p3)?;
        Ok((ServerRegistrationData { welcome_message, server_version, port, session_key }, p4))
    }

    proof fn lemma_round_trip(v: Self, rest: Seq<u8>) {
        let t3 = le64(v.session_key) + rest;
        let t2 = le16(v.port) + t3;
        let t1 = seq![v.server_version] + t2;
        assert(v.spec_encode() + rest =~= zstring_encode(v.welcome_message@) + t1);
        lemma_rt_zstring(v.welcome_message@, t1);
        lemma_rt_u8(v.server_version, t2);
        lemma_rt_u16(v.port, t3);
        lemma_rt_u64(v.session_key, rest);
    }
}

/// Truncation: a registration request cut short anywhere fails to decode
/// rather than yielding a partial value.
pub proof fn lemma_truncated_register_fails(v: ServerRegistrationData, k: int)
    requires
        v.wf(),
        0 <= k < v.spec_encode().len(),
    ensures
        ServerRegistrationData::spec_decode(v.spec_encode().take(k)) is None,
{
    crate::util::lemma_le_bytes_len(v.port as int, 2);
    crate::util::lemma_le_bytes_len(v.session_key as int, 8);
    let z = zstring_encode(v.welcome_message@);
    let tail = seq![v.server_version] + le16(v.port) + le64(v.session_key);
    let t = v.spec_encode().take(k);
    if k <= v.welcome_message@.len() {
        assert(t =~= v.welcome_message@.take(k));
        assert(forall|j: int| 0 <= j < t.len() ==> t[j] != 0);
        crate::util::lemma_zstring_none(t);
    } else {
        let k2 = k - z.len();
        assert(t =~= z + tail.take(k2));
        lemma_rt_zstring(v.welcome_message@, tail.take(k2));
        let x = tail.take(k2);
        assert(x.len() == k2 && k2 < 11);
        if k2 > 0 {
            assert(x.skip(1).len() == k2 - 1);
            if k2 - 1 >= 2 {
                assert(x.skip(1).skip(2).len() == k2 - 3);
                assert(k2 - 3 < 8);
            }
        }
    }
}

} // verus!
