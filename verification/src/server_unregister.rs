//! A game server's unregistration request to the master server.

use vstd::prelude::*;
use crate::DecodeError;
use crate::EncodeError;
use crate::util::ByteWriter;
use crate::util::PacketPayload;
use crate::util::le16;
use crate::util::spec_read_u8;
use crate::util::spec_read_u16;
use crate::util::read_u8_at;
use crate::util::read_u16_at;
use crate::util::write_le;
use crate::util::lemma_rt_u8;
use crate::util::lemma_rt_u16;
use crate::util::lemma_le_bytes_len;

verus! {

/// Master-server protocol version and the port being unregistered.
#[derive(Clone, Copy, Debug, PartialEq, Eq, Structural)]
pub struct ServerUnregisterData {
    pub master_server_version: u8,
    pub port: u16,
}

impl View for ServerUnregisterData {
    type V = ServerUnregisterData;

    open spec fn view(&self) -> ServerUnregisterData {
        *self
    }
}

impl ByteWriter for ServerUnregisterData {
    open spec fn wf(&self) -> bool {
        true
    }

    open spec fn encodable(&self) -> bool {
        true
    }

    open spec fn spec_encode(&self) -> Seq<u8> {
        seq![self.master_server_version] + le16(self.port)
    }

    fn write_pkt(&self, out: &mut Vec<u8>) -> (r: Result<(), EncodeError>) {
        out.push(self.master_server_version);
        write_le(out, self.port as u64, 2);
        proof {
            assert(out@ =~= old(out)@ + self.spec_encode());
        }
        Ok(())
    }
}

impl PacketPayload for ServerUnregisterData {
    open spec fn spec_decode(s: Seq<u8>) -> Option<(ServerUnregisterData, Seq<u8>)> {
        match spec_read_u8(s) {
            None => None,
            Some((master_server_version, s1)) => match spec_read_u16(s1) {
                None => None,
                Some((port, s2)) => Some((ServerUnregisterData { master_server_version, port }, s2)),
            },
        }
    }

    fn read_from(input: &[u8], pos: usize) -> (r: Result<(Self, usize), DecodeError>) {
        let (master_server_version, p1) = read_u8_at(input, pos)?;
        let (port, p2) = read_u16_at(input, p1)?;
        Ok((ServerUnregisterData { master_server_version, port }, p2))
    }

    proof fn lemma_round_trip(v: Self, rest: Seq<u8>) {
        let t1 = le16(v.port) + rest;
        assert(v.spec_encode() + rest =~= seq![v.master_server_version] + t1);
        lemma_rt_u8(v.master_server_version, t1);
        lemma_rt_u16(v.port, rest);
    }
}

/// Truncation: any strict prefix of an encoded unregister request fails
/// to decode; a shortened buffer never yields a spuriously successful
/// partial value.
pub proof fn lemma_truncated_unregister_fails(v: ServerUnregisterData, k: int)
    requires
        0 <= k < v.spec_encode().len(),
    ensures
        ServerUnregisterData::spec_decode(v.spec_encode().take(k)) is None,
{
    lemma_le_bytes_len(v.port as int, 2);
    let t = v.spec_encode().take(k);
    if k > 0 {
        assert(t.skip(1).len() < 2);
    }
}

} // verus!
