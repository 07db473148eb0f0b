//! The client's server-list request: master-server version plus the kind
//! of address list wanted.

use vstd::prelude::*;
use crate::DecodeError;
use crate::EncodeError;
use crate::util::ByteWriter;
use crate::util::PacketPayload;
use crate::util::spec_read_u8;
use crate::util::read_u8_at;
use crate::util::lemma_rt_u8;

verus! {

/// Which address family the client asks the master server to list.
#[derive(Clone, Copy, Debug, PartialEq, Eq, Structural)]
pub enum ServerListType {
    IPv4,
    IPv6,
    Autodetect,
}

impl ServerListType {
    /// The wire tag of this list type.
    pub open spec fn spec_num(self) -> u8 {
        match self {
            ServerListType::IPv4 => 0,
            ServerListType::IPv6 => 1,
            ServerListType::Autodetect => 2,
        }
    }

    /// The list type a wire tag stands for, if any.
    pub open spec fn spec_from_num(v: u8) -> Option<ServerListType> {
        if v == 0 {
            Some(ServerListType::IPv4)
        } else if v == 1 {
            Some(ServerListType::IPv6)
        } else if v == 2 {
            Some(ServerListType::Autodetect)
        } else {
            None
        }
    }

    fn from_num(v: u8) -> (r: Option<ServerListType>)
        ensures
            r == ServerListType::spec_from_num(v),
    {
        if v == 0 {
            Some(ServerListType::IPv4)
        } else if v == 1 {
            Some(ServerListType::IPv6)
        } else if v == 2 {
            Some(ServerListType::Autodetect)
        } else {
            None
        }
    }
}

impl From<ServerListType> for u8 {
    fn from(v: ServerListType) -> (r: u8) {
        match v {
            ServerListType::IPv4 => 0,
            ServerListType::IPv6 => 1,
            ServerListType::Autodetect => 2,
        }
    }
}

impl vstd::std_specs::convert::FromSpecImpl<ServerListType> for u8 {
    open spec fn obeys_from_spec() -> bool {
        true
    }

    open spec fn from_spec(v: ServerListType) -> u8 {
        v.spec_num()
    }
}

/// A request for the master server's list of game servers.
#[derive(Clone, Copy, Debug, PartialEq, Eq, Structural)]
pub struct ClientGetListData {
    pub master_server_version: u8,
    pub request_type: ServerListType,
}

impl View for ClientGetListData {
    type V = ClientGetListData;

    open spec fn view(&self) -> ClientGetListData {
        *self
    }
}

impl ByteWriter for ClientGetListData {
    open spec fn wf(&self) -> bool {
        true
    }

    open spec fn encodable(&self) -> bool {
        true
    }

    open spec fn spec_encode(&self) -> Seq<u8> {
        seq![self.master_server_version] + seq![self.request_type.spec_num()]
    }

    fn write_pkt(&self, out: &mut Vec<u8>) -> (r: Result<(), EncodeError>) {
        out.push(self.master_server_version);
        out.push(u8::from(self.request_type));
        proof {
            assert(out@ =~= old(out)@ + self.spec_encode());
        }
        Ok(())
    }
}

impl PacketPayload for ClientGetListData {
    open spec fn spec_decode(s: Seq<u8>) -> Option<(ClientGetListData, Seq<u8>)> {
        match spec_read_u8(s) {
            None => None,
            Some((master_server_version, s1)) => match spec_read_u8(s1) {
                None => None,
                Some((t, s2)) => match ServerListType::spec_from_num(t) {
                    None => None,
                    Some(request_type) => Some(
                        (ClientGetListData { master_server_version, request_type }, s2),
                    ),
                },
            },
        }
    }

    fn read_from(input: &[u8], pos: usize) -> (r: Result<(Self, usize), DecodeError>) {
        let (master_server_version, p1) = read_u8_at(input, pos)?;
        let (t, p2) = read_u8_at(input, p1)?;
        match ServerListType::from_num(t) {
            Some(request_type) => Ok((ClientGetListData { master_server_version, request_type }, p2)),
            None => Err(DecodeError::UnknownTag),
        }
    }

    proof fn lemma_round_trip(v: Self, rest: Seq<u8>) {
        let t1 = seq![v.request_type.spec_num()] + rest;
        assert(v.spec_encode() + rest =~= seq![v.master_server_version] + t1);
        lemma_rt_u8(v.master_server_version, t1);
        lemma_rt_u8(v.request_type.spec_num(), rest);
    }
}

/// Truncation: a list request cut short fails to decode rather than
/// yielding a partial value.
pub proof fn lemma_truncated_get_list_fails(v: ClientGetListData, k: int)
    requires
        0 <= k < v.spec_encode().len(),
    ensures
        ClientGetListData::spec_decode(v.spec_encode().take(k)) is None,
{
    let t = v.spec_encode().take(k);
    if k > 0 {
        assert(t.skip(1).len() == 0);
    }
}

} // verus!
