//! Behavioural tests: round trips for every payload shape, ordering
//! determinism, count-field overflow, truncation, duplicate-key collapse
//! and the lossy boolean normalization.

use ottd_proto::client_get_list::{ClientGetListData, ServerListType};
use ottd_proto::master_response_list::{ServerList, SocketV4, SocketV6, V4Ip, V6Ip};
use ottd_proto::newgrf::{ActiveNewGrf, ActiveNewGrfKind, GrfFullEntry, GrfIdEntry, NewGRFHash};
use ottd_proto::ordered::insert_entry;
use ottd_proto::server_detail_info::{CompanyInfo, ServerDetailInfo, VehicleCounts};
use ottd_proto::server_register::ServerRegistrationData;
use ottd_proto::server_response::ServerResponse;
use ottd_proto::server_unregister::ServerUnregisterData;
use ottd_proto::util::{read_bool_at, ByteWriter, PacketPayload, ZString};
use ottd_proto::{
    ClientListingPacket, DecodeError, EncodeError, GcListingPacket, GcListingServer,
    GcNewgrfLookupPacket, GrfLookupEntry, UdpPacket,
};

fn zs(s: &[u8]) -> ZString {
    ZString::new(s.to_vec()).unwrap()
}

fn hash(seed: u8) -> NewGRFHash {
    NewGRFHash((0..16).map(|i| seed.wrapping_add(i)).collect())
}

fn sample_server_response() -> ServerResponse {
    ServerResponse {
        gamescript_version: 7,
        gamescript_name: zs(b"script"),
        active_newgrf: ActiveNewGrf::Full(vec![
            GrfFullEntry { id: 10, hash: hash(1), name: zs(b"alpha") },
            GrfFullEntry { id: 20, hash: hash(2), name: zs(b"beta") },
        ]),
        game_date: 1_000_000,
        start_date: 900_000,
        max_companies: 8,
        current_companies: 3,
        max_spectators: 5,
        server_name: zs(b"a server"),
        server_revision: zs(b"12.4"),
        server_lang: 1,
        use_password: true,
        clients_max: 20,
        clients_on: 4,
        spectators_on: 1,
        map_name: zs(b"hills"),
        map_width: 512,
        map_height: 256,
        map_set: 2,
        dedicated: false,
    }
}

fn round_trip<T: PacketPayload + PartialEq + std::fmt::Debug>(v: &T) {
    let mut bytes = Vec::new();
    v.write_pkt(&mut bytes).unwrap();
    let (back, used) = T::from_bytes(&bytes).unwrap();
    assert_eq!(&back, v);
    assert_eq!(used, bytes.len());
}

#[test]
fn round_trip_client_get_list() {
    round_trip(&ClientGetListData {
        master_server_version: 2,
        request_type: ServerListType::IPv6,
    });
}

#[test]
fn round_trip_server_register() {
    round_trip(&ServerRegistrationData {
        welcome_message: zs(b"hello"),
        server_version: 4,
        port: 3979,
        session_key: 0x1122_3344_5566_7788,
    });
}

#[test]
fn round_trip_server_unregister() {
    round_trip(&ServerUnregisterData { master_server_version: 2, port: 3979 });
}

#[test]
fn round_trip_server_detail_info() {
    let company = CompanyInfo {
        index: 1,
        name: zs(b"Transport Co"),
        inaugurated_year: 1950,
        company_value: 1_000_000,
        money: 500_000,
        income: 42_000,
        performance_history: 700,
        has_password: false,
        num_vehicles: VehicleCounts { train: 5, lorry: 4, bus: 3, plane: 2, ship: 1 },
        num_stations: VehicleCounts { train: 9, lorry: 8, bus: 7, plane: 6, ship: 5 },
        is_ai: true,
    };
    round_trip(&ServerDetailInfo { company_info_version: 6, companies: vec![company] });
}

#[test]
fn round_trip_client_listing() {
    round_trip(&ClientListingPacket {
        openttd_revision: zs(b"13.0"),
        newgrf_lookup_table_cursor: 99,
    });
}

#[test]
fn round_trip_gc_listing() {
    let server = GcListingServer {
        address: zs(b"game.example:3979"),
        server_info: sample_server_response(),
    };
    round_trip(&GcListingPacket { servers: vec![server] });
}

#[test]
fn round_trip_gc_newgrf_lookup() {
    round_trip(&GcNewgrfLookupPacket {
        newgrf_lookup_table_cursor: 5,
        newgrfs: vec![
            GrfLookupEntry { index: 1, grfid: 77, hash: hash(3), name: zs(b"one") },
            GrfLookupEntry { index: 2, grfid: 66, hash: hash(4), name: zs(b"two") },
        ],
    });
}

#[test]
fn round_trip_server_list_v6() {
    let mut set: Vec<SocketV6> = Vec::new();
    insert_entry(
        &mut set,
        SocketV6 {
            ip: V6Ip { s0: 0x20, s1: 1, s2: 0, s3: 0, s4: 0, s5: 0, s6: 0, s7: 1 },
            port: 3979,
        },
    );
    insert_entry(
        &mut set,
        SocketV6 {
            ip: V6Ip { s0: 0x20, s1: 0, s2: 0, s3: 0, s4: 0, s5: 0, s6: 0, s7: 2 },
            port: 4000,
        },
    );
    round_trip(&ServerList::IPv6(set));
}

#[test]
fn round_trip_udp_server_response() {
    let pkt = UdpPacket::ServerResponse(sample_server_response());
    let bytes = pkt.to_bytes().unwrap();
    let (back, used) = UdpPacket::from_bytes(&bytes).unwrap();
    assert_eq!(back, pkt);
    assert_eq!(used, bytes.len());
}

#[test]
fn round_trip_addon_set_lookup_shape() {
    let mut ids: Vec<u32> = Vec::new();
    for id in [9u32, 4, 7, 1] {
        insert_entry(&mut ids, id);
    }
    let set = ActiveNewGrf::Lookup(ids);
    let mut bytes = Vec::new();
    set.write_pkt(&mut bytes).unwrap();
    let (back, used) = ActiveNewGrf::from_bytes(&bytes, ActiveNewGrfKind::Lookup).unwrap();
    assert_eq!(back, set);
    assert_eq!(used, bytes.len());
}

#[test]
fn encode_is_insertion_order_independent() {
    let entries = [
        GrfIdEntry { id: 30, hash: hash(5) },
        GrfIdEntry { id: 10, hash: hash(6) },
        GrfIdEntry { id: 20, hash: hash(7) },
    ];

    let mut forward: Vec<GrfIdEntry> = Vec::new();
    for e in entries.iter() {
        insert_entry(&mut forward, e.clone());
    }
    let mut backward: Vec<GrfIdEntry> = Vec::new();
    for e in entries.iter().rev() {
        insert_entry(&mut backward, e.clone());
    }

    let mut bytes_forward = Vec::new();
    ActiveNewGrf::OnlyId(forward).write_pkt(&mut bytes_forward).unwrap();
    let mut bytes_backward = Vec::new();
    ActiveNewGrf::OnlyId(backward).write_pkt(&mut bytes_backward).unwrap();
    assert_eq!(bytes_forward, bytes_backward);

    let mut set_a: Vec<SocketV4> = Vec::new();
    let mut set_b: Vec<SocketV4> = Vec::new();
    let addrs = [
        SocketV4 { ip: V4Ip { a: 10, b: 0, c: 0, d: 2 }, port: 3979 },
        SocketV4 { ip: V4Ip { a: 10, b: 0, c: 0, d: 1 }, port: 4000 },
        SocketV4 { ip: V4Ip { a: 10, b: 0, c: 0, d: 1 }, port: 3979 },
    ];
    for a in addrs.iter() {
        insert_entry(&mut set_a, *a);
    }
    for a in addrs.iter().rev() {
        insert_entry(&mut set_b, *a);
    }
    let mut la = Vec::new();
    ServerList::IPv4(set_a).write_pkt(&mut la).unwrap();
    let mut lb = Vec::new();
    ServerList::IPv4(set_b).write_pkt(&mut lb).unwrap();
    assert_eq!(la, lb);
}

#[test]
fn addon_set_of_256_entries_overflows() {
    let ids: Vec<u32> = (0..256).collect();
    let set = ActiveNewGrf::Lookup(ids);
    let mut bytes = Vec::new();
    assert_eq!(set.write_pkt(&mut bytes), Err(EncodeError::Overflow));
    assert!(bytes.is_empty());

    let mut srv = sample_server_response();
    srv.active_newgrf = ActiveNewGrf::Lookup((0..256).collect());
    let mut out = Vec::new();
    assert_eq!(srv.write_pkt(&mut out), Err(EncodeError::Overflow));
    assert!(out.is_empty());
}

#[test]
fn addon_set_of_255_entries_encodes() {
    let ids: Vec<u32> = (0..255).collect();
    let set = ActiveNewGrf::Lookup(ids);
    let mut bytes = Vec::new();
    set.write_pkt(&mut bytes).unwrap();
    assert_eq!(bytes.len(), 1 + 255 * 4);
    let (back, _) = ActiveNewGrf::from_bytes(&bytes, ActiveNewGrfKind::Lookup).unwrap();
    assert_eq!(back, set);
}

#[test]
fn truncated_messages_fail_to_decode() {
    let pkt = UdpPacket::ServerResponse(sample_server_response());
    let mut bytes = pkt.to_bytes().unwrap();
    bytes.pop();
    assert!(UdpPacket::from_bytes(&bytes).is_err());

    assert!(UdpPacket::from_bytes(&[0x03, 0x00]).is_err());
    assert_eq!(
        UdpPacket::from_bytes(&[]),
        Err(DecodeError::UnexpectedEnd)
    );

    let reg = ServerRegistrationData {
        welcome_message: zs(b"hi"),
        server_version: 1,
        port: 2,
        session_key: 3,
    };
    let mut reg_bytes = Vec::new();
    reg.write_pkt(&mut reg_bytes).unwrap();
    reg_bytes.pop();
    assert_eq!(
        ServerRegistrationData::from_bytes(&reg_bytes),
        Err(DecodeError::UnexpectedEnd)
    );
}

#[test]
fn duplicate_id_keeps_later_entry() {
    let first = GrfIdEntry { id: 0x44332211, hash: hash(8) };
    let second = GrfIdEntry { id: 0x44332211, hash: hash(9) };
    let mut bytes = vec![2u8];
    let mut body = Vec::new();
    first.write_pkt(&mut body).unwrap();
    second.write_pkt(&mut body).unwrap();
    bytes.extend_from_slice(&body);

    let (set, used) = ActiveNewGrf::from_bytes(&bytes, ActiveNewGrfKind::OnlyId).unwrap();
    assert_eq!(used, bytes.len());
    assert_eq!(set, ActiveNewGrf::OnlyId(vec![second]));
}

#[test]
fn nonzero_flag_bytes_decode_true_and_normalize() {
    assert_eq!(read_bool_at(&[0x01], 0), Ok((true, 1)));
    assert_eq!(read_bool_at(&[0xff], 0), Ok((true, 1)));
    assert_eq!(read_bool_at(&[0x00], 0), Ok((false, 1)));

    // flip the password flag byte of an encoded status to a non-canonical
    // nonzero value: it still decodes to true, and re-encoding normalizes
    // the byte back to 1
    let mut plain = sample_server_response();
    plain.use_password = false;
    let mut with_password = plain.clone();
    with_password.use_password = true;
    let mut bytes_plain = Vec::new();
    plain.write_pkt(&mut bytes_plain).unwrap();
    let mut bytes_password = Vec::new();
    with_password.write_pkt(&mut bytes_password).unwrap();

    let flag_at = (0..bytes_plain.len())
        .find(|&i| bytes_plain[i] != bytes_password[i])
        .unwrap();
    assert_eq!(bytes_plain[flag_at], 0x00);
    assert_eq!(bytes_password[flag_at], 0x01);

    let mut noncanonical = bytes_plain.clone();
    noncanonical[flag_at] = 0xff;
    let (decoded, _) = ServerResponse::from_bytes(&noncanonical).unwrap();
    assert!(decoded.use_password);
    let mut reencoded = Vec::new();
    decoded.write_pkt(&mut reencoded).unwrap();
    assert_eq!(reencoded, bytes_password);
}

#[test]
fn unknown_tags_are_rejected() {
    assert_eq!(
        UdpPacket::from_bytes(&[0x03, 0x00, 0x07]),
        Err(DecodeError::UnknownTag)
    );
    assert_eq!(
        ClientGetListData::from_bytes(&[0x02, 0x03]),
        Err(DecodeError::UnknownTag)
    );
    assert_eq!(
        ServerList::from_bytes(&[0x00, 0x00, 0x00]),
        Err(DecodeError::UnknownTag)
    );
}

#[test]
fn mismatched_envelope_length_is_rejected() {
    assert_eq!(
        UdpPacket::from_bytes(&[0x04, 0x00, 0x00]),
        Err(DecodeError::BadLength)
    );
}

#[test]
fn timestamps_convert_to_calendar_values() {
    let srv = sample_server_response();
    assert_eq!(srv.game_datetime().timestamp(), 1_000_000);
    assert_eq!(srv.start_datetime().timestamp(), 900_000);
    assert!(srv.game_datetime().to_text().starts_with("1970-01-12"));
}

#[test]
fn strings_reject_interior_nulls() {
    assert!(ZString::new(b"ok".to_vec()).is_some());
    assert!(ZString::new(b"bad\0bad".to_vec()).is_none());
}
