//! The codec held to captured wire fixtures: a find-server datagram, a
//! master-server address list, and a full server-status payload.

use ottd_proto::master_response_list::{ServerList, SocketV4, V4Ip};
use ottd_proto::newgrf::{ActiveNewGrf, GrfIdEntry, NewGRFHash};
use ottd_proto::ordered::insert_entry;
use ottd_proto::server_response::ServerResponse;
use ottd_proto::util::{ByteWriter, PacketPayload, ZString};
use ottd_proto::UdpPacket;

fn zs(s: &[u8]) -> ZString {
    ZString::new(s.to_vec()).unwrap()
}

fn sock4(a: u8, b: u8, c: u8, d: u8, port: u16) -> SocketV4 {
    SocketV4 { ip: V4Ip { a, b, c, d }, port }
}

fn packet_fixtures() -> Vec<(Vec<u8>, UdpPacket)> {
    vec![(vec![0x03, 0x00, 0x00], UdpPacket::ClientFindServer)]
}

#[test]
fn test_parse_packet() {
    for (input, expectation) in packet_fixtures() {
        let result = UdpPacket::from_bytes(&input).unwrap();

        assert_eq!(expectation, result.0);
    }
}

#[test]
fn test_write_packet() {
    for (expectation, input) in packet_fixtures() {
        let result = input.to_bytes().unwrap();

        assert_eq!(expectation, result);
    }
}

fn master_fixtures() -> (Vec<u8>, ServerList) {
    let data: Vec<u8> = vec![
        0x01, 0x0a, 0x00, 0x4a, 0xd0, 0x4b, 0xb7, 0x8b, 0x0f, 0xac, 0xf9, 0xb0, 0x91, 0x8b, 0x0f, 0x53,
        0xc7, 0x18, 0x16, 0x8b, 0x0f, 0x3e, 0x8f, 0x2e, 0x44, 0x8b, 0x0f, 0x79, 0x2a, 0xa0, 0x97, 0x3e,
        0x0f, 0x5c, 0xde, 0x6e, 0x7c, 0x8b, 0x0f, 0x6c, 0x34, 0xe4, 0x4c, 0x8b, 0x0f, 0xb2, 0xeb, 0xb2,
        0x57, 0x8b, 0x0f, 0x80, 0x48, 0x4a, 0x71, 0x8b, 0x0f, 0x40, 0x8a, 0xe7, 0x36, 0x8b, 0x0f, 0x42,
        0x00, 0x07, 0x01, 0x01, 0x00, 0x4a, 0xd0, 0x4b, 0xb7, 0x8c, 0x0f,
    ];

    let mut set: Vec<SocketV4> = Vec::new();
    for addr in [
        sock4(74, 208, 75, 183, 3979),
        sock4(172, 249, 176, 145, 3979),
        sock4(83, 199, 24, 22, 3979),
        sock4(62, 143, 46, 68, 3979),
        sock4(121, 42, 160, 151, 3902),
        sock4(92, 222, 110, 124, 3979),
        sock4(108, 52, 228, 76, 3979),
        sock4(178, 235, 178, 87, 3979),
        sock4(128, 72, 74, 113, 3979),
        sock4(64, 138, 231, 54, 3979),
    ] {
        insert_entry(&mut set, addr);
    }

    (data, ServerList::IPv4(set))
}

#[test]
fn test_parse_master_response() {
    let (input, expectation) = master_fixtures();

    let result = ServerList::from_bytes(&input).unwrap();

    assert_eq!(expectation, result.0);
}

fn server_response_fixtures() -> (Vec<u8>, ServerResponse) {
    let b: Vec<u8> = vec![
        0x06, 0x00, 0xff, 0xff, 0xff, 0xff, 0x00, 0x03, 0x44, 0x4e, 0x07, 0x00, 0x48, 0xb3, 0xf9, 0xe4,
        0xfd, 0x0d, 0xf2, 0xa7, 0x2b, 0x5f, 0x44, 0xd3, 0xc8, 0xa2, 0xf4, 0xa0, 0x4d, 0x47, 0x03, 0x05,
        0x2e, 0x96, 0xb9, 0xab, 0x2b, 0xea, 0x68, 0x6b, 0xff, 0x94, 0x96, 0x1a, 0xd4, 0x33, 0xa7, 0x01,
        0x32, 0x32, 0x33, 0x22, 0x31, 0x61, 0x80, 0xda, 0x1b, 0xa6, 0x44, 0x4a, 0x06, 0xcd, 0x17, 0xf8,
        0xfa, 0x79, 0xd6, 0x0a, 0x63, 0xec, 0x0a, 0x00, 0x63, 0xec, 0x0a, 0x00, 0x0f, 0x00, 0x0a, 0x4f,
        0x6e, 0x6c, 0x79, 0x46, 0x72, 0x69, 0x65, 0x6e, 0x64, 0x73, 0x20, 0x4f, 0x70, 0x65, 0x6e, 0x54,
        0x54, 0x44, 0x20, 0x53, 0x65, 0x72, 0x76, 0x65, 0x72, 0x20, 0x23, 0x31, 0x00, 0x31, 0x2e, 0x35,
        0x2e, 0x33, 0x00, 0x16, 0x00, 0x19, 0x00, 0x00, 0x52, 0x61, 0x6e, 0x64, 0x6f, 0x6d, 0x20, 0x4d,
        0x61, 0x70, 0x00, 0x00, 0x04, 0x00, 0x04, 0x01, 0x01,
    ];

    let srv = ServerResponse {
        gamescript_version: u32::MAX,
        gamescript_name: zs(b""),

        active_newgrf: ActiveNewGrf::OnlyId(vec![
            GrfIdEntry { id: 0x00074e44, hash: NewGRFHash(vec![0x48, 0xb3, 0xf9, 0xe4, 0xfd, 0x0d, 0xf2, 0xa7, 0x2b, 0x5f, 0x44, 0xd3, 0xc8, 0xa2, 0xf4, 0xa0]) },
            GrfIdEntry { id: 0x0503474d, hash: NewGRFHash(vec![0x2e, 0x96, 0xb9, 0xab, 0x2b, 0xea, 0x68, 0x6b, 0xff, 0x94, 0x96, 0x1a, 0xd4, 0x33, 0xa7, 0x01]) },
            GrfIdEntry { id: 0x22333232, hash: NewGRFHash(vec![0x31, 0x61, 0x80, 0xda, 0x1b, 0xa6, 0x44, 0x4a, 0x06, 0xcd, 0x17, 0xf8, 0xfa, 0x79, 0xd6, 0x0a]) },
        ]),

        game_date: 715875,
        start_date: 715875,

        max_companies: 15,
        current_companies: 0,
        max_spectators: 10,

        server_name: zs(b"OnlyFriends OpenTTD Server #1"),
        map_name: zs(b"Random Map"),
        clients_on: 0,
        clients_max: 25,
        use_password: false,
        server_revision: zs(b"1.5.3"),
        server_lang: 22,
        spectators_on: 0,
        map_width: 1024,
        map_height: 1024,
        map_set: 1,
        dedicated: true,
    };

    (b, srv)
}

#[test]
fn test_parse_server_response() {
    let (input, expectation) = server_response_fixtures();

    let result = ServerResponse::from_bytes(&input).unwrap();

    assert_eq!(expectation, result.0);
}

#[test]
fn test_write_server_response() {
    let (expectation, input) = server_response_fixtures();

    let mut result = Vec::new();
    input.write_pkt(&mut result).unwrap();

    assert_eq!(expectation, result);
}
