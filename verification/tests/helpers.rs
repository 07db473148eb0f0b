//! The free helper parsers and small conversions, on concrete bytes.

use ottd_proto::client_get_list::ServerListType;
use ottd_proto::master_response_list::{
    parse_master_response_inner, parse_master_response_v4, parse_master_response_v4_server_entry,
    parse_master_response_v6, parse_master_response_v6_server_entry, parse_v4_ip, parse_v6_ip,
    SocketV4, SocketV6, V4Ip, V6Ip,
};
use ottd_proto::newgrf::{newgrf_entry, newgrf_entry_full, newgrf_md5, ActiveNewGrfKind};
use ottd_proto::server_detail_info::{parse_company_info, NetworkVehicleType, VehicleCounts};
use ottd_proto::util::{datetime_from_ts, read_cstring, ZString};
use ottd_proto::DecodeError;

#[test]
fn parse_v4_ip_reads_octets_in_order() {
    let (ip, used) = parse_v4_ip(&[10, 20, 30, 40, 99], 0).unwrap();
    assert_eq!(ip, V4Ip { a: 10, b: 20, c: 30, d: 40 });
    assert_eq!(used, 4);
    assert_eq!(parse_v4_ip(&[1, 2, 3], 0), Err(DecodeError::UnexpectedEnd));
}

#[test]
fn parse_v6_ip_reads_segments_little_endian() {
    let bytes = [0x01, 0x20, 0, 0, 0, 0, 0, 0, 0, 0, 0, 0, 0, 0, 0x02, 0x00];
    let (ip, used) = parse_v6_ip(&bytes, 0).unwrap();
    assert_eq!(ip.s0, 0x2001);
    assert_eq!(ip.s7, 0x0002);
    assert_eq!(used, 16);
}

#[test]
fn parse_server_entries() {
    let v4 = [10, 0, 0, 1, 0x8b, 0x0f];
    let (e, _) = parse_master_response_v4_server_entry(&v4, 0).unwrap();
    assert_eq!(e, SocketV4 { ip: V4Ip { a: 10, b: 0, c: 0, d: 1 }, port: 3979 });

    let mut v6 = vec![0u8; 18];
    v6[1] = 0x20;
    v6[16] = 0x8b;
    v6[17] = 0x0f;
    let (e6, _) = parse_master_response_v6_server_entry(&v6, 0).unwrap();
    assert_eq!(e6.ip.s0, 0x2000);
    assert_eq!(e6.port, 3979);
}

#[test]
fn parse_counted_address_sets() {
    // two IPv4 entries out of order on the wire end up sorted
    let data = [2, 0, 10, 0, 0, 2, 0x8b, 0x0f, 10, 0, 0, 1, 0x8b, 0x0f];
    let (set, used) = parse_master_response_v4(&data, 0).unwrap();
    assert_eq!(used, data.len());
    assert_eq!(set[0].ip.d, 1);
    assert_eq!(set[1].ip.d, 2);
    let (same, _) = parse_master_response_inner::<SocketV4>(&data, 0).unwrap();
    assert_eq!(set, same);

    let empty6 = [0, 0];
    let (set6, _) = parse_master_response_v6(&empty6, 0).unwrap();
    assert_eq!(set6, Vec::<SocketV6>::new());
    let _ = V6Ip { s0: 0, s1: 0, s2: 0, s3: 0, s4: 0, s5: 0, s6: 0, s7: 0 };
}

#[test]
fn parse_addon_entries() {
    let mut bytes = vec![0x44, 0x33, 0x22, 0x11];
    bytes.extend_from_slice(&[7u8; 16]);
    let (h, used) = newgrf_md5(&bytes, 4).unwrap();
    assert_eq!(h.0, vec![7u8; 16]);
    assert_eq!(used, bytes.len());

    let (e, _) = newgrf_entry(&bytes, 0).unwrap();
    assert_eq!(e.id, 0x11223344);
    assert_eq!(e.hash.0, vec![7u8; 16]);

    bytes.extend_from_slice(b"name\0");
    let (f, used_full) = newgrf_entry_full(&bytes, 0).unwrap();
    assert_eq!(f.id, 0x11223344);
    assert_eq!(f.name, ZString::new(b"name".to_vec()).unwrap());
    assert_eq!(used_full, bytes.len());

    assert_eq!(ActiveNewGrfKind::from_num(1), Some(ActiveNewGrfKind::Full));
    assert_eq!(ActiveNewGrfKind::from_num(9), None);
    assert_eq!(ActiveNewGrfKind::Lookup.to_num(), 2);
}

#[test]
fn parse_company_record() {
    let mut bytes = vec![3u8];
    bytes.extend_from_slice(b"Co\0");
    bytes.extend_from_slice(&1955u32.to_le_bytes());
    bytes.extend_from_slice(&100u64.to_le_bytes());
    bytes.extend_from_slice(&200u64.to_le_bytes());
    bytes.extend_from_slice(&300u64.to_le_bytes());
    bytes.extend_from_slice(&400u16.to_le_bytes());
    bytes.push(1);
    for n in 1u16..=10 {
        bytes.extend_from_slice(&n.to_le_bytes());
    }
    bytes.push(0);
    let (c, used) = parse_company_info(&bytes, 0).unwrap();
    assert_eq!(used, bytes.len());
    assert_eq!(c.index, 3);
    assert_eq!(c.inaugurated_year, 1955);
    assert!(c.has_password);
    assert!(!c.is_ai);
    assert_eq!(c.num_vehicles, VehicleCounts { train: 1, lorry: 2, bus: 3, plane: 4, ship: 5 });
    assert_eq!(c.num_vehicles.get(NetworkVehicleType::Ship), 5);
    assert_eq!(c.num_stations.get(NetworkVehicleType::Train), 6);
}

#[test]
fn read_cstring_stops_at_first_null() {
    let (z, used) = read_cstring(b"abc\0def", 0).unwrap();
    assert_eq!(z, ZString::new(b"abc".to_vec()).unwrap());
    assert_eq!(used, 4);
    assert_eq!(read_cstring(b"no terminator", 0), Err(DecodeError::UnexpectedEnd));
    assert_eq!(ZString::empty(), ZString::new(Vec::new()).unwrap());
}

#[test]
fn list_type_tags() {
    assert_eq!(u8::from(ServerListType::IPv4), 0);
    assert_eq!(u8::from(ServerListType::IPv6), 1);
    assert_eq!(u8::from(ServerListType::Autodetect), 2);
}

#[test]
fn epoch_conversion_round_trips_seconds() {
    assert_eq!(datetime_from_ts(0).timestamp(), 0);
    assert_eq!(datetime_from_ts(u32::MAX).timestamp(), u32::MAX as i64);
    assert!(datetime_from_ts(0).to_text().starts_with("1970-01-01"));
}
