//! The server detail listing: a version byte and a count-prefixed run of
//! per-company records, with per-vehicle-class counters in a fixed order.

use vstd::prelude::*;
use crate::DecodeError;
use crate::EncodeError;
use crate::ordered::all_wf;
use crate::ordered::all_encodable;
use crate::ordered::spec_encode_seq;
use crate::ordered::spec_read_entries;
use crate::ordered::read_entries;
use crate::ordered::lemma_rt_entries;
use crate::ordered::views;
use crate::ordered::write_entries;
use crate::util::ByteWriter;
use crate::util::PacketPayload;
use crate::util::ZString;
use crate::util::bool_byte;
use crate::util::le16;
use crate::util::le32;
use crate::util::le64;
use crate::util::spec_read_u8;
use crate::util::spec_read_u16;
use crate::util::spec_read_u32;
use crate::util::spec_read_u64;
use crate::util::spec_read_bool;
use crate::util::spec_read_zstring;
use crate::util::zstring_encode;
use crate::util::read_u8_at;
use crate::util::read_u16_at;
use crate::util::read_u32_at;
use crate::util::read_u64_at;
use crate::util::read_bool_at;
use crate::util::read_cstring;
use crate::util::write_le;
use crate::util::lemma_rt_u8;
use crate::util::lemma_rt_u16;
use crate::util::lemma_rt_u32;
use crate::util::lemma_rt_u64;
use crate::util::lemma_rt_bool;
use crate::util::lemma_rt_zstring;

verus! {

/// The closed set of vehicle classes; the wire always walks them in this
/// exact order.
#[derive(Clone, Copy, Debug, PartialEq, Eq, Structural, Hash)]
pub enum NetworkVehicleType {
    Train,
    Lorry,
    Bus,
    Plane,
    Ship,
}

/// One 16-bit counter per vehicle class.
#[derive(Clone, Copy, Debug, PartialEq, Eq, Structural)]
pub struct VehicleCounts {
    pub train: u16,
    pub lorry: u16,
    pub bus: u16,
    pub plane: u16,
    pub ship: u16,
}

impl VehicleCounts {
    /// The counter of one vehicle class.
    pub open spec fn spec_get(&self, t: NetworkVehicleType) -> u16 {
        match t {
            NetworkVehicleType::Train => self.train,
            NetworkVehicleType::Lorry => self.lorry,
            NetworkVehicleType::Bus => self.bus,
            NetworkVehicleType::Plane => self.plane,
            NetworkVehicleType::Ship => self.ship,
        }
    }

    pub fn get(&self, t: NetworkVehicleType) -> (r: u16)
        ensures
            r == self.spec_get(t),
    {
        match t {
            NetworkVehicleType::Train => self.train,
            NetworkVehicleType::Lorry => self.lorry,
            NetworkVehicleType::Bus => self.bus,
            NetworkVehicleType::Plane => self.plane,
            NetworkVehicleType::Ship => self.ship,
        }
    }
}

impl View for VehicleCounts {
    type V = VehicleCounts;

    open spec fn view(&self) -> VehicleCounts {
        *self
    }
}

impl ByteWriter for VehicleCounts {
    open spec fn wf(&self) -> bool {
        true
    }

    open spec fn encodable(&self) -> bool {
        true
    }

    /// Train, lorry, bus, plane, ship: always this order.
    open spec fn spec_encode(&self) -> Seq<u8> {
        le16(self.train) + le16(self.lorry) + le16(self.bus) + le16(self.plane) + le16(self.ship)
    }

    fn write_pkt(&self, out: &mut Vec<u8>) -> (r: Result<(), EncodeError>) {
        write_le(out, self.train as u64, 2);
        write_le(out, self.lorry as u64, 2);
        write_le(out, self.bus as u64, 2);
        write_le(out, self.plane as u64, 2);
        write_le(out, self.ship as u64, 2);
        proof {
            assert(out@ =~= old(out)@ + self.spec_encode());
        }
        Ok(())
    }
}

impl PacketPayload for VehicleCounts {
    open spec fn spec_decode(s: Seq<u8>) -> Option<(VehicleCounts, Seq<u8>)> {
        match spec_read_u16(s) {
            None => None,
            Some((train, s1)) => match spec_read_u16(s1) {
                None => None,
                Some((lorry, s2)) => match spec_read_u16(s2) {
                    None => None,
                    Some((bus, s3)) => match spec_read_u16(s3) {
                        None => None,
                        Some((plane, s4)) => match spec_read_u16(s4) {
                            None => None,
                            Some((ship, s5)) => Some(
                                (VehicleCounts { train, lorry, bus, plane, ship }, s5),
                            ),
                        },
                    },
                },
            },
        }
    }

    fn read_from(input: &[u8], pos: usize) -> (r: Result<(Self, usize), DecodeError>) {
        let (train, p1) = read_u16_at(input, pos)?;
        let (lorry, p2) = read_u16_at(input, p1)?;
        let (bus, p3) = read_u16_at(input, p2)?;
        let (plane, p4) = read_u16_at(input, p3)?;
        let (ship, p5) = read_u16_at(input, p4)?;
        Ok((VehicleCounts { train, lorry, bus, plane, ship }, p5))
    }

    proof fn lemma_round_trip(v: Self, rest: Seq<u8>) {
        let t4 = le16(v.ship) + rest;
        let t3 = le16(v.plane) + t4;
        let t2 = le16(v.bus) + t3;
        let t1 = le16(v.lorry) + t2;
        let t0 = le16(v.train) + t1;
        assert(v.spec_encode() + rest =~= t0);
        lemma_rt_u16(v.train, t1);
        lemma_rt_u16(v.lorry, t2);
        lemma_rt_u16(v.bus, t3);
        lemma_rt_u16(v.plane, t4);
        lemma_rt_u16(v.ship, rest);
    }
}

/// One company entry of a server's detail listing.
#[derive(Clone, Debug, PartialEq, Eq)]
pub struct CompanyInfo {
    pub index: u8,
    pub name: ZString,
    pub inaugurated_year: u32,
    pub company_value: u64,
    pub money: u64,
    pub income: u64,
    pub performance_history: u16,
    pub has_password: bool,
    pub num_vehicles: VehicleCounts,
    pub num_stations: VehicleCounts,
    pub is_ai: bool,
}

/// The mathematical content of a `CompanyInfo`.
pub struct CompanyInfoV {
    pub index: u8,
    pub name: Seq<u8>,
    pub inaugurated_year: u32,
    pub company_value: u64,
    pub money: u64,
    pub income: u64,
    pub performance_history: u16,
    pub has_password: bool,
    pub num_vehicles: VehicleCounts,
    pub num_stations: VehicleCounts,
    pub is_ai: bool,
}

impl View for CompanyInfo {
    type V = CompanyInfoV;

    open spec fn view(&self) -> CompanyInfoV {
        CompanyInfoV {
            index: self.index,
            name: self.name@,
            inaugurated_year: self.inaugurated_year,
            company_value: self.company_value,
            money: self.money,
            income: self.income,
            performance_history: self.performance_history,
            has_password: self.has_password,
            num_vehicles: self.num_vehicles,
            num_stations: self.num_stations,
            is_ai: self.is_ai,
        }
    }
}

impl ByteWriter for CompanyInfo {
    open spec fn wf(&self) -> bool {
        self.name.zwf()
    }

    open spec fn encodable(&self) -> bool {
        true
    }

    /// Index, name, financials, then the two counter blocks (vehicles
    /// first, stations second) and the AI flag.
    open spec fn spec_encode(&self) -> Seq<u8> {
        seq![self.index] + zstring_encode(self.name@) + le32(self.inaugurated_year) + le64(
            self.company_value,
        ) + le64(self.money) + le64(self.income) + le16(self.performance_history) + seq![
            bool_byte(self.has_password),
        ] + self.num_vehicles.spec_encode() + self.num_stations.spec_encode() + seq![
            bool_byte(self.is_ai),
        ]
    }

    #[verifier::rlimit(100)]
    fn write_pkt(&self, out: &mut Vec<u8>) -> (r: Result<(), EncodeError>) {
        out.push(self.index);
        out.extend_from_slice(self.name.bytes.as_slice());
        out.push(0);
        write_le(out, self.inaugurated_year as u64, 4);
        write_le(out, self.company_value, 8);
        write_le(out, self.money, 8);
        write_le(out, self.income, 8);
        write_le(out, self.performance_history as u64, 2);
        out.push(if self.has_password {
            1
        } else {
            0
        });
        let ghost mid = out@;
        proof {
            assert(mid =~= old(out)@ + (seq![self.index] + zstring_encode(self.name@) + le32(
                self.inaugurated_year,
            ) + le64(self.company_value) + le64(self.money) + le64(self.income) + le16(
                self.performance_history,
            ) + seq![bool_byte(self.has_password)]));
        }
        match self.num_vehicles.write_pkt(out) {
            Ok(()) => {},
            Err(e) => {
                proof {
                    assert(false);
                }
                return Err(e);
            },
        }
        match self.num_stations.write_pkt(out) {
            Ok(()) => {},
            Err(e) => {
                proof {
                    assert(false);
                }
                return Err(e);
            },
        }
        out.push(if self.is_ai {
            1
        } else {
            0
        });
        proof {
            assert(out@ =~= old(out)@ + self.spec_encode());
        }
        Ok(())
    }
}

impl PacketPayload for CompanyInfo {
    open spec fn spec_decode(s: Seq<u8>) -> Option<(CompanyInfoV, Seq<u8>)> {
        match spec_read_u8(s) {
            None => None,
            Some((index, s1)) => match spec_read_zstring(s1) {
                None => None,
                Some((name, s2)) => match spec_read_u32(s2) {
                    None => None,
                    Some((inaugurated_year, s3)) => match spec_read_u64(s3) {
                        None => None,
                        Some((company_value, s4)) => match spec_read_u64(s4) {
                            None => None,
                            Some((money, s5)) => match spec_read_u64(s5) {
                                None => None,
                                Some((income, s6)) => match spec_read_u16(s6) {
                                    None => None,
                                    Some((performance_history, s7)) => match spec_read_bool(s7) {
                                        None => None,
                                        Some((has_password, s8)) => match
                                            VehicleCounts::spec_decode(s8) {
                                            None => None,
                                            Some((num_vehicles, s9)) => match
                                                VehicleCounts::spec_decode(s9) {
                                                None => None,
                                                Some((num_stations, s10)) => match spec_read_bool(
                                                    s10,
                                                ) {
                                                    None => None,
                                                    Some((is_ai, s11)) => Some(
                                                        (
                                                            CompanyInfoV {
                                                                index,
                                                                name,
                                                                inaugurated_year,
                                                                company_value,
                                                                money,
                                                                income,
                                                                performance_history,
                                                                has_password,
                                                                num_vehicles,
                                                                num_stations,
                                                                is_ai,
                                                            },
                                                            s11,
                                                        ),
                                                    ),
                                                },
                                            },
                                        },
                                    },
                                },
                            },
                        },
                    },
                },
            },
        }
    }

    fn read_from(input: &[u8], pos: usize) -> (r: Result<(Self, usize), DecodeError>) {
        let (index, p1) = read_u8_at(input, pos)?;
        let (name, p2) = read_cstring(input, p1)?;
        let (inaugurated_year, p3) = read_u32_at(input, p2)?;
        let (company_value, p4) = read_u64_at(input, p3)?;
        let (money, p5) = read_u64_at(input, p4)?;
        let (income, p6) = read_u64_at(input, p5)?;
        let (performance_history, p7) = read_u16_at(input, p6)?;
        let (has_password, p8) = read_bool_at(input, p7)?;
        let (num_vehicles, p9) = VehicleCounts::read_from(input, p8)?;
        let (num_stations, p10) = VehicleCounts::read_from(input, p9)?;
        let (is_ai, p11) = read_bool_at(input, p10)?;
        Ok((
            CompanyInfo {
                index,
                name,
                inaugurated_year,
                company_value,
                money,
                income,
                performance_history,
                has_password,
                num_vehicles,
                num_stations,
                is_ai,
            },
            p11,
        ))
    }

    #[verifier::rlimit(100)]
    proof fn lemma_round_trip(v: Self, rest: Seq<u8>) {
        let t10 = seq![bool_byte(v.is_ai)] + rest;
        let t9 = v.num_stations.spec_encode() + t10;
        let t8 = v.num_vehicles.spec_encode() + t9;
        let t7 = seq![bool_byte(v.has_password)] + t8;
        let t6 = le16(v.performance_history) + t7;
        let t5 = le64(v.income) + t6;
        let t4 = le64(v.money) + t5;
        let t3 = le64(v.company_value) + t4;
        let t2 = le32(v.inaugurated_year) + t3;
        let t1 = zstring_encode(v.name@) + t2;
        let t0 = seq![v.index] + t1;
        let p1 = seq![v.index];
        let p2 = p1 + zstring_encode(v.name@);
        let p3 = p2 + le32(v.inaugurated_year);
        let p4 = p3 + le64(v.company_value);
        let p5 = p4 + le64(v.money);
        let p6 = p5 + le64(v.income);
        let p7 = p6 + le16(v.performance_history);
        let p8 = p7 + seq![bool_byte(v.has_password)];
        let p9 = p8 + v.num_vehicles.spec_encode();
        let p10 = p9 + v.num_stations.spec_encode();
        let p11 = p10 + seq![bool_byte(v.is_ai)];
        assert(v.spec_encode() == p11);
        assert(p11 + rest =~= p10 + t10);
        assert(p10 + t10 =~= p9 + t9);
        assert(p9 + t9 =~= p8 + t8);
        assert(p8 + t8 =~= p7 + t7);
        assert(p7 + t7 =~= p6 + t6);
        assert(p6 + t6 =~= p5 + t5);
        assert(p5 + t5 =~= p4 + t4);
        assert(p4 + t4 =~= p3 + t3);
        assert(p3 + t3 =~= p2 + t2);
        assert(p2 + t2 =~= p1 + t1);
        assert(p1 + t1 =~= t0);
        assert(v.spec_encode() + rest == t0);
        lemma_rt_u8(v.index, t1);
        lemma_rt_zstring(v.name@, t2);
        lemma_rt_u32(v.inaugurated_year, t3);
        lemma_rt_u64(v.company_value, t4);
        lemma_rt_u64(v.money, t5);
        lemma_rt_u64(v.income, t6);
        lemma_rt_u16(v.performance_history, t7);
        lemma_rt_bool(v.has_password, t8);
        VehicleCounts::lemma_round_trip(v.num_vehicles, t9);
        VehicleCounts::lemma_round_trip(v.num_stations, t10);
        lemma_rt_bool(v.is_ai, rest);
    }
}

/// Truncation at the end: a company record with its last byte removed
/// fails to decode.
pub proof fn lemma_truncated_company_last(v: CompanyInfo)
    requires
        v.wf(),
        v.encodable(),
    ensures
        v.spec_encode().len() > 0,
        CompanyInfo::spec_decode(v.spec_encode().take(v.spec_encode().len() - 1)) is None,
{
    crate::util::lemma_le_bytes_len(v.inaugurated_year as int, 4);
    crate::util::lemma_le_bytes_len(v.company_value as int, 8);
    crate::util::lemma_le_bytes_len(v.money as int, 8);
    crate::util::lemma_le_bytes_len(v.income as int, 8);
    crate::util::lemma_le_bytes_len(v.performance_history as int, 2);
    crate::util::lemma_le_bytes_len(v.num_vehicles.train as int, 2);
    crate::util::lemma_le_bytes_len(v.num_vehicles.lorry as int, 2);
    crate::util::lemma_le_bytes_len(v.num_vehicles.bus as int, 2);
    crate::util::lemma_le_bytes_len(v.num_vehicles.plane as int, 2);
    crate::util::lemma_le_bytes_len(v.num_vehicles.ship as int, 2);
    crate::util::lemma_le_bytes_len(v.num_stations.train as int, 2);
    crate::util::lemma_le_bytes_len(v.num_stations.lorry as int, 2);
    crate::util::lemma_le_bytes_len(v.num_stations.bus as int, 2);
    crate::util::lemma_le_bytes_len(v.num_stations.plane as int, 2);
    crate::util::lemma_le_bytes_len(v.num_stations.ship as int, 2);
    // everything after the name is fixed-width: 51 of its 52 bytes remain
    let fixed = le32(v.inaugurated_year) + le64(v.company_value) + le64(v.money) + le64(v.income)
        + le16(v.performance_history) + seq![bool_byte(v.has_password)]
        + v.num_vehicles.spec_encode() + v.num_stations.spec_encode() + seq![
        bool_byte(v.is_ai),
    ];
    assert(fixed.len() == 52);
    let k = v.spec_encode().len() - 1;
    let cut = fixed.take(51);
    assert(v.spec_encode().take(k) =~= seq![v.index] + (zstring_encode(v.name@) + cut));
    let t1 = zstring_encode(v.name@) + cut;
    lemma_rt_u8(v.index, t1);
    lemma_rt_zstring(v.name@, cut);
    assert(cut.len() == 51);
    assert(cut.skip(4).len() == 47);
    assert(cut.skip(4).skip(8).len() == 39);
    assert(cut.skip(4).skip(8).skip(8).len() == 31);
    assert(cut.skip(4).skip(8).skip(8).skip(8).len() == 23);
    assert(cut.skip(4).skip(8).skip(8).skip(8).skip(2).len() == 21);
    assert(cut.skip(4).skip(8).skip(8).skip(8).skip(2).skip(1).len() == 20);
}

/// Parses one company record at `pos`.
pub fn parse_company_info(input: &[u8], pos: usize) -> (r: Result<(CompanyInfo, usize), DecodeError>)
    requires
        pos <= input@.len(),
    ensures
        match CompanyInfo::spec_decode(input@.skip(pos as int)) {
            Some(p) => {
                &&& r matches Ok(q)
                &&& q.0@ == p.0
                &&& q.0.wf()
                &&& pos <= q.1 <= input@.len()
                &&& input@.skip(q.1 as int) == p.1
            },
            None => r is Err,
        },
{
    CompanyInfo::read_from(input, pos)
}

/// The detail listing: a version byte and a one-byte-counted run of
/// company records, in wire order.
#[derive(Clone, Debug, PartialEq, Eq)]
pub struct ServerDetailInfo {
    pub company_info_version: u8,
    pub companies: Vec<CompanyInfo>,
}

/// The mathematical content of a `ServerDetailInfo`.
pub struct ServerDetailInfoV {
    pub company_info_version: u8,
    pub companies: Seq<CompanyInfoV>,
}

impl View for ServerDetailInfo {
    type V = ServerDetailInfoV;

    open spec fn view(&self) -> ServerDetailInfoV {
        ServerDetailInfoV {
            company_info_version: self.company_info_version,
            companies: views(self.companies@),
        }
    }
}

impl ByteWriter for ServerDetailInfo {
    open spec fn wf(&self) -> bool {
        all_wf(self.companies@)
    }

    open spec fn encodable(&self) -> bool {
        self.companies@.len() <= 255
    }

    open spec fn spec_encode(&self) -> Seq<u8> {
        seq![self.company_info_version] + seq![(self.companies@.len() as u8)] + spec_encode_seq(
            self.companies@,
        )
    }

    fn write_pkt(&self, out: &mut Vec<u8>) -> (r: Result<(), EncodeError>) {
        if self.companies.len() > 255 {
            return Err(EncodeError::Overflow);
        }
        out.push(self.company_info_version);
        out.push(self.companies.len() as u8);
        proof {
            assert(all_encodable(self.companies@));
        }
        match write_entries(out, &self.companies) {
            Ok(()) => {
                proof {
                    assert(out@ =~= old(out)@ + self.spec_encode());
                }
                Ok(())
            },
            Err(e) => {
                proof {
                    assert(false);
                }
                Err(e)
            },
        }
    }
}

impl PacketPayload for ServerDetailInfo {
    open spec fn spec_decode(s: Seq<u8>) -> Option<(ServerDetailInfoV, Seq<u8>)> {
        match spec_read_u8(s) {
            None => None,
            Some((company_info_version, s1)) => match spec_read_u8(s1) {
                None => None,
                Some((n, s2)) => match spec_read_entries::<CompanyInfo>(s2, n as nat) {
                    None => None,
                    Some((companies, s3)) => Some(
                        (ServerDetailInfoV { company_info_version, companies }, s3),
                    ),
                },
            },
        }
    }

    fn read_from(input: &[u8], pos: usize) -> (r: Result<(Self, usize), DecodeError>) {
        let (company_info_version, p1) = read_u8_at(input, pos)?;
        let (n, p2) = read_u8_at(input, p1)?;
        let (companies, p3) = read_entries::<CompanyInfo>(input, p2, n as usize)?;
        Ok((ServerDetailInfo { company_info_version, companies }, p3))
    }

    proof fn lemma_round_trip(v: Self, rest: Seq<u8>) {
        let t1 = seq![(v.companies@.len() as u8)] + (spec_encode_seq(v.companies@) + rest);
        assert(v.spec_encode() + rest =~= seq![v.company_info_version] + t1);
        lemma_rt_u8(v.company_info_version, t1);
        lemma_rt_u8(v.companies@.len() as u8, spec_encode_seq(v.companies@) + rest);
        assert(all_encodable(v.companies@));
        lemma_rt_entries(v.companies@, rest);
    }
}

/// Truncation at the end: a detail listing with its last byte removed
/// fails to decode rather than yielding a partial listing.
pub proof fn lemma_truncated_detail_info_last(v: ServerDetailInfo)
    requires
        v.wf(),
        v.encodable(),
    ensures
        v.spec_encode().len() > 0,
        ServerDetailInfo::spec_decode(v.spec_encode().take(v.spec_encode().len() - 1)) is None,
{
    let body = spec_encode_seq(v.companies@);
    let k = v.spec_encode().len() - 1;
    if v.companies@.len() == 0 {
        assert(body =~= Seq::<u8>::empty());
        assert(v.spec_encode().take(k) =~= seq![v.company_info_version]);
    } else {
        let last = v.companies@.last();
        assert(last.wf() && last.encodable());
        lemma_truncated_company_last(last);
        crate::ordered::lemma_encode_seq_last_len(v.companies@);
        let cut = body.take(body.len() - 1);
        assert(v.spec_encode().take(k) =~= seq![v.company_info_version] + (seq![(
        v.companies@.len() as u8)] + cut));
        lemma_rt_u8(v.company_info_version, seq![(v.companies@.len() as u8)] + cut);
        lemma_rt_u8(v.companies@.len() as u8, cut);
        crate::ordered::lemma_truncated_entries_last::<CompanyInfo>(v.companies@);
    }
}

} // verus!
