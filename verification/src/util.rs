//! Primitive codec layer: little-endian integers, boolean flags and
//! null-terminated byte strings, together with the traits every wire
//! component implements.

use vstd::prelude::*;
use vstd::arithmetic::div_mod::lemma_fundamental_div_mod;
use crate::DecodeError;
use crate::EncodeError;

verus! {

// ===== powers of 256 =====

/// `256^n`, the number of values an `n`-byte field can carry.
pub open spec fn pow256(n: nat) -> int
    decreases n,
{
    if n == 0 {
        1
    } else {
        256 * pow256((n - 1) as nat)
    }
}

pub proof fn lemma_pow256_pos(n: nat)
    ensures
        pow256(n) >= 1,
    decreases n,
{
    if n > 0 {
        lemma_pow256_pos((n - 1) as nat);
    }
}

// ===== little-endian integers =====

/// The `n` little-endian bytes of `x` (least significant byte first).
pub open spec fn le_bytes(x: int, n: nat) -> Seq<u8>
    decreases n,
{
    if n == 0 {
        Seq::empty()
    } else {
        seq![(x % 256) as u8] + le_bytes(x / 256, (n - 1) as nat)
    }
}

/// The value of the first `n` bytes of `s`, read as a little-endian integer.
pub open spec fn le_val(s: Seq<u8>, n: nat) -> int
    decreases n,
{
    if n == 0 {
        0
    } else {
        s[0] + 256 * le_val(s.skip(1), (n - 1) as nat)
    }
}

pub proof fn lemma_le_bytes_len(x: int, n: nat)
    ensures
        le_bytes(x, n).len() == n,
    decreases n,
{
    if n > 0 {
        lemma_le_bytes_len(x / 256, (n - 1) as nat);
    }
}

pub proof fn lemma_le_val_bound(s: Seq<u8>, n: nat)
    ensures
        0 <= le_val(s, n) < pow256(n),
    decreases n,
{
    if n > 0 {
        lemma_le_val_bound(s.skip(1), (n - 1) as nat);
        assert(0 <= s[0] < 256);
        assert(le_val(s, n) < pow256(n)) by (nonlinear_arith)
            requires
                le_val(s, n) == s[0] + 256 * le_val(s.skip(1), (n - 1) as nat),
                0 <= s[0] < 256,
                0 <= le_val(s.skip(1), (n - 1) as nat) < pow256((n - 1) as nat),
                pow256(n) == 256 * pow256((n - 1) as nat),
        ;
    }
}

/// Reading back the little-endian bytes of `x` yields `x` and leaves
/// exactly the trailing bytes.
pub proof fn lemma_le_round_trip(x: int, n: nat, rest: Seq<u8>)
    requires
        0 <= x < pow256(n),
    ensures
        le_bytes(x, n).len() == n,
        le_val(le_bytes(x, n) + rest, n) == x,
        (le_bytes(x, n) + rest).skip(n as int) == rest,
    decreases n,
{
    lemma_le_bytes_len(x, n);
    if n == 0 {
        assert(le_bytes(x, n) + rest =~= rest);
    } else {
        let x1 = x / 256;
        let tail = le_bytes(x1, (n - 1) as nat);
        lemma_pow256_pos((n - 1) as nat);
        assert(0 <= x1 && x1 < pow256((n - 1) as nat)) by (nonlinear_arith)
            requires
                0 <= x,
                x < 256 * pow256((n - 1) as nat),
                pow256((n - 1) as nat) >= 1,
                x1 == x / 256,
        ;
        lemma_le_round_trip(x1, (n - 1) as nat, rest);
        let s = le_bytes(x, n) + rest;
        assert(s[0] == (x % 256) as u8);
        assert(s.skip(1) =~= tail + rest);
        lemma_fundamental_div_mod(x, 256);
        assert(le_val(s, n) == x % 256 + 256 * x1);
        assert((tail + rest).skip((n - 1) as int) == rest);
        assert(s.skip(n as int) =~= (tail + rest).skip((n - 1) as int));
    }
}

// ===== typed little-endian views =====

pub open spec fn le16(x: u16) -> Seq<u8> {
    le_bytes(x as int, 2)
}

pub open spec fn le32(x: u32) -> Seq<u8> {
    le_bytes(x as int, 4)
}

pub open spec fn le64(x: u64) -> Seq<u8> {
    le_bytes(x as int, 8)
}

pub open spec fn spec_read_u8(s: Seq<u8>) -> Option<(u8, Seq<u8>)> {
    if s.len() >= 1 {
        Some((s[0], s.skip(1)))
    } else {
        None
    }
}

pub open spec fn spec_read_u16(s: Seq<u8>) -> Option<(u16, Seq<u8>)> {
    if s.len() >= 2 {
        Some((le_val(s, 2) as u16, s.skip(2)))
    } else {
        None
    }
}

pub open spec fn spec_read_u32(s: Seq<u8>) -> Option<(u32, Seq<u8>)> {
    if s.len() >= 4 {
        Some((le_val(s, 4) as u32, s.skip(4)))
    } else {
        None
    }
}

pub open spec fn spec_read_u64(s: Seq<u8>) -> Option<(u64, Seq<u8>)> {
    if s.len() >= 8 {
        Some((le_val(s, 8) as u64, s.skip(8)))
    } else {
        None
    }
}

pub proof fn lemma_rt_u8(x: u8, rest: Seq<u8>)
    ensures
        spec_read_u8(seq![x] + rest) == Some((x, rest)),
{
    let s = seq![x] + rest;
    assert(s[0] == x);
    assert(s.skip(1) =~= rest);
}

pub proof fn lemma_rt_u16(x: u16, rest: Seq<u8>)
    ensures
        spec_read_u16(le16(x) + rest) == Some((x, rest)),
{
    lemma_pow256_bounds();
    lemma_le_round_trip(x as int, 2, rest);
}

pub proof fn lemma_rt_u32(x: u32, rest: Seq<u8>)
    ensures
        spec_read_u32(le32(x) + rest) == Some((x, rest)),
{
    lemma_pow256_bounds();
    lemma_le_round_trip(x as int, 4, rest);
}

pub proof fn lemma_rt_u64(x: u64, rest: Seq<u8>)
    ensures
        spec_read_u64(le64(x) + rest) == Some((x, rest)),
{
    lemma_pow256_bounds();
    lemma_le_round_trip(x as int, 8, rest);
}

// ===== executable little-endian codec =====

/// Appends the `width` little-endian bytes of `x` to `out`.
pub fn write_le(out: &mut Vec<u8>, x: u64, width: usize)
    ensures
        final(out)@ == old(out)@ + le_bytes(x as int, width as nat),
{
    let mut v: u64 = x;
    let mut j: usize = 0;
    proof {
        assert(out@ + le_bytes(v as int, width as nat) =~= old(out)@ + le_bytes(x as int, width as nat));
    }
    while j < width
        invariant
            j <= width,
            out@ + le_bytes(v as int, (width - j) as nat) == old(out)@ + le_bytes(x as int, width as nat),
        decreases width - j,
    {
        let b: u8 = (v % 256) as u8;
        let ghost pre = out@;
        let ghost vi = v as int;
        out.push(b);
        proof {
            assert(le_bytes(vi, (width - j) as nat) == seq![(vi % 256) as u8] + le_bytes(vi / 256, (width - j - 1) as nat));
            assert(out@ + le_bytes(vi / 256, (width - j - 1) as nat) =~= pre + le_bytes(vi, (width - j) as nat));
        }
        v = v / 256;
        j = j + 1;
    }
    proof {
        assert(out@ + le_bytes(v as int, 0) =~= out@);
    }
}

/// Reads `width` little-endian bytes at `pos`; fails if the buffer is too short.
pub fn read_le(input: &[u8], pos: usize, width: usize) -> (r: Result<(u64, usize), DecodeError>)
    requires
        pos <= input@.len(),
        1 <= width <= 8,
    ensures
        input@.len() - pos >= width ==> (r matches Ok(q) && q.0 as int == le_val(
            input@.skip(pos as int),
            width as nat,
        ) && q.1 == pos + width),
        input@.len() - pos < width ==> r == Err::<(u64, usize), DecodeError>(
            DecodeError::UnexpectedEnd,
        ),
{
    let n = input.len();
    if n - pos < width {
        return Err(DecodeError::UnexpectedEnd);
    }
    let ghost s = input@.skip(pos as int);
    let mut acc: u64 = 0;
    let mut j: usize = width;
    proof {
        lemma_pow256_bounds();
        assert(s.skip(width as int).len() == s.len() - width);
        assert(le_val(s.skip(j as int), (width - j) as nat) == 0);
    }
    while j > 0
        invariant
            j <= width <= 8,
            n == input@.len(),
            pos + width <= n,
            s == input@.skip(pos as int),
            acc as int == le_val(s.skip(j as int), (width - j) as nat),
            (acc as int) < pow256((width - j) as nat),
        decreases j,
    {
        let b: u8 = input[pos + j - 1];
        proof {
            lemma_pow256_bounds();
            lemma_pow256_mono((width - j) as nat, 7);
            assert(s.skip(j as int - 1)[0] == input@[pos + j - 1]);
            assert(s.skip(j as int - 1).skip(1) =~= s.skip(j as int));
            assert(le_val(s.skip(j as int - 1), (width - j + 1) as nat) == b + 256 * le_val(
                s.skip(j as int),
                (width - j) as nat,
            ));
        }
        acc = acc * 256 + (b as u64);
        j = j - 1;
    }
    proof {
        assert(s.skip(0) =~= s);
    }
    Ok((acc, pos + width))
}

/// `256^n` stays within `u64` range for every byte width up to 8.
proof fn lemma_pow256_bounds()
    ensures
        pow256(0) == 1,
        pow256(1) == 0x100,
        pow256(2) == 0x1_0000,
        pow256(3) == 0x100_0000,
        pow256(4) == 0x1_0000_0000,
        pow256(5) == 0x100_0000_0000,
        pow256(6) == 0x1_0000_0000_0000,
        pow256(7) == 0x100_0000_0000_0000,
        pow256(8) == 0x1_0000_0000_0000_0000,
{
    reveal_with_fuel(pow256, 9);
}

proof fn lemma_pow256_mono(a: nat, b: nat)
    requires
        a <= b,
    ensures
        pow256(a) <= pow256(b),
    decreases b,
{
    if a < b {
        lemma_pow256_mono(a, (b - 1) as nat);
        lemma_pow256_pos((b - 1) as nat);
    }
}

/// Reads one byte at `pos`.
pub fn read_u8_at(input: &[u8], pos: usize) -> (r: Result<(u8, usize), DecodeError>)
    requires
        pos <= input@.len(),
    ensures
        match spec_read_u8(input@.skip(pos as int)) {
            Some(p) => {
                &&& r matches Ok(q)
                &&& q.0 == p.0
                &&& pos < q.1 <= input@.len()
                &&& input@.skip(q.1 as int) == p.1
            },
            None => r == Err::<(u8, usize), DecodeError>(DecodeError::UnexpectedEnd),
        },
{
    if input.len() - pos < 1 {
        return Err(DecodeError::UnexpectedEnd);
    }
    let b = input[pos];
    proof {
        assert(input@.skip(pos as int)[0] == input@[pos as int]);
        assert(input@.skip(pos as int).skip(1) =~= input@.skip(pos as int + 1));
    }
    Ok((b, pos + 1))
}

/// Reads a little-endian `u16` at `pos`.
pub fn read_u16_at(input: &[u8], pos: usize) -> (r: Result<(u16, usize), DecodeError>)
    requires
        pos <= input@.len(),
    ensures
        match spec_read_u16(input@.skip(pos as int)) {
            Some(p) => {
                &&& r matches Ok(q)
                &&& q.0 == p.0
                &&& pos < q.1 <= input@.len()
                &&& input@.skip(q.1 as int) == p.1
            },
            None => r == Err::<(u16, usize), DecodeError>(DecodeError::UnexpectedEnd),
        },
{
    proof {
        lemma_le_val_bound(input@.skip(pos as int), 2);
        lemma_pow256_bounds();
    }
    match read_le(input, pos, 2) {
        Ok((v, p2)) => {
            proof {
                assert(input@.skip(pos as int).skip(2) =~= input@.skip(pos as int + 2));
            }
            Ok((v as u16, p2))
        },
        Err(e) => Err(e),
    }
}

/// Reads a little-endian `u32` at `pos`.
pub fn read_u32_at(input: &[u8], pos: usize) -> (r: Result<(u32, usize), DecodeError>)
    requires
        pos <= input@.len(),
    ensures
        match spec_read_u32(input@.skip(pos as int)) {
            Some(p) => {
                &&& r matches Ok(q)
                &&& q.0 == p.0
                &&& pos < q.1 <= input@.len()
                &&& input@.skip(q.1 as int) == p.1
            },
            None => r == Err::<(u32, usize), DecodeError>(DecodeError::UnexpectedEnd),
        },
{
    proof {
        lemma_le_val_bound(input@.skip(pos as int), 4);
        lemma_pow256_bounds();
    }
    match read_le(input, pos, 4) {
        Ok((v, p2)) => {
            proof {
                assert(input@.skip(pos as int).skip(4) =~= input@.skip(pos as int + 4));
            }
            Ok((v as u32, p2))
        },
        Err(e) => Err(e),
    }
}

/// Reads a little-endian `u64` at `pos`.
pub fn read_u64_at(input: &[u8], pos: usize) -> (r: Result<(u64, usize), DecodeError>)
    requires
        pos <= input@.len(),
    ensures
        match spec_read_u64(input@.skip(pos as int)) {
            Some(p) => {
                &&& r matches Ok(q)
                &&& q.0 == p.0
                &&& pos < q.1 <= input@.len()
                &&& input@.skip(q.1 as int) == p.1
            },
            None => r == Err::<(u64, usize), DecodeError>(DecodeError::UnexpectedEnd),
        },
{
    proof {
        lemma_le_val_bound(input@.skip(pos as int), 8);
        lemma_pow256_bounds();
    }
    match read_le(input, pos, 8) {
        Ok((v, p2)) => {
            proof {
                assert(input@.skip(pos as int).skip(8) =~= input@.skip(pos as int + 8));
            }
            Ok((v, p2))
        },
        Err(e) => Err(e),
    }
}

/// Cutting a concatenation beyond its first part cuts only the second.
pub proof fn lemma_take_concat(a: Seq<u8>, b: Seq<u8>, k: int)
    requires
        a.len() <= k <= a.len() + b.len(),
    ensures
        (a + b).take(k) == a + b.take(k - a.len()),
{
    assert((a + b).take(k) =~= a + b.take(k - a.len()));
}

// ===== wire timestamps =====

/// A calendar value at UTC, carried opaquely from chrono. Verus cannot
/// name `chrono::DateTime` itself (its type parameter is bound by an
/// outside trait), so the value lives behind this field.
#[verifier::external_body]
pub struct UtcDateTime {
    inner: chrono::DateTime<chrono::Utc>,
}

/// The seconds since the Unix epoch that a calendar value stands for.
pub uninterp spec fn dt_secs(d: UtcDateTime) -> int;

/// Relies on chrono's `DateTime::from_timestamp`: every unsigned 32-bit
/// second count lies well inside the representable calendar range, so the
/// conversion yields the calendar value of exactly that epoch second.
#[verifier::external_body]
pub fn datetime_from_ts(ts: u32) -> (r: UtcDateTime)
    ensures
        dt_secs(r) == ts as int,
{
    UtcDateTime { inner: chrono::DateTime::from_timestamp(ts as i64, 0).unwrap() }
}

impl UtcDateTime {
    /// Relies on chrono's `DateTime::timestamp`: it returns the epoch
    /// second the value was built from (chrono documents the round trip
    /// with `from_timestamp`).
    #[verifier::external_body]
    pub fn timestamp(&self) -> (r: i64)
        ensures
            r as int == dt_secs(*self),
    {
        self.inner.timestamp()
    }

    /// Relies on chrono's `Display` for `DateTime`: a human-readable
    /// rendering of the calendar value.
    #[verifier::external_body]
    pub fn to_text(&self) -> String {
        format!("{}", self.inner)
    }
}

// ===== boolean flags =====

/// The single wire byte of a boolean: true is 1, false is 0.
pub open spec fn bool_byte(b: bool) -> u8 {
    if b {
        1
    } else {
        0
    }
}

/// Any nonzero flag byte decodes to true; zero decodes to false.
pub open spec fn spec_read_bool(s: Seq<u8>) -> Option<(bool, Seq<u8>)> {
    if s.len() >= 1 {
        Some((s[0] != 0, s.skip(1)))
    } else {
        None
    }
}

pub proof fn lemma_rt_bool(b: bool, rest: Seq<u8>)
    ensures
        spec_read_bool(seq![bool_byte(b)] + rest) == Some((b, rest)),
{
    let s = seq![bool_byte(b)] + rest;
    assert(s[0] == bool_byte(b));
    assert(s.skip(1) =~= rest);
}

/// Reads one flag byte at `pos`.
pub fn read_bool_at(input: &[u8], pos: usize) -> (r: Result<(bool, usize), DecodeError>)
    requires
        pos <= input@.len(),
    ensures
        match spec_read_bool(input@.skip(pos as int)) {
            Some(p) => {
                &&& r matches Ok(q)
                &&& q.0 == p.0
                &&& pos < q.1 <= input@.len()
                &&& input@.skip(q.1 as int) == p.1
            },
            None => r == Err::<(bool, usize), DecodeError>(DecodeError::UnexpectedEnd),
        },
{
    match read_u8_at(input, pos) {
        Ok((b, p2)) => Ok((b != 0, p2)),
        Err(e) => Err(e),
    }
}

// ===== raw byte runs =====

/// A fixed-width run of `n` raw bytes.
pub open spec fn spec_read_raw(s: Seq<u8>, n: nat) -> Option<(Seq<u8>, Seq<u8>)> {
    if s.len() >= n {
        Some((s.take(n as int), s.skip(n as int)))
    } else {
        None
    }
}

pub proof fn lemma_rt_raw(bytes: Seq<u8>, rest: Seq<u8>)
    ensures
        spec_read_raw(bytes + rest, bytes.len()) == Some((bytes, rest)),
{
    assert((bytes + rest).take(bytes.len() as int) =~= bytes);
    assert((bytes + rest).skip(bytes.len() as int) =~= rest);
}

/// Copies `n` raw bytes starting at `pos`.
pub fn read_raw_at(input: &[u8], pos: usize, n: usize) -> (r: Result<(Vec<u8>, usize), DecodeError>)
    requires
        pos <= input@.len(),
    ensures
        match spec_read_raw(input@.skip(pos as int), n as nat) {
            Some(p) => {
                &&& r matches Ok(q)
                &&& q.0@ == p.0
                &&& pos <= q.1 <= input@.len()
                &&& input@.skip(q.1 as int) == p.1
            },
            None => r == Err::<(Vec<u8>, usize), DecodeError>(DecodeError::UnexpectedEnd),
        },
{
    let len = input.len();
    if len - pos < n {
        return Err(DecodeError::UnexpectedEnd);
    }
    let mut out: Vec<u8> = Vec::new();
    let mut i: usize = 0;
    while i < n
        invariant
            i <= n,
            pos + n <= len,
            len == input@.len(),
            out@ =~= input@.subrange(pos as int, pos + i),
        decreases n - i,
    {
        out.push(input[pos + i]);
        proof {
            assert(out@ =~= input@.subrange(pos as int, pos + i + 1));
        }
        i = i + 1;
    }
    proof {
        assert(out@ =~= input@.skip(pos as int).take(n as int));
        assert(input@.skip(pos + n) =~= input@.skip(pos as int).skip(n as int));
    }
    Ok((out, pos + n))
}

// ===== null-terminated byte strings =====

/// A run of non-null bytes; on the wire it is followed by exactly one
/// null terminator.
#[derive(Clone, Debug, PartialEq, Eq)]
pub struct ZString {
    pub bytes: Vec<u8>,
}

impl View for ZString {
    type V = Seq<u8>;

    open spec fn view(&self) -> Seq<u8> {
        self.bytes@
    }
}

impl ZString {
    /// No interior null byte: the terminator on the wire is unambiguous.
    pub open spec fn zwf(&self) -> bool {
        forall|i: int| 0 <= i < self@.len() ==> self@[i] != 0
    }

    /// Builds a string value, rejecting byte runs with an interior null.
    pub fn new(bytes: Vec<u8>) -> (r: Option<ZString>)
        ensures
            (forall|i: int| 0 <= i < bytes@.len() ==> bytes@[i] != 0) ==> (r matches Some(z)
                && z@ == bytes@ && z.zwf()),
            (exists|i: int| 0 <= i < bytes@.len() && bytes@[i] == 0) ==> r is None,
    {
        let mut i: usize = 0;
        while i < bytes.len()
            invariant
                i <= bytes@.len(),
                forall|j: int| 0 <= j < i ==> bytes@[j] != 0,
            decreases bytes@.len() - i,
        {
            if bytes[i] == 0 {
                return None;
            }
            i = i + 1;
        }
        Some(ZString { bytes })
    }

    /// The empty string.
    pub fn empty() -> (r: ZString)
        ensures
            r@ == Seq::<u8>::empty(),
            r.zwf(),
    {
        ZString { bytes: Vec::new() }
    }
}

/// The bytes of a string followed by its null terminator.
pub open spec fn zstring_encode(s: Seq<u8>) -> Seq<u8> {
    s + seq![0u8]
}

/// Consumes bytes up to and including the first null; fails if the buffer
/// runs out before a null is found.
pub open spec fn spec_read_zstring(s: Seq<u8>) -> Option<(Seq<u8>, Seq<u8>)>
    decreases s.len(),
{
    if s.len() == 0 {
        None
    } else if s[0] == 0 {
        Some((Seq::empty(), s.skip(1)))
    } else {
        match spec_read_zstring(s.skip(1)) {
            Some(p) => Some((seq![s[0]] + p.0, p.1)),
            None => None,
        }
    }
}

/// If the first null of `s` stands at index `i`, the string is everything
/// before it and the remainder everything after it.
pub proof fn lemma_zstring_found(s: Seq<u8>, i: int)
    requires
        0 <= i < s.len(),
        s[i] == 0,
        forall|j: int| 0 <= j < i ==> s[j] != 0,
    ensures
        spec_read_zstring(s) == Some((s.take(i), s.skip(i + 1))),
    decreases i,
{
    if i == 0 {
        assert(s.take(0) =~= Seq::<u8>::empty());
    } else {
        let t = s.skip(1);
        assert(forall|j: int| 0 <= j < i - 1 ==> t[j] != 0);
        lemma_zstring_found(t, i - 1);
        assert(seq![s[0]] + t.take(i - 1) =~= s.take(i));
        assert(t.skip(i) =~= s.skip(i + 1));
    }
}

/// A buffer with no null at all has no string in it.
pub proof fn lemma_zstring_none(s: Seq<u8>)
    requires
        forall|j: int| 0 <= j < s.len() ==> s[j] != 0,
    ensures
        spec_read_zstring(s) is None,
    decreases s.len(),
{
    if s.len() > 0 {
        lemma_zstring_none(s.skip(1));
    }
}

/// Round trip: a null-free byte run, its terminator, then `rest` decodes
/// back to exactly that run with `rest` left over.
pub proof fn lemma_rt_zstring(bytes: Seq<u8>, rest: Seq<u8>)
    requires
        forall|i: int| 0 <= i < bytes.len() ==> bytes[i] != 0,
    ensures
        spec_read_zstring(zstring_encode(bytes) + rest) == Some((bytes, rest)),
{
    let s = zstring_encode(bytes) + rest;
    let i = bytes.len() as int;
    assert(s[i] == 0);
    assert(forall|j: int| 0 <= j < i ==> s[j] == bytes[j] && s[j] != 0);
    lemma_zstring_found(s, i);
    assert(s.take(i) =~= bytes);
    assert(s.skip(i + 1) =~= rest);
}

/// Reads a null-terminated string at `pos`.
pub fn read_cstring(input: &[u8], pos: usize) -> (r: Result<(ZString, usize), DecodeError>)
    requires
        pos <= input@.len(),
    ensures
        match spec_read_zstring(input@.skip(pos as int)) {
            Some(p) => {
                &&& r matches Ok(q)
                &&& q.0@ == p.0
                &&& q.0.zwf()
                &&& pos < q.1 <= input@.len()
                &&& input@.skip(q.1 as int) == p.1
            },
            None => r == Err::<(ZString, usize), DecodeError>(DecodeError::UnexpectedEnd),
        },
{
    let len = input.len();
    let mut i: usize = pos;
    let mut bytes: Vec<u8> = Vec::new();
    loop
        invariant
            pos <= i <= len,
            len == input@.len(),
            bytes@ =~= input@.subrange(pos as int, i as int),
            forall|j: int| pos <= j < i ==> input@[j] != 0,
        decreases len - i,
    {
        if i == len {
            proof {
                let s = input@.skip(pos as int);
                assert(forall|j: int| 0 <= j < s.len() ==> s[j] == input@[pos + j] && s[j] != 0);
                lemma_zstring_none(s);
            }
            return Err(DecodeError::UnexpectedEnd);
        }
        let b = input[i];
        if b == 0 {
            proof {
                let s = input@.skip(pos as int);
                let k = i - pos;
                assert(s[k] == input@[i as int]);
                assert(forall|j: int| 0 <= j < k ==> s[j] == input@[pos + j] && s[j] != 0);
                lemma_zstring_found(s, k);
                assert(s.take(k) =~= input@.subrange(pos as int, i as int));
                assert(s.skip(k + 1) =~= input@.skip(i + 1));
            }
            return Ok((ZString { bytes }, i + 1));
        }
        bytes.push(b);
        proof {
            assert(bytes@ =~= input@.subrange(pos as int, i + 1));
        }
        i = i + 1;
    }
}

// ===== the codec traits =====

/// A value with an exact wire image.
///
/// `spec_encode` is the mathematical wire image; `write_pkt` appends exactly
/// that image, or reports an overflow and leaves the buffer untouched.
pub trait ByteWriter: Sized {
    /// Domain constraints the caller must respect (no interior nulls,
    /// collections held in ascending key order).
    spec fn wf(&self) -> bool;

    /// Every count field fits its declared width; encoding succeeds
    /// exactly on these values.
    spec fn encodable(&self) -> bool;

    /// The wire bytes of this value.
    spec fn spec_encode(&self) -> Seq<u8>;

    /// Encode self and append the bytes to `out`.
    fn write_pkt(&self, out: &mut Vec<u8>) -> (r: Result<(), EncodeError>)
        requires
            self.wf(),
        ensures
            r is Ok <==> self.encodable(),
            r is Ok ==> final(out)@ == old(out)@ + self.spec_encode(),
            r is Err ==> final(out)@ == old(out)@,
    ;
}

/// A bare 32-bit id is itself a wire element (the lookup-reference shape
/// of an add-on set holds a plain run of ids).
impl ByteWriter for u32 {
    open spec fn wf(&self) -> bool {
        true
    }

    open spec fn encodable(&self) -> bool {
        true
    }

    open spec fn spec_encode(&self) -> Seq<u8> {
        le32(*self)
    }

    fn write_pkt(&self, out: &mut Vec<u8>) -> (r: Result<(), EncodeError>) {
        write_le(out, *self as u64, 4);
        Ok(())
    }
}

/// A value that can also be decoded from the wire.
///
/// `spec_decode` is the mathematical parser: it either yields the decoded
/// value's mathematical view and the unconsumed remainder, or nothing when
/// the bytes are malformed. Every implementation proves the round-trip law
/// `spec_decode(spec_encode(v) + rest) == Some((v@, rest))`.
pub trait PacketPayload: ByteWriter + View {
    /// The mathematical parser for this payload.
    spec fn spec_decode(s: Seq<u8>) -> Option<(Self::V, Seq<u8>)>;

    /// Decode self from `input` starting at `pos`; on success the returned
    /// position marks the first unconsumed byte.
    fn read_from(input: &[u8], pos: usize) -> (r: Result<(Self, usize), DecodeError>)
        requires
            pos <= input@.len(),
        ensures
            match Self::spec_decode(input@.skip(pos as int)) {
                Some(p) => {
                    &&& r matches Ok(q)
                    &&& q.0@ == p.0
                    &&& q.0.wf()
                    &&& pos <= q.1 <= input@.len()
                    &&& input@.skip(q.1 as int) == p.1
                },
                None => r is Err,
            },
    ;

    /// Decode self from the start of `input`; on success the returned
    /// count is the number of bytes consumed.
    fn from_bytes(input: &[u8]) -> (r: Result<(Self, usize), DecodeError>)
        ensures
            match Self::spec_decode(input@) {
                Some(p) => {
                    &&& r matches Ok(q)
                    &&& q.0@ == p.0
                    &&& q.0.wf()
                    &&& q.1 <= input@.len()
                    &&& input@.skip(q.1 as int) == p.1
                },
                None => r is Err,
            },
    {
        proof {
            assert(input@.skip(0) =~= input@);
        }
        Self::read_from(input, 0)
    }

    /// Round trip: decoding an encoded value yields the value back and
    /// leaves exactly the trailing bytes.
    proof fn lemma_round_trip(v: Self, rest: Seq<u8>)
        requires
            v.wf(),
            v.encodable(),
        ensures
            Self::spec_decode(v.spec_encode() + rest) == Some((v@, rest)),
    ;
}

impl PacketPayload for u32 {
    open spec fn spec_decode(s: Seq<u8>) -> Option<(u32, Seq<u8>)> {
        spec_read_u32(s)
    }

    fn read_from(input: &[u8], pos: usize) -> (r: Result<(Self, usize), DecodeError>) {
        read_u32_at(input, pos)
    }

    proof fn lemma_round_trip(v: Self, rest: Seq<u8>) {
        lemma_rt_u32(v, rest);
    }
}

} // verus!
