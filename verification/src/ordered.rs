//! Ordered-collection codec: wire sets and maps are held as vectors in
//! strictly ascending key order, so that encoding is byte-for-byte
//! deterministic for a given logical collection. Decoding inserts entries
//! in wire order; a later entry with an already-seen key replaces the
//! earlier one, as map insertion does.

use vstd::prelude::*;
use crate::DecodeError;
use crate::EncodeError;
use crate::util::ByteWriter;
use crate::util::PacketPayload;

verus! {

/// An entry of an ordered wire collection, ranked by an integer key.
/// Both the executable entry types and their mathematical views carry it.
pub trait Keyed: Sized {
    /// The ordering key.
    spec fn key(&self) -> int;
}

/// Executable key comparison for an ordered entry. The entry's view must
/// rank identically (`lemma_view_key`), so sortedness carries between the
/// executable collection and its mathematical content.
pub trait KeyCompare: Keyed + View where Self::V: Keyed {
    /// Executable strict comparison of keys.
    fn key_lt(&self, other: &Self) -> (r: bool)
        ensures
            r <==> self.key() < other.key(),
    ;

    /// Executable equality of keys.
    fn key_eq(&self, other: &Self) -> (r: bool)
        ensures
            r <==> self.key() == other.key(),
    ;

    /// The view ranks exactly as the value does.
    proof fn lemma_view_key(&self)
        ensures
            self@.key() == self.key(),
    ;
}

/// The views of the entries of a sequence, kept in order.
pub open spec fn views<E: View>(s: Seq<E>) -> Seq<E::V> {
    s.map_values(|e: E| e@)
}

/// A bare 32-bit id orders by its value.
impl Keyed for u32 {
    open spec fn key(&self) -> int {
        *self as int
    }
}

impl KeyCompare for u32 {
    fn key_lt(&self, other: &Self) -> bool {
        *self < *other
    }

    fn key_eq(&self, other: &Self) -> bool {
        *self == *other
    }

    proof fn lemma_view_key(&self) {
    }
}

/// Strictly ascending by key: free of duplicates, in canonical wire order.
pub open spec fn sorted<E: Keyed>(s: Seq<E>) -> bool {
    forall|i: int, j: int|
        0 <= i < j < s.len() ==> #[trigger] s[i].key() < #[trigger] s[j].key()
}

/// Insertion into an ordered sequence; an entry with an equal key is
/// replaced by the new one.
pub open spec fn spec_insert<E: Keyed>(s: Seq<E>, e: E) -> Seq<E>
    decreases s.len(),
{
    if s.len() == 0 {
        seq![e]
    } else if e.key() < s[0].key() {
        seq![e] + s
    } else if e.key() == s[0].key() {
        seq![e] + s.skip(1)
    } else {
        seq![s[0]] + spec_insert(s.skip(1), e)
    }
}

/// The logical content of an ordered sequence: a map from key to entry.
pub open spec fn key_map<E: Keyed>(s: Seq<E>) -> Map<int, E>
    decreases s.len(),
{
    if s.len() == 0 {
        Map::empty()
    } else {
        key_map(s.skip(1)).insert(s[0].key(), s[0])
    }
}

/// A key is in the content map exactly when some entry carries it.
pub proof fn lemma_key_map_contains<E: Keyed>(s: Seq<E>)
    ensures
        forall|k: int|
            #[trigger] key_map(s).dom().contains(k) <==> (exists|i: int|
                0 <= i < s.len() && #[trigger] s[i].key() == k),
    decreases s.len(),
{
    if s.len() > 0 {
        lemma_key_map_contains(s.skip(1));
        assert forall|k: int| #[trigger] key_map(s).dom().contains(k) implies (exists|i: int|
            0 <= i < s.len() && #[trigger] s[i].key() == k) by {
            if k == s[0].key() {
                assert(s[0].key() == k);
            } else {
                assert(key_map(s.skip(1)).dom().contains(k));
                let i = choose|i: int| 0 <= i < s.skip(1).len() && #[trigger] s.skip(1)[i].key() == k;
                assert(s.skip(1)[i] == s[i + 1]);
                assert(s[i + 1].key() == k);
            }
        }
        assert forall|k: int|
            (exists|i: int| 0 <= i < s.len() && #[trigger] s[i].key() == k) implies #[trigger]
        key_map(s).dom().contains(k) by {
            let i = choose|i: int| 0 <= i < s.len() && #[trigger] s[i].key() == k;
            if i > 0 {
                assert(s.skip(1)[i - 1] == s[i]);
                assert(s.skip(1)[i - 1].key() == k);
                assert(key_map(s.skip(1)).dom().contains(k));
            } else {
                assert(k == s[0].key());
            }
        }
    }
}

/// Inserting preserves order; the content map gains exactly the new entry;
/// every entry of the result is the new one or one of the old ones.
pub proof fn lemma_insert_props<E: Keyed>(s: Seq<E>, e: E)
    requires
        sorted(s),
    ensures
        sorted(spec_insert(s, e)),
        key_map(spec_insert(s, e)) == key_map(s).insert(e.key(), e),
        forall|i: int|
            0 <= i < spec_insert(s, e).len() ==> #[trigger] spec_insert(s, e)[i] == e || s.contains(
                spec_insert(s, e)[i],
            ),
    decreases s.len(),
{
    let r = spec_insert(s, e);
    if s.len() == 0 {
        assert(r == seq![e]);
        assert(r[0] == e);
        assert(r.skip(1) =~= Seq::<E>::empty());
        assert(key_map(r) == key_map(r.skip(1)).insert(r[0].key(), r[0]));
        assert(key_map(r) =~= key_map(s).insert(e.key(), e));
    } else if e.key() < s[0].key() {
        assert(r == seq![e] + s);
        assert(r[0] == e);
        assert(r.skip(1) =~= s);
        assert(forall|i: int| 0 <= i < s.len() ==> #[trigger] s[i].key() >= s[0].key());
        assert(key_map(r) == key_map(r.skip(1)).insert(r[0].key(), r[0]));
        assert(key_map(r) == key_map(s).insert(e.key(), e));
        assert(forall|i: int| 1 <= i < r.len() ==> r[i] == s[i - 1] && s.contains(r[i]));
    } else if e.key() == s[0].key() {
        assert(r == seq![e] + s.skip(1));
        assert(r[0] == e);
        assert(r.skip(1) =~= s.skip(1));
        assert(key_map(r) == key_map(r.skip(1)).insert(r[0].key(), r[0]));
        assert(key_map(r) == key_map(s.skip(1)).insert(e.key(), e));
        assert(key_map(s) == key_map(s.skip(1)).insert(s[0].key(), s[0]));
        assert(key_map(s).insert(e.key(), e) =~= key_map(s.skip(1)).insert(e.key(), e));
        assert(forall|i: int|
            1 <= i < r.len() ==> r[i] == s[i] && s.contains(r[i]));
    } else {
        let t = s.skip(1);
        assert(sorted::<E>(t)) by {
            assert(forall|i: int, j: int|
                0 <= i < j < t.len() ==> #[trigger] t[i].key() < #[trigger] t[j].key());
        }
        lemma_insert_props(t, e);
        let rt = spec_insert(t, e);
        assert(r == seq![s[0]] + rt);
        assert(r[0] == s[0]);
        assert(r.skip(1) =~= rt);
        // order: s[0] stands below e and below every old tail entry
        assert forall|i: int, j: int| 0 <= i < j < r.len() implies #[trigger] r[i].key()
            < #[trigger] r[j].key() by {
            if i == 0 {
                assert(r[j] == rt[j - 1]);
                if rt[j - 1] == e {
                } else {
                    assert(t.contains(rt[j - 1]));
                    let m = choose|m: int| 0 <= m < t.len() && t[m] == rt[j - 1];
                    assert(s[m + 1] == t[m]);
                }
            } else {
                assert(r[i] == rt[i - 1] && r[j] == rt[j - 1]);
            }
        }
        assert(key_map(r) == key_map(rt).insert(s[0].key(), s[0]));
        assert(key_map(r) =~= key_map(s).insert(e.key(), e)) by {
            assert(key_map(rt) == key_map(t).insert(e.key(), e));
            assert(key_map(s) == key_map(t).insert(s[0].key(), s[0]));
        }
        assert forall|i: int| 0 <= i < r.len() implies #[trigger] r[i] == e || s.contains(
            r[i],
        ) by {
            if i == 0 {
                assert(s[0] == r[0]);
            } else {
                if rt[i - 1] == e {
                } else {
                    assert(t.contains(rt[i - 1]));
                    let m = choose|m: int| 0 <= m < t.len() && t[m] == rt[i - 1];
                    assert(s[m + 1] == t[m]);
                }
            }
        }
    }
}

/// Two ordered sequences with the same content are the same sequence:
/// the canonical representation is unique, so encoding a logical set is
/// deterministic however it was built.
pub proof fn lemma_sorted_unique<E: Keyed>(s1: Seq<E>, s2: Seq<E>)
    requires
        sorted(s1),
        sorted(s2),
        key_map(s1) == key_map(s2),
    ensures
        s1 == s2,
    decreases s1.len(),
{
    lemma_key_map_contains(s1);
    lemma_key_map_contains(s2);
    if s1.len() == 0 {
        if s2.len() > 0 {
            assert(key_map(s2).dom().contains(s2[0].key()));
        }
        assert(s1 =~= s2);
    } else {
        assert(key_map(s1).dom().contains(s1[0].key()));
        assert(s2.len() > 0) by {
            if s2.len() == 0 {
                assert(!key_map(s2).dom().contains(s1[0].key()));
            }
        }
        // equal minimal keys
        let k1 = s1[0].key();
        let k2 = s2[0].key();
        assert(key_map(s1).dom().contains(k1)) by {
            assert(s1[0].key() == k1);
        }
        assert(key_map(s2).dom().contains(k2)) by {
            assert(s2[0].key() == k2);
        }
        assert(k1 >= k2) by {
            assert(key_map(s2).dom().contains(k1));
            let i = choose|i: int| 0 <= i < s2.len() && #[trigger] s2[i].key() == k1;
            if i > 0 {
                assert(s2[0].key() < s2[i].key());
            }
        }
        assert(k2 >= k1) by {
            assert(key_map(s1).dom().contains(k2));
            let i = choose|i: int| 0 <= i < s1.len() && #[trigger] s1[i].key() == k2;
            if i > 0 {
                assert(s1[0].key() < s1[i].key());
            }
        }
        assert(s1[0] == key_map(s1)[k1] && s2[0] == key_map(s2)[k2]);
        let t1 = s1.skip(1);
        let t2 = s2.skip(1);
        assert(sorted::<E>(t1) && sorted::<E>(t2)) by {
            assert(forall|i: int, j: int|
                0 <= i < j < t1.len() ==> #[trigger] t1[i].key() < #[trigger] t1[j].key());
            assert(forall|i: int, j: int|
                0 <= i < j < t2.len() ==> #[trigger] t2[i].key() < #[trigger] t2[j].key());
        }
        lemma_key_map_contains(t1);
        lemma_key_map_contains(t2);
        assert(key_map(t1) =~= key_map(s1).remove(k1)) by {
            assert(!key_map(t1).dom().contains(k1)) by {
                if key_map(t1).dom().contains(k1) {
                    let i = choose|i: int| 0 <= i < t1.len() && #[trigger] t1[i].key() == k1;
                    assert(s1[0].key() < s1[i + 1].key());
                }
            }
        }
        assert(key_map(t2) =~= key_map(s2).remove(k2)) by {
            assert(!key_map(t2).dom().contains(k2)) by {
                if key_map(t2).dom().contains(k2) {
                    let i = choose|i: int| 0 <= i < t2.len() && #[trigger] t2[i].key() == k2;
                    assert(s2[0].key() < s2[i + 1].key());
                }
            }
        }
        lemma_sorted_unique(t1, t2);
        assert(s1.len() == s2.len());
        assert forall|i: int| 0 <= i < s1.len() implies s1[i] == s2[i] by {
            if i > 0 {
                assert(t1[i - 1] == s1[i]);
                assert(t2[i - 1] == s2[i]);
            }
        }
        assert(s1 =~= s2);
    }
}

/// Determinism of the ordered-collection encoding: two ordered collections
/// with the same logical content are the same sequence, so their wire
/// images are byte-for-byte identical, however the collections were built.
pub proof fn lemma_encode_deterministic<E: ByteWriter + Keyed>(s1: Seq<E>, s2: Seq<E>)
    requires
        sorted(s1),
        sorted(s2),
        key_map(s1) == key_map(s2),
    ensures
        s1 == s2,
        spec_encode_seq(s1) == spec_encode_seq(s2),
{
    lemma_sorted_unique(s1, s2);
}

/// Inserting an entry whose key lies above every present key appends it.
pub proof fn lemma_insert_append<E: Keyed>(s: Seq<E>, e: E)
    requires
        forall|i: int| 0 <= i < s.len() ==> #[trigger] s[i].key() < e.key(),
    ensures
        spec_insert(s, e) == s.push(e),
    decreases s.len(),
{
    if s.len() == 0 {
        assert(spec_insert(s, e) =~= s.push(e));
    } else {
        let t = s.skip(1);
        assert(forall|i: int| 0 <= i < t.len() ==> #[trigger] t[i].key() < e.key());
        lemma_insert_append(t, e);
        assert(seq![s[0]] + t.push(e) =~= s.push(e));
    }
}

/// How insertion lands when the first `i` keys lie below the new key:
/// at the end it appends, on an equal key it replaces, on a greater key
/// it inserts just before it.
pub proof fn lemma_insert_at<E: Keyed>(s: Seq<E>, e: E, i: int)
    requires
        0 <= i <= s.len(),
        forall|j: int| 0 <= j < i ==> #[trigger] s[j].key() < e.key(),
    ensures
        i == s.len() ==> spec_insert(s, e) == s.push(e),
        i < s.len() && e.key() < s[i].key() ==> spec_insert(s, e) == s.insert(i, e),
        i < s.len() && e.key() == s[i].key() ==> spec_insert(s, e) == s.update(i, e),
    decreases i,
{
    if i == 0 {
        if s.len() == 0 {
            assert(spec_insert(s, e) =~= s.push(e));
        } else if e.key() < s[0].key() {
            assert(seq![e] + s =~= s.insert(0, e));
        } else if e.key() == s[0].key() {
            assert(seq![e] + s.skip(1) =~= s.update(0, e));
        }
    } else {
        let t = s.skip(1);
        assert(forall|j: int| 0 <= j < i - 1 ==> #[trigger] t[j].key() < e.key());
        lemma_insert_at(t, e, i - 1);
        assert(s[0].key() < e.key());
        assert(spec_insert(s, e) == seq![s[0]] + spec_insert(t, e));
        if i == s.len() {
            assert(seq![s[0]] + t.push(e) =~= s.push(e));
        } else if e.key() < s[i].key() {
            assert(t[i - 1] == s[i]);
            assert(seq![s[0]] + t.insert(i - 1, e) =~= s.insert(i, e));
        } else if e.key() == s[i].key() {
            assert(t[i - 1] == s[i]);
            assert(seq![s[0]] + t.update(i - 1, e) =~= s.update(i, e));
        }
    }
}

/// Mapping entries to their views commutes with ordered insertion.
pub proof fn lemma_insert_views<E: KeyCompare>(s: Seq<E>, e: E) where E::V: Keyed
    ensures
        views(spec_insert(s, e)) == spec_insert(views(s), e@),
    decreases s.len(),
{
    e.lemma_view_key();
    if s.len() == 0 {
        assert(views(spec_insert(s, e)) =~= spec_insert(views(s), e@));
    } else {
        s[0].lemma_view_key();
        assert(views(s)[0] == s[0]@);
        if e.key() < s[0].key() {
            assert(views(seq![e] + s) =~= seq![e@] + views(s));
        } else if e.key() == s[0].key() {
            assert(views(seq![e] + s.skip(1)) =~= seq![e@] + views(s).skip(1));
        } else {
            lemma_insert_views(s.skip(1), e);
            assert(views(s.skip(1)) =~= views(s).skip(1));
            assert(views(seq![s[0]] + spec_insert(s.skip(1), e)) =~= seq![views(s)[0]]
                + views(spec_insert(s.skip(1), e)));
        }
    }
}

/// Pointwise-equal keys: an executable collection is sorted exactly when
/// its content sequence is.
pub proof fn lemma_views_sorted<E: KeyCompare>(s: Seq<E>) where E::V: Keyed
    ensures
        sorted(s) <==> sorted(views(s)),
{
    assert forall|i: int| 0 <= i < s.len() implies #[trigger] views(s)[i].key() == s[i].key() by {
        s[i].lemma_view_key();
    }
    if sorted(s) {
        assert forall|i: int, j: int| 0 <= i < j < views(s).len() implies #[trigger] views(
            s,
        )[i].key() < #[trigger] views(s)[j].key() by {
            assert(s[i].key() < s[j].key());
        }
    }
    if sorted(views(s)) {
        assert forall|i: int, j: int| 0 <= i < j < s.len() implies #[trigger] s[i].key()
            < #[trigger] s[j].key() by {
            assert(views(s)[i].key() < views(s)[j].key());
        }
    }
}

/// Inserts an entry into an ordered vector, replacing the entry with the
/// same key if one is present.
pub fn insert_entry<E: KeyCompare>(v: &mut Vec<E>, e: E) where E::V: Keyed
    ensures
        final(v)@ == spec_insert(old(v)@, e),
{
    let mut i: usize = 0;
    loop
        invariant
            i <= v@.len(),
            v@ == old(v)@,
            forall|j: int| 0 <= j < i ==> #[trigger] v@[j].key() < e.key(),
        decreases v@.len() - i,
    {
        if i == v.len() {
            proof {
                lemma_insert_at(v@, e, i as int);
            }
            v.push(e);
            return;
        }
        if e.key_lt(&v[i]) {
            proof {
                lemma_insert_at(v@, e, i as int);
            }
            v.insert(i, e);
            return;
        }
        if e.key_eq(&v[i]) {
            proof {
                lemma_insert_at(v@, e, i as int);
            }
            v[i] = e;
            return;
        }
        i = i + 1;
    }
}

// ===== counted entry runs =====

pub open spec fn all_wf<E: ByteWriter>(s: Seq<E>) -> bool {
    forall|i: int| 0 <= i < s.len() ==> #[trigger] s[i].wf()
}

pub open spec fn all_encodable<E: ByteWriter>(s: Seq<E>) -> bool {
    forall|i: int| 0 <= i < s.len() ==> #[trigger] s[i].encodable()
}

/// The wire image of a run of entries: each entry's bytes in sequence order.
pub open spec fn spec_encode_seq<E: ByteWriter>(s: Seq<E>) -> Seq<u8>
    decreases s.len(),
{
    if s.len() == 0 {
        Seq::empty()
    } else {
        s[0].spec_encode() + spec_encode_seq(s.skip(1))
    }
}

pub proof fn lemma_encode_seq_snoc<E: ByteWriter>(s: Seq<E>, e: E)
    ensures
        spec_encode_seq(s.push(e)) == spec_encode_seq(s) + e.spec_encode(),
    decreases s.len(),
{
    if s.len() == 0 {
        assert(s.push(e)[0] == e);
        assert(s.push(e).skip(1) =~= Seq::<E>::empty());
        assert(spec_encode_seq(s.push(e)) == e.spec_encode() + spec_encode_seq(
            Seq::<E>::empty(),
        ));
        assert(e.spec_encode() + Seq::<u8>::empty() =~= e.spec_encode());
        assert(spec_encode_seq(s) + e.spec_encode() =~= e.spec_encode());
    } else {
        assert(s.push(e).skip(1) =~= s.skip(1).push(e));
        lemma_encode_seq_snoc(s.skip(1), e);
        assert(s.push(e)[0] == s[0]);
        assert(s[0].spec_encode() + (spec_encode_seq(s.skip(1)) + e.spec_encode()) =~= (
        s[0].spec_encode() + spec_encode_seq(s.skip(1))) + e.spec_encode());
    }
}

/// Appends the wire bytes of every entry, in order. On overflow of any
/// entry the buffer is left exactly as it was.
pub fn write_entries<E: ByteWriter>(out: &mut Vec<u8>, es: &Vec<E>) -> (r: Result<
    (),
    EncodeError,
>)
    requires
        all_wf(es@),
    ensures
        r is Ok <==> all_encodable(es@),
        r is Ok ==> final(out)@ == old(out)@ + spec_encode_seq(es@),
        r is Err ==> final(out)@ == old(out)@,
{
    let orig_len = out.len();
    let mut k: usize = 0;
    proof {
        assert(es@.take(0) =~= Seq::<E>::empty());
        assert(out@ + spec_encode_seq(es@.take(0)) =~= out@);
    }
    while k < es.len()
        invariant
            k <= es@.len(),
            all_wf(es@),
            orig_len == old(out)@.len(),
            out@ == old(out)@ + spec_encode_seq(es@.take(k as int)),
            forall|j: int| 0 <= j < k ==> #[trigger] es@[j].encodable(),
        decreases es@.len() - k,
    {
        let ghost pre = out@;
        match es[k].write_pkt(out) {
            Ok(()) => {
                proof {
                    assert(es@.take(k + 1) =~= es@.take(k as int).push(es@[k as int]));
                    lemma_encode_seq_snoc(es@.take(k as int), es@[k as int]);
                    assert(out@ =~= old(out)@ + spec_encode_seq(es@.take(k + 1)));
                }
            },
            Err(e) => {
                proof {
                    assert(!all_encodable(es@));
                }
                out.truncate(orig_len);
                proof {
                    assert(out@ =~= old(out)@);
                }
                return Err(e);
            },
        }
        k = k + 1;
    }
    proof {
        assert(es@.take(es@.len() as int) =~= es@);
    }
    Ok(())
}

/// The mathematical parser for `n` consecutive entries, kept in wire order.
pub open spec fn spec_read_entries<E: PacketPayload>(s: Seq<u8>, n: nat) -> Option<
    (Seq<E::V>, Seq<u8>),
>
    decreases n,
{
    if n == 0 {
        Some((Seq::empty(), s))
    } else {
        match E::spec_decode(s) {
            None => None,
            Some(p) => match spec_read_entries::<E>(p.1, (n - 1) as nat) {
                None => None,
                Some(q) => Some((seq![p.0] + q.0, q.1)),
            },
        }
    }
}

/// Reads `n` consecutive entries at `pos`, kept in wire order.
pub fn read_entries<E: PacketPayload>(input: &[u8], pos: usize, n: usize) -> (r: Result<
    (Vec<E>, usize),
    DecodeError,
>)
    requires
        pos <= input@.len(),
    ensures
        match spec_read_entries::<E>(input@.skip(pos as int), n as nat) {
            Some(p) => {
                &&& r matches Ok(q)
                &&& views(q.0@) == p.0
                &&& all_wf(q.0@)
                &&& q.0@.len() == n
                &&& pos <= q.1 <= input@.len()
                &&& input@.skip(q.1 as int) == p.1
            },
            None => r is Err,
        },
{
    let mut acc: Vec<E> = Vec::new();
    let mut cur: usize = pos;
    let mut k: usize = 0;
    proof {
        assert(views(acc@) =~= Seq::<E::V>::empty());
    }
    while k < n
        invariant
            k <= n,
            pos <= cur <= input@.len(),
            all_wf(acc@),
            acc@.len() == k,
            match spec_read_entries::<E>(input@.skip(cur as int), (n - k) as nat) {
                Some(p) => spec_read_entries::<E>(input@.skip(pos as int), n as nat) == Some(
                    (views(acc@) + p.0, p.1),
                ),
                None => spec_read_entries::<E>(input@.skip(pos as int), n as nat) is None,
            },
        decreases n - k,
    {
        match E::read_from(input, cur) {
            Ok((e, next)) => {
                let ghost pre = acc@;
                acc.push(e);
                proof {
                    let s = input@.skip(cur as int);
                    let p = E::spec_decode(s).unwrap();
                    assert(views(acc@) =~= views(pre).push(e@));
                    match spec_read_entries::<E>(p.1, (n - k - 1) as nat) {
                        Some(q) => {
                            assert(views(pre) + (seq![p.0] + q.0) =~= views(acc@) + q.0);
                        },
                        None => {},
                    }
                }
                cur = next;
            },
            Err(e) => {
                return Err(e);
            },
        }
        k = k + 1;
    }
    proof {
        assert(views(acc@) + Seq::<E::V>::empty() =~= views(acc@));
    }
    Ok((acc, cur))
}

/// Round trip for a run of entries kept in wire order.
pub proof fn lemma_rt_entries<E: PacketPayload>(es: Seq<E>, rest: Seq<u8>)
    requires
        all_wf(es),
        all_encodable(es),
    ensures
        spec_read_entries::<E>(spec_encode_seq(es) + rest, es.len()) == Some((views(es), rest)),
    decreases es.len(),
{
    if es.len() == 0 {
        assert(spec_encode_seq(es) + rest =~= rest);
        assert(views(es) =~= Seq::<E::V>::empty());
    } else {
        let t = es.skip(1);
        assert(all_wf(t) && all_encodable(t)) by {
            assert(forall|i: int| 0 <= i < t.len() ==> t[i] == es[i + 1]);
        }
        assert(spec_encode_seq(es) + rest =~= es[0].spec_encode() + (spec_encode_seq(t) + rest));
        E::lemma_round_trip(es[0], spec_encode_seq(t) + rest);
        lemma_rt_entries(t, rest);
        assert(seq![es[0]@] + views(t) =~= views(es));
    }
}

/// A nonempty run of entries is at least as long as its last entry's image.
pub proof fn lemma_encode_seq_last_len<E: ByteWriter>(es: Seq<E>)
    requires
        es.len() > 0,
    ensures
        spec_encode_seq(es).len() >= es.last().spec_encode().len(),
    decreases es.len(),
{
    if es.len() == 1 {
        assert(spec_encode_seq(es) == es[0].spec_encode() + spec_encode_seq(es.skip(1)));
    } else {
        lemma_encode_seq_last_len(es.skip(1));
        assert(es.skip(1).last() == es.last());
    }
}

/// Truncation at the end of a counted run: with the last byte gone, the
/// run of entries never finishes decoding.
pub proof fn lemma_truncated_entries_last<E: PacketPayload>(es: Seq<E>)
    requires
        all_wf(es),
        all_encodable(es),
        es.len() > 0,
        es.last().spec_encode().len() > 0,
        E::spec_decode(
            es.last().spec_encode().take(es.last().spec_encode().len() - 1),
        ) is None,
    ensures
        spec_read_entries::<E>(
            spec_encode_seq(es).take(spec_encode_seq(es).len() - 1),
            es.len(),
        ) is None,
    decreases es.len(),
{
    let e0 = es[0];
    let enc0 = e0.spec_encode();
    let total = spec_encode_seq(es);
    if es.len() == 1 {
        assert(es.last() == e0);
        assert(total =~= enc0);
        assert(total.take(total.len() - 1) == enc0.take(enc0.len() - 1));
    } else {
        let t = es.skip(1);
        assert(all_wf(t) && all_encodable(t)) by {
            assert(forall|i: int| 0 <= i < t.len() ==> t[i] == es[i + 1]);
        }
        assert(t.last() == es.last());
        lemma_encode_seq_last_len(t);
        let trest = spec_encode_seq(t);
        crate::util::lemma_take_concat(enc0, trest, total.len() - 1);
        E::lemma_round_trip(e0, trest.take(trest.len() - 1));
        lemma_truncated_entries_last::<E>(t);
    }
}

/// The mathematical parser for `n` entries folded into an ordered
/// collection: entries are inserted in wire order, so a duplicate key keeps
/// the later occurrence.
pub open spec fn spec_read_sorted<E: PacketPayload>(s: Seq<u8>, n: nat, acc: Seq<E::V>) -> Option<
    (Seq<E::V>, Seq<u8>),
> where E::V: Keyed
    decreases n,
{
    if n == 0 {
        Some((acc, s))
    } else {
        match E::spec_decode(s) {
            None => None,
            Some(p) => spec_read_sorted::<E>(p.1, (n - 1) as nat, spec_insert(acc, p.0)),
        }
    }
}

/// Reads `n` entries at `pos` into an ordered collection.
pub fn read_sorted_entries<E: PacketPayload + KeyCompare>(input: &[u8], pos: usize, n: usize) -> (r:
    Result<(Vec<E>, usize), DecodeError>) where E::V: Keyed
    requires
        pos <= input@.len(),
    ensures
        match spec_read_sorted::<E>(input@.skip(pos as int), n as nat, Seq::empty()) {
            Some(p) => {
                &&& r matches Ok(q)
                &&& views(q.0@) == p.0
                &&& sorted(q.0@)
                &&& all_wf(q.0@)
                &&& pos <= q.1 <= input@.len()
                &&& input@.skip(q.1 as int) == p.1
            },
            None => r is Err,
        },
{
    let mut acc: Vec<E> = Vec::new();
    let mut cur: usize = pos;
    let mut k: usize = 0;
    proof {
        assert(views(acc@) =~= Seq::<E::V>::empty());
    }
    while k < n
        invariant
            k <= n,
            pos <= cur <= input@.len(),
            all_wf(acc@),
            sorted(acc@),
            spec_read_sorted::<E>(input@.skip(pos as int), n as nat, Seq::empty())
                == spec_read_sorted::<E>(input@.skip(cur as int), (n - k) as nat, views(acc@)),
        decreases n - k,
    {
        match E::read_from(input, cur) {
            Ok((e, next)) => {
                let ghost pre = acc@;
                proof {
                    lemma_insert_props(pre, e);
                    lemma_insert_views(pre, e);
                }
                insert_entry(&mut acc, e);
                proof {
                    assert forall|i: int| 0 <= i < acc@.len() implies #[trigger] acc@[i].wf() by {
                        if acc@[i] == e {
                        } else {
                            assert(pre.contains(acc@[i]));
                            let m = choose|m: int| 0 <= m < pre.len() && pre[m] == acc@[i];
                            assert(pre[m].wf());
                        }
                    }
                }
                cur = next;
            },
            Err(e) => {
                return Err(e);
            },
        }
        k = k + 1;
    }
    Ok((acc, cur))
}

/// Entry-level truncation, as the collection lemmas assume it: an entry's
/// encoding cut anywhere short never decodes.
pub open spec fn truncation_safe<E: PacketPayload>() -> bool {
    forall|e: E, j: int|
        e.wf() && e.encodable() && 0 <= j < e.spec_encode().len() ==> (#[trigger] E::spec_decode(
            e.spec_encode().take(j),
        )) is None
}

/// Truncation for an ordered-collection body: cutting the encoded entries
/// anywhere makes the fold fail rather than yield a partial collection.
pub proof fn lemma_truncated_sorted<E: PacketPayload + KeyCompare>(
    es: Seq<E>,
    acc: Seq<E::V>,
    k: int,
) where E::V: Keyed
    requires
        all_wf(es),
        all_encodable(es),
        truncation_safe::<E>(),
        0 <= k < spec_encode_seq(es).len(),
    ensures
        spec_read_sorted::<E>(spec_encode_seq(es).take(k), es.len(), acc) is None,
    decreases es.len(),
{
    assert(es.len() > 0);
    let e0 = es[0];
    let t = es.skip(1);
    assert(all_wf(t) && all_encodable(t)) by {
        assert(forall|i: int| 0 <= i < t.len() ==> t[i] == es[i + 1]);
    }
    let enc0 = e0.spec_encode();
    let total = spec_encode_seq(es);
    if k < enc0.len() {
        assert(total.take(k) =~= enc0.take(k));
        assert(E::spec_decode(enc0.take(k)) is None);
    } else {
        let k2 = k - enc0.len();
        assert(total.take(k) =~= enc0 + spec_encode_seq(t).take(k2));
        E::lemma_round_trip(e0, spec_encode_seq(t).take(k2));
        lemma_truncated_sorted::<E>(t, spec_insert(acc, e0@), k2);
    }
}

/// Round trip for an ordered collection: encoding writes the entries in
/// ascending key order, and re-inserting them in that order rebuilds the
/// same collection after `acc`.
pub proof fn lemma_rt_sorted<E: PacketPayload + KeyCompare>(
    es: Seq<E>,
    acc: Seq<E::V>,
    rest: Seq<u8>,
) where E::V: Keyed
    requires
        all_wf(es),
        all_encodable(es),
        sorted(acc + views(es)),
    ensures
        spec_read_sorted::<E>(spec_encode_seq(es) + rest, es.len(), acc) == Some(
            (acc + views(es), rest),
        ),
    decreases es.len(),
{
    if es.len() == 0 {
        assert(spec_encode_seq(es) + rest =~= rest);
        assert(acc + views(es) =~= acc);
    } else {
        let t = es.skip(1);
        assert(all_wf(t) && all_encodable(t)) by {
            assert(forall|i: int| 0 <= i < t.len() ==> t[i] == es[i + 1]);
        }
        assert(spec_encode_seq(es) + rest =~= es[0].spec_encode() + (spec_encode_seq(t) + rest));
        E::lemma_round_trip(es[0], spec_encode_seq(t) + rest);
        assert(views(es)[0] == es[0]@);
        assert(forall|i: int| 0 <= i < acc.len() ==> #[trigger] acc[i].key() < es[0]@.key()) by {
            assert(forall|i: int| 0 <= i < acc.len() ==> (acc + views(es))[i] == acc[i]);
            assert((acc + views(es))[acc.len() as int] == views(es)[0]);
        }
        lemma_insert_append(acc, es[0]@);
        assert(acc.push(es[0]@) + views(t) =~= acc + views(es));
        lemma_rt_sorted::<E>(t, acc.push(es[0]@), rest);
    }
}

} // verus!
