//! The snapshot byte format: the whole in-memory structure is encoded into
//! one buffer, and decoding either reproduces exactly one valid structure or
//! rejects the bytes.
//!
//! Layout: an 8-byte little-endian count, then one record after another.  A
//! key-value record is two length-prefixed blocks (UTF-8 key bytes, then
//! value bytes); a profile record is a length-prefixed name block followed by
//! an 8-byte little-endian age.  Trailing bytes, ill-formed UTF-8 and
//! duplicate keys are all rejected.

use vstd::bytes::*;
use vstd::prelude::*;
use vstd::slice::{slice_subrange, slice_to_vec};
use vstd::string::StrSliceExecFns;
use vstd::utf8::{
    decode_utf8, encode_utf8, encode_utf8_decode_utf8, encode_utf8_valid_utf8, valid_utf8,
};

use crate::profile::{records_of, Profile, ProfileStore};
use crate::store::{pairs_of, unique_keys, KvStore};

verus! {

// ---------------------------------------------------------------------------
// Specification of the byte layout
// ---------------------------------------------------------------------------
/// A length-prefixed block: 8-byte little-endian length, then the bytes.
pub open spec fn spec_block(b: Seq<u8>) -> Seq<u8> {
    spec_u64_to_le_bytes(b.len() as u64) + b
}

/// One key-value record: key block (UTF-8 bytes of the key), value block.
pub open spec fn spec_encode_kv_entry(p: (Seq<char>, Seq<u8>)) -> Seq<u8> {
    spec_block(encode_utf8(p.0)) + spec_block(p.1)
}

/// The records of a key-value snapshot, one after another.
pub open spec fn spec_encode_kv_entries(s: Seq<(Seq<char>, Seq<u8>)>) -> Seq<u8>
    decreases s.len(),
{
    if s.len() == 0 {
        Seq::empty()
    } else {
        spec_encode_kv_entry(s.first()) + spec_encode_kv_entries(s.drop_first())
    }
}

/// A whole key-value snapshot: count, then the records.
pub open spec fn spec_encode_kv(s: Seq<(Seq<char>, Seq<u8>)>) -> Seq<u8> {
    spec_u64_to_le_bytes(s.len() as u64) + spec_encode_kv_entries(s)
}

/// One profile record: name block, then the age.
pub open spec fn spec_encode_profile_entry(p: (Seq<char>, u64)) -> Seq<u8> {
    spec_block(encode_utf8(p.0)) + spec_u64_to_le_bytes(p.1)
}

/// The records of a profile snapshot, one after another.
pub open spec fn spec_encode_profile_entries(s: Seq<(Seq<char>, u64)>) -> Seq<u8>
    decreases s.len(),
{
    if s.len() == 0 {
        Seq::empty()
    } else {
        spec_encode_profile_entry(s.first()) + spec_encode_profile_entries(s.drop_first())
    }
}

/// A whole profile snapshot: count, then the records.
pub open spec fn spec_encode_profiles(s: Seq<(Seq<char>, u64)>) -> Seq<u8> {
    spec_u64_to_le_bytes(s.len() as u64) + spec_encode_profile_entries(s)
}

/// Read an 8-byte little-endian integer off the front.
pub open spec fn spec_take_u64(b: Seq<u8>) -> Option<(u64, Seq<u8>)> {
    if b.len() >= 8 {
        Some((spec_u64_from_le_bytes(b.take(8)), b.skip(8)))
    } else {
        None
    }
}

/// Read a length-prefixed block off the front.
pub open spec fn spec_take_block(b: Seq<u8>) -> Option<(Seq<u8>, Seq<u8>)> {
    match spec_take_u64(b) {
        Some((n, rest)) => if rest.len() >= n {
            Some((rest.take(n as int), rest.skip(n as int)))
        } else {
            None
        },
        None => None,
    }
}

/// Read one key-value record off the front; the key block must be valid
/// UTF-8.
pub open spec fn spec_take_kv_entry(b: Seq<u8>) -> Option<((Seq<char>, Seq<u8>), Seq<u8>)> {
    match spec_take_block(b) {
        Some((kb, rest1)) => if valid_utf8(kb) {
            match spec_take_block(rest1) {
                Some((vb, rest2)) => Some(((decode_utf8(kb), vb), rest2)),
                None => None,
            }
        } else {
            None
        },
        None => None,
    }
}

/// Read `n` key-value records off the front.
pub open spec fn spec_decode_kv_entries(b: Seq<u8>, n: nat) -> Option<
    (Seq<(Seq<char>, Seq<u8>)>, Seq<u8>),
>
    decreases n,
{
    if n == 0 {
        Some((Seq::empty(), b))
    } else {
        match spec_take_kv_entry(b) {
            Some((p, rest)) => match spec_decode_kv_entries(rest, (n - 1) as nat) {
                Some((s, rest2)) => Some((seq![p] + s, rest2)),
                None => None,
            },
            None => None,
        }
    }
}

/// Decode a whole key-value snapshot: every byte must be consumed and the
/// keys must be pairwise distinct, else the bytes are rejected.
pub open spec fn spec_decode_kv(b: Seq<u8>) -> Option<Seq<(Seq<char>, Seq<u8>)>> {
    match spec_take_u64(b) {
        Some((n, rest)) => match spec_decode_kv_entries(rest, n as nat) {
            Some((s, rest2)) => if rest2.len() == 0 && unique_keys(s) {
                Some(s)
            } else {
                None
            },
            None => None,
        },
        None => None,
    }
}

/// Read one profile record off the front; the name block must be valid
/// UTF-8.
pub open spec fn spec_take_profile_entry(b: Seq<u8>) -> Option<((Seq<char>, u64), Seq<u8>)> {
    match spec_take_block(b) {
        Some((nb, rest1)) => if valid_utf8(nb) {
            match spec_take_u64(rest1) {
                Some((age, rest2)) => Some(((decode_utf8(nb), age), rest2)),
                None => None,
            }
        } else {
            None
        },
        None => None,
    }
}

/// Read `n` profile records off the front.
pub open spec fn spec_decode_profile_entries(b: Seq<u8>, n: nat) -> Option<
    (Seq<(Seq<char>, u64)>, Seq<u8>),
>
    decreases n,
{
    if n == 0 {
        Some((Seq::empty(), b))
    } else {
        match spec_take_profile_entry(b) {
            Some((p, rest)) => match spec_decode_profile_entries(rest, (n - 1) as nat) {
                Some((s, rest2)) => Some((seq![p] + s, rest2)),
                None => None,
            },
            None => None,
        }
    }
}

/// Decode a whole profile snapshot: every byte must be consumed, else the
/// bytes are rejected.
pub open spec fn spec_decode_profiles(b: Seq<u8>) -> Option<Seq<(Seq<char>, u64)>> {
    match spec_take_u64(b) {
        Some((n, rest)) => match spec_decode_profile_entries(rest, n as nat) {
            Some((s, rest2)) => if rest2.len() == 0 {
                Some(s)
            } else {
                None
            },
            None => None,
        },
        None => None,
    }
}

// ---------------------------------------------------------------------------
// Round trip: decoding an encoding gives the structure back
// ---------------------------------------------------------------------------
/// Every record of a key-value pair sequence fits the length prefixes.
pub open spec fn kv_entries_fit(s: Seq<(Seq<char>, Seq<u8>)>) -> bool {
    forall|i: int|
        0 <= i < s.len() ==> (#[trigger] encode_utf8(s[i].0)).len() <= u64::MAX && s[i].1.len()
            <= u64::MAX
}

/// Every record of a profile sequence fits the length prefixes.
pub open spec fn profile_entries_fit(s: Seq<(Seq<char>, u64)>) -> bool {
    forall|i: int| 0 <= i < s.len() ==> (#[trigger] encode_utf8(s[i].0)).len() <= u64::MAX
}

proof fn lemma_take_concat(a: Seq<u8>, b: Seq<u8>)
    ensures
        (a + b).take(a.len() as int) == a,
        (a + b).skip(a.len() as int) == b,
{
    assert((a + b).take(a.len() as int) =~= a);
    assert((a + b).skip(a.len() as int) =~= b);
}

proof fn lemma_take_u64_encode(x: u64, rest: Seq<u8>)
    ensures
        spec_take_u64(spec_u64_to_le_bytes(x) + rest) == Some((x, rest)),
{
    lemma_auto_spec_u64_to_from_le_bytes();
    lemma_take_concat(spec_u64_to_le_bytes(x), rest);
}

proof fn lemma_take_block_encode(d: Seq<u8>, rest: Seq<u8>)
    requires
        d.len() <= u64::MAX,
    ensures
        spec_take_block(spec_block(d) + rest) == Some((d, rest)),
{
    assert(spec_block(d) + rest =~= spec_u64_to_le_bytes(d.len() as u64) + (d + rest));
    lemma_take_u64_encode(d.len() as u64, d + rest);
    lemma_take_concat(d, rest);
}

proof fn lemma_take_kv_entry_encode(p: (Seq<char>, Seq<u8>), rest: Seq<u8>)
    requires
        encode_utf8(p.0).len() <= u64::MAX,
        p.1.len() <= u64::MAX,
    ensures
        spec_take_kv_entry(spec_encode_kv_entry(p) + rest) == Some((p, rest)),
{
    let kb = encode_utf8(p.0);
    assert(spec_encode_kv_entry(p) + rest =~= spec_block(kb) + (spec_block(p.1) + rest));
    lemma_take_block_encode(kb, spec_block(p.1) + rest);
    encode_utf8_valid_utf8(p.0);
    lemma_take_block_encode(p.1, rest);
    encode_utf8_decode_utf8(p.0);
}

proof fn lemma_decode_kv_entries_encode(s: Seq<(Seq<char>, Seq<u8>)>, rest: Seq<u8>)
    requires
        kv_entries_fit(s),
    ensures
        spec_decode_kv_entries(spec_encode_kv_entries(s) + rest, s.len()) == Some((s, rest)),
    decreases s.len(),
{
    if s.len() == 0 {
        assert(spec_encode_kv_entries(s) + rest =~= rest);
        assert(s =~= Seq::<(Seq<char>, Seq<u8>)>::empty());
    } else {
        let p = s.first();
        let tail = s.drop_first();
        assert(spec_encode_kv_entries(s) + rest =~= spec_encode_kv_entry(p) + (
        spec_encode_kv_entries(tail) + rest));
        assert(encode_utf8(s[0].0).len() <= u64::MAX && s[0].1.len() <= u64::MAX);
        lemma_take_kv_entry_encode(p, spec_encode_kv_entries(tail) + rest);
        assert(kv_entries_fit(tail)) by {
            assert forall|i: int|
                0 <= i < tail.len() implies (#[trigger] encode_utf8(tail[i].0)).len() <= u64::MAX
                && tail[i].1.len() <= u64::MAX by {
                assert(tail[i] == s[i + 1]);
            }
        }
        lemma_decode_kv_entries_encode(tail, rest);
        assert(seq![p] + tail =~= s);
    }
}

/// Round trip for the key-value snapshot: decoding the encoding of any
/// pair sequence with distinct keys gives that sequence back.
pub proof fn lemma_kv_round_trip(s: Seq<(Seq<char>, Seq<u8>)>)
    requires
        unique_keys(s),
        s.len() <= u64::MAX,
        kv_entries_fit(s),
    ensures
        spec_decode_kv(spec_encode_kv(s)) == Some(s),
{
    lemma_take_u64_encode(s.len() as u64, spec_encode_kv_entries(s));
    lemma_decode_kv_entries_encode(s, Seq::empty());
    assert(spec_encode_kv_entries(s) + Seq::<u8>::empty() =~= spec_encode_kv_entries(s));
}

proof fn lemma_take_profile_entry_encode(p: (Seq<char>, u64), rest: Seq<u8>)
    requires
        encode_utf8(p.0).len() <= u64::MAX,
    ensures
        spec_take_profile_entry(spec_encode_profile_entry(p) + rest) == Some((p, rest)),
{
    let nb = encode_utf8(p.0);
    assert(spec_encode_profile_entry(p) + rest =~= spec_block(nb) + (spec_u64_to_le_bytes(p.1)
        + rest));
    lemma_take_block_encode(nb, spec_u64_to_le_bytes(p.1) + rest);
    encode_utf8_valid_utf8(p.0);
    lemma_take_u64_encode(p.1, rest);
    encode_utf8_decode_utf8(p.0);
}

proof fn lemma_decode_profile_entries_encode(s: Seq<(Seq<char>, u64)>, rest: Seq<u8>)
    requires
        profile_entries_fit(s),
    ensures
        spec_decode_profile_entries(spec_encode_profile_entries(s) + rest, s.len()) == Some(
            (s, rest),
        ),
    decreases s.len(),
{
    if s.len() == 0 {
        assert(spec_encode_profile_entries(s) + rest =~= rest);
        assert(s =~= Seq::<(Seq<char>, u64)>::empty());
    } else {
        let p = s.first();
        let tail = s.drop_first();
        assert(spec_encode_profile_entries(s) + rest =~= spec_encode_profile_entry(p) + (
        spec_encode_profile_entries(tail) + rest));
        assert(encode_utf8(s[0].0).len() <= u64::MAX);
        lemma_take_profile_entry_encode(p, spec_encode_profile_entries(tail) + rest);
        assert(profile_entries_fit(tail)) by {
            assert forall|i: int|
                0 <= i < tail.len() implies (#[trigger] encode_utf8(tail[i].0)).len()
                <= u64::MAX by {
                assert(tail[i] == s[i + 1]);
            }
        }
        lemma_decode_profile_entries_encode(tail, rest);
        assert(seq![p] + tail =~= s);
    }
}

/// Round trip for the profile snapshot: decoding the encoding of any record
/// sequence gives that sequence back.
pub proof fn lemma_profile_round_trip(s: Seq<(Seq<char>, u64)>)
    requires
        s.len() <= u64::MAX,
        profile_entries_fit(s),
    ensures
        spec_decode_profiles(spec_encode_profiles(s)) == Some(s),
{
    lemma_take_u64_encode(s.len() as u64, spec_encode_profile_entries(s));
    lemma_decode_profile_entries_encode(s, Seq::empty());
    assert(spec_encode_profile_entries(s) + Seq::<u8>::empty() =~= spec_encode_profile_entries(s));
}

// ---------------------------------------------------------------------------
// Encoding
// ---------------------------------------------------------------------------
proof fn lemma_encode_kv_entries_snoc(s: Seq<(Seq<char>, Seq<u8>)>, p: (Seq<char>, Seq<u8>))
    ensures
        spec_encode_kv_entries(s.push(p)) == spec_encode_kv_entries(s) + spec_encode_kv_entry(p),
    decreases s.len(),
{
    if s.len() == 0 {
        assert(s.push(p).first() == p);
        assert(s.push(p).drop_first() =~= s);
        assert(spec_encode_kv_entries(s.push(p)) =~= spec_encode_kv_entries(s)
            + spec_encode_kv_entry(p));
    } else {
        assert(s.push(p).first() == s.first());
        assert(s.push(p).drop_first() =~= s.drop_first().push(p));
        lemma_encode_kv_entries_snoc(s.drop_first(), p);
        assert(spec_encode_kv_entry(s.first()) + (spec_encode_kv_entries(s.drop_first())
            + spec_encode_kv_entry(p)) =~= (spec_encode_kv_entry(s.first())
            + spec_encode_kv_entries(s.drop_first())) + spec_encode_kv_entry(p));
    }
}

proof fn lemma_encode_profile_entries_snoc(s: Seq<(Seq<char>, u64)>, p: (Seq<char>, u64))
    ensures
        spec_encode_profile_entries(s.push(p)) == spec_encode_profile_entries(s)
            + spec_encode_profile_entry(p),
    decreases s.len(),
{
    if s.len() == 0 {
        assert(s.push(p).first() == p);
        assert(s.push(p).drop_first() =~= s);
        assert(spec_encode_profile_entries(s.push(p)) =~= spec_encode_profile_entries(s)
            + spec_encode_profile_entry(p));
    } else {
        assert(s.push(p).first() == s.first());
        assert(s.push(p).drop_first() =~= s.drop_first().push(p));
        lemma_encode_profile_entries_snoc(s.drop_first(), p);
        assert(spec_encode_profile_entry(s.first()) + (spec_encode_profile_entries(s.drop_first())
            + spec_encode_profile_entry(p)) =~= (spec_encode_profile_entry(s.first())
            + spec_encode_profile_entries(s.drop_first())) + spec_encode_profile_entry(p));
    }
}

/// Encode the whole key-value store into one snapshot buffer.
pub fn encode_kv(store: &KvStore) -> (r: Vec<u8>)
    ensures
        r@ == spec_encode_kv(store.pairs()),
{
    let ghost pr = store.pairs();
    let n = store.len();
    let mut out = u64_to_le_bytes(n as u64);
    let mut i: usize = 0;
    while i < n
        invariant
            n == pr.len(),
            pr == store.pairs(),
            i <= n,
            out@ == spec_u64_to_le_bytes(n as u64) + spec_encode_kv_entries(pr.take(i as int)),
        decreases n - i,
    {
        let (key, value) = store.entry_at(i);
        let mut kb = key.as_str().as_bytes_vec();
        let ghost kb0 = kb@;
        let mut lkb = u64_to_le_bytes(kb.len() as u64);
        out.append(&mut lkb);
        out.append(&mut kb);
        let mut vb = slice_to_vec(value.as_slice());
        let ghost vb0 = vb@;
        let mut lvb = u64_to_le_bytes(vb.len() as u64);
        out.append(&mut lvb);
        out.append(&mut vb);
        proof {
            let p = pr[i as int];
            assert(kb0 == encode_utf8(p.0));
            assert(vb0 == p.1);
            lemma_encode_kv_entries_snoc(pr.take(i as int), p);
            assert(pr.take(i + 1) =~= pr.take(i as int).push(p));
            assert(out@ =~= spec_u64_to_le_bytes(n as u64) + spec_encode_kv_entries(
                pr.take(i + 1),
            ));
        }
        i += 1;
    }
    proof {
        assert(pr.take(n as int) =~= pr);
        assert(pr.len() as u64 == n as u64);
    }
    out
}

/// Encode the whole profile store into one snapshot buffer.
pub fn encode_profiles(store: &ProfileStore) -> (r: Vec<u8>)
    ensures
        r@ == spec_encode_profiles(store@),
{
    let ghost rc = store@;
    let n = store.len();
    let mut out = u64_to_le_bytes(n as u64);
    let mut i: usize = 0;
    while i < n
        invariant
            n == rc.len(),
            rc == store@,
            i <= n,
            out@ == spec_u64_to_le_bytes(n as u64) + spec_encode_profile_entries(
                rc.take(i as int),
            ),
        decreases n - i,
    {
        let p = store.record_at(i);
        let mut nb = p.name.as_str().as_bytes_vec();
        let ghost nb0 = nb@;
        let mut lnb = u64_to_le_bytes(nb.len() as u64);
        out.append(&mut lnb);
        out.append(&mut nb);
        let mut ab = u64_to_le_bytes(p.age);
        out.append(&mut ab);
        proof {
            let q = rc[i as int];
            assert(nb0 == encode_utf8(q.0));
            lemma_encode_profile_entries_snoc(rc.take(i as int), q);
            assert(rc.take(i + 1) =~= rc.take(i as int).push(q));
            assert(out@ =~= spec_u64_to_le_bytes(n as u64) + spec_encode_profile_entries(
                rc.take(i + 1),
            ));
        }
        i += 1;
    }
    proof {
        assert(rc.take(n as int) =~= rc);
        assert(rc.len() as u64 == n as u64);
    }
    out
}

// ---------------------------------------------------------------------------
// Decoding
// ---------------------------------------------------------------------------
/// Prefix an already-decoded pair sequence onto a partial decoding result.
spec fn opt_prepend_kv(
    pre: Seq<(Seq<char>, Seq<u8>)>,
    o: Option<(Seq<(Seq<char>, Seq<u8>)>, Seq<u8>)>,
) -> Option<(Seq<(Seq<char>, Seq<u8>)>, Seq<u8>)> {
    match o {
        Some((s, rest)) => Some((pre + s, rest)),
        None => None,
    }
}

/// Prefix an already-decoded record sequence onto a partial decoding result.
spec fn opt_prepend_profile(
    pre: Seq<(Seq<char>, u64)>,
    o: Option<(Seq<(Seq<char>, u64)>, Seq<u8>)>,
) -> Option<(Seq<(Seq<char>, u64)>, Seq<u8>)> {
    match o {
        Some((s, rest)) => Some((pre + s, rest)),
        None => None,
    }
}

proof fn lemma_decode_kv_entries_step(b: Seq<u8>, n: nat, p: (Seq<char>, Seq<u8>), rest: Seq<u8>)
    requires
        n > 0,
        spec_take_kv_entry(b) == Some((p, rest)),
    ensures
        spec_decode_kv_entries(b, n) == opt_prepend_kv(
            seq![p],
            spec_decode_kv_entries(rest, (n - 1) as nat),
        ),
{
    if spec_decode_kv_entries(rest, (n - 1) as nat) is Some {
    } else {
    }
}

proof fn lemma_decode_profile_entries_step(b: Seq<u8>, n: nat, p: (Seq<char>, u64), rest: Seq<u8>)
    requires
        n > 0,
        spec_take_profile_entry(b) == Some((p, rest)),
    ensures
        spec_decode_profile_entries(b, n) == opt_prepend_profile(
            seq![p],
            spec_decode_profile_entries(rest, (n - 1) as nat),
        ),
{
    if spec_decode_profile_entries(rest, (n - 1) as nat) is Some {
    } else {
    }
}

proof fn lemma_opt_prepend_kv_assoc(
    a: Seq<(Seq<char>, Seq<u8>)>,
    p: (Seq<char>, Seq<u8>),
    o: Option<(Seq<(Seq<char>, Seq<u8>)>, Seq<u8>)>,
)
    ensures
        opt_prepend_kv(a, opt_prepend_kv(seq![p], o)) == opt_prepend_kv(a.push(p), o),
{
    match o {
        Some((s, rest)) => {
            assert(a + (seq![p] + s) =~= a.push(p) + s);
        },
        None => {},
    }
}

proof fn lemma_opt_prepend_profile_assoc(
    a: Seq<(Seq<char>, u64)>,
    p: (Seq<char>, u64),
    o: Option<(Seq<(Seq<char>, u64)>, Seq<u8>)>,
)
    ensures
        opt_prepend_profile(a, opt_prepend_profile(seq![p], o)) == opt_prepend_profile(
            a.push(p),
            o,
        ),
{
    match o {
        Some((s, rest)) => {
            assert(a + (seq![p] + s) =~= a.push(p) + s);
        },
        None => {},
    }
}

/// Read an 8-byte little-endian integer at `pos`.
fn read_u64(bytes: &Vec<u8>, pos: usize) -> (r: Option<(u64, usize)>)
    requires
        pos <= bytes@.len(),
    ensures
        match r {
            Some((x, p2)) => p2 == pos + 8 && p2 <= bytes@.len() && spec_take_u64(
                bytes@.skip(pos as int),
            ) == Some((x, bytes@.skip(p2 as int))),
            None => spec_take_u64(bytes@.skip(pos as int)) is None,
        },
{
    if bytes.len() - pos >= 8 {
        let x = u64_from_le_bytes(slice_subrange(bytes.as_slice(), pos, pos + 8));
        proof {
            assert(bytes@.subrange(pos as int, pos + 8) =~= bytes@.skip(pos as int).take(8));
            assert(bytes@.skip(pos as int).skip(8) =~= bytes@.skip(pos + 8));
        }
        Some((x, pos + 8))
    } else {
        None
    }
}

/// Read a length-prefixed block at `pos`.
fn read_block(bytes: &Vec<u8>, pos: usize) -> (r: Option<(Vec<u8>, usize)>)
    requires
        pos <= bytes@.len(),
    ensures
        match r {
            Some((blk, p2)) => pos + 8 <= p2 <= bytes@.len() && spec_take_block(
                bytes@.skip(pos as int),
            ) == Some((blk@, bytes@.skip(p2 as int))),
            None => spec_take_block(bytes@.skip(pos as int)) is None,
        },
{
    match read_u64(bytes, pos) {
        Some((n, p1)) => {
            let rem = bytes.len() - p1;
            if n <= rem as u64 {
                let n_us = n as usize;
                let blk = slice_to_vec(slice_subrange(bytes.as_slice(), p1, p1 + n_us));
                proof {
                    assert(bytes@.subrange(p1 as int, (p1 + n_us) as int) =~= bytes@.skip(
                        p1 as int,
                    ).take(n as int));
                    assert(bytes@.skip(p1 as int).skip(n as int) =~= bytes@.skip(
                        (p1 + n_us) as int,
                    ));
                }
                Some((blk, p1 + n_us))
            } else {
                None
            }
        },
        None => None,
    }
}

/// Relies on `String::from_utf8`: it returns `Ok` exactly when the bytes are
/// valid UTF-8, and then the returned string is the one those bytes encode.
#[verifier::external_body]
fn string_from_bytes(b: Vec<u8>) -> (r: Option<String>)
    ensures
        r is Some <==> valid_utf8(b@),
        r matches Some(s) ==> s@ == decode_utf8(b@),
{
    String::from_utf8(b).ok()
}

/// Does some key occur twice among the entries?
fn has_duplicate(entries: &Vec<(String, Vec<u8>)>) -> (r: bool)
    ensures
        r == !unique_keys(pairs_of(entries@)),
{
    let ghost pr = pairs_of(entries@);
    let n = entries.len();
    let mut i: usize = 0;
    while i < n
        invariant
            n == pr.len(),
            pr == pairs_of(entries@),
            i <= n,
            forall|a: int, b: int| 0 <= a < b < n && a < i ==> pr[a].0 != pr[b].0,
        decreases n - i,
    {
        let mut j: usize = i + 1;
        while j < n
            invariant
                n == pr.len(),
                pr == pairs_of(entries@),
                i < n,
                i + 1 <= j <= n,
                forall|b: int| i < b < j ==> pr[i as int].0 != pr[b].0,
            decreases n - j,
        {
            if entries[i].0 == entries[j].0 {
                proof {
                    assert(pr[i as int].0 == pr[j as int].0);
                }
                return true;
            }
            j += 1;
        }
        i += 1;
    }
    false
}

/// Decode a key-value snapshot; `None` exactly when the bytes are not the
/// encoding of a well-formed store.
pub fn decode_kv(bytes: &Vec<u8>) -> (r: Option<KvStore>)
    ensures
        match r {
            Some(st) => st.wf() && spec_decode_kv(bytes@) == Some(st.pairs()),
            None => spec_decode_kv(bytes@) is None,
        },
{
    proof {
        assert(bytes@.skip(0) =~= bytes@);
    }
    match read_u64(bytes, 0) {
        None => None,
        Some((count, start)) => {
            let mut entries: Vec<(String, Vec<u8>)> = Vec::new();
            let mut pos = start;
            let mut i: u64 = 0;
            proof {
                assert(pairs_of(entries@) =~= Seq::<(Seq<char>, Seq<u8>)>::empty());
                assert(Seq::<(Seq<char>, Seq<u8>)>::empty() + pairs_of(entries@) =~= pairs_of(
                    entries@,
                ));
            }
            while i < count
                invariant
                    pos <= bytes@.len(),
                    i <= count,
                    start == 8,
                    spec_take_u64(bytes@) == Some((count, bytes@.skip(8))),
                    spec_decode_kv_entries(bytes@.skip(8), count as nat) == opt_prepend_kv(
                        pairs_of(entries@),
                        spec_decode_kv_entries(bytes@.skip(pos as int), (count - i) as nat),
                    ),
                decreases count - i,
            {
                let ghost acc = pairs_of(entries@);
                let ghost m = (count - i) as nat;
                match read_block(bytes, pos) {
                    None => {
                        return None;
                    },
                    Some((kb, p1)) => {
                        match string_from_bytes(kb) {
                            None => {
                                return None;
                            },
                            Some(key) => {
                                match read_block(bytes, p1) {
                                    None => {
                                        return None;
                                    },
                                    Some((vb, p2)) => {
                                        proof {
                                            let p = (key@, vb@);
                                            assert(spec_take_kv_entry(bytes@.skip(pos as int))
                                                == Some((p, bytes@.skip(p2 as int))));
                                            lemma_decode_kv_entries_step(
                                                bytes@.skip(pos as int),
                                                m,
                                                p,
                                                bytes@.skip(p2 as int),
                                            );
                                            lemma_opt_prepend_kv_assoc(
                                                acc,
                                                p,
                                                spec_decode_kv_entries(
                                                    bytes@.skip(p2 as int),
                                                    (m - 1) as nat,
                                                ),
                                            );
                                        }
                                        entries.push((key, vb));
                                        proof {
                                            assert(pairs_of(entries@) =~= acc.push(
                                                (entries@.last().0@, entries@.last().1@),
                                            ));
                                        }
                                        pos = p2;
                                        i += 1;
                                    },
                                }
                            },
                        }
                    },
                }
            }
            if pos != bytes.len() {
                proof {
                    assert(bytes@.skip(pos as int).len() > 0);
                }
                return None;
            }
            proof {
                assert(bytes@.skip(pos as int).len() == 0);
                assert(pairs_of(entries@) + Seq::<(Seq<char>, Seq<u8>)>::empty() =~= pairs_of(
                    entries@,
                ));
            }
            if has_duplicate(&entries) {
                return None;
            }
            Some(KvStore::from_entries(entries))
        },
    }
}

/// Decode a profile snapshot; `None` exactly when the bytes are not the
/// encoding of a record sequence.
pub fn decode_profiles(bytes: &Vec<u8>) -> (r: Option<ProfileStore>)
    ensures
        match r {
            Some(st) => spec_decode_profiles(bytes@) == Some(st@),
            None => spec_decode_profiles(bytes@) is None,
        },
{
    proof {
        assert(bytes@.skip(0) =~= bytes@);
    }
    match read_u64(bytes, 0) {
        None => None,
        Some((count, start)) => {
            let mut profiles: Vec<Profile> = Vec::new();
            let mut pos = start;
            let mut i: u64 = 0;
            proof {
                assert(records_of(profiles@) =~= Seq::<(Seq<char>, u64)>::empty());
                assert(Seq::<(Seq<char>, u64)>::empty() + records_of(profiles@) =~= records_of(
                    profiles@,
                ));
            }
            while i < count
                invariant
                    pos <= bytes@.len(),
                    i <= count,
                    start == 8,
                    spec_take_u64(bytes@) == Some((count, bytes@.skip(8))),
                    spec_decode_profile_entries(bytes@.skip(8), count as nat)
                        == opt_prepend_profile(
                        records_of(profiles@),
                        spec_decode_profile_entries(bytes@.skip(pos as int), (count - i) as nat),
                    ),
                decreases count - i,
            {
                let ghost acc = records_of(profiles@);
                let ghost m = (count - i) as nat;
                match read_block(bytes, pos) {
                    None => {
                        return None;
                    },
                    Some((nb, p1)) => {
                        match string_from_bytes(nb) {
                            None => {
                                return None;
                            },
                            Some(name) => {
                                match read_u64(bytes, p1) {
                                    None => {
                                        return None;
                                    },
                                    Some((age, p2)) => {
                                        proof {
                                            let p = (name@, age);
                                            assert(spec_take_profile_entry(
                                                bytes@.skip(pos as int),
                                            ) == Some((p, bytes@.skip(p2 as int))));
                                            lemma_decode_profile_entries_step(
                                                bytes@.skip(pos as int),
                                                m,
                                                p,
                                                bytes@.skip(p2 as int),
                                            );
                                            lemma_opt_prepend_profile_assoc(
                                                acc,
                                                p,
                                                spec_decode_profile_entries(
                                                    bytes@.skip(p2 as int),
                                                    (m - 1) as nat,
                                                ),
                                            );
                                        }
                                        profiles.push(Profile { name, age });
                                        proof {
                                            assert(records_of(profiles@) =~= acc.push(
                                                profiles@.last()@,
                                            ));
                                        }
                                        pos = p2;
                                        i += 1;
                                    },
                                }
                            },
                        }
                    },
                }
            }
            if pos != bytes.len() {
                proof {
                    assert(bytes@.skip(pos as int).len() > 0);
                }
                return None;
            }
            proof {
                assert(bytes@.skip(pos as int).len() == 0);
                assert(records_of(profiles@) + Seq::<(Seq<char>, u64)>::empty() =~= records_of(
                    profiles@,
                ));
            }
            Some(ProfileStore::from_profiles(profiles))
        },
    }
}

} // verus!
