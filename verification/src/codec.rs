//! The key codec: composite keys are concatenations of typed components
//! with no separator. Every component except a trailing unsized string has
//! a fixed size or a self-delimiting length prefix, so composite keys form
//! a prefix code and lexicographic byte order equals component-tuple order.
//!
//! Component encodings:
//! - identifier: fixed 16 bytes;
//! - type label: one length byte `L` (1..=255) followed by `L` bytes;
//! - datetime: fixed 8 bytes, big-endian unsigned milliseconds;
//! - property name: raw bytes, legal only as the final component.

use vstd::prelude::*;

use crate::types::{valid_type, Datetime, Id, Type};

verus! {

// ---------------------------------------------------------------------------
// Spec: byte-level orders and integer encodings
// ---------------------------------------------------------------------------

/// Strict lexicographic order on byte strings, as the ordered key-value
/// store compares keys.
pub open spec fn lex_lt(a: Seq<u8>, b: Seq<u8>) -> bool
    decreases a.len(),
{
    if b.len() == 0 {
        false
    } else if a.len() == 0 {
        true
    } else if a[0] != b[0] {
        a[0] < b[0]
    } else {
        lex_lt(a.skip(1), b.skip(1))
    }
}

/// 256 raised to `k`: the number of distinct `k`-byte strings.
pub open spec fn pow256(k: nat) -> nat
    decreases k,
{
    if k == 0 {
        1
    } else {
        256 * pow256((k - 1) as nat)
    }
}

/// The `k`-byte big-endian encoding of `n` (mod 256^k).
pub open spec fn be_bytes(n: nat, k: nat) -> Seq<u8>
    decreases k,
{
    if k == 0 {
        Seq::empty()
    } else {
        be_bytes(n / 256, (k - 1) as nat).push((n % 256) as u8)
    }
}

/// The unsigned integer a big-endian byte string denotes.
pub open spec fn from_be(s: Seq<u8>) -> nat
    decreases s.len(),
{
    if s.len() == 0 {
        0
    } else {
        from_be(s.drop_last()) * 256 + s.last() as nat
    }
}

// ---------------------------------------------------------------------------
// Spec: component and key encodings
// ---------------------------------------------------------------------------

/// A type label encodes as its length byte followed by its bytes.
pub open spec fn type_enc(t: Seq<u8>) -> Seq<u8> {
    seq![t.len() as u8] + t
}

/// Key of a vertex row: the bare identifier.
pub open spec fn vertex_key(id: Seq<u8>) -> Seq<u8> {
    id
}

/// Key of an edge row: `(outbound, type, inbound)`.
pub open spec fn edge_key(o: Seq<u8>, t: Seq<u8>, i: Seq<u8>) -> Seq<u8> {
    o + type_enc(t) + i
}

/// Key of a range row: `(first, type, datetime, second)`.
pub open spec fn range_key(f: Seq<u8>, t: Seq<u8>, d: u64, s: Seq<u8>) -> Seq<u8> {
    f + type_enc(t) + be_bytes(d as nat, 8) + s
}

/// The prefix of all range rows of one `(first, type)` pair.
pub open spec fn range_prefix(f: Seq<u8>, t: Seq<u8>) -> Seq<u8> {
    f + type_enc(t)
}

/// Key of a vertex property row: `(vertex, name)`.
pub open spec fn vertex_prop_key(v: Seq<u8>, name: Seq<u8>) -> Seq<u8> {
    v + name
}

/// Key of an edge property row: `(outbound, type, inbound, name)`.
pub open spec fn edge_prop_key(o: Seq<u8>, t: Seq<u8>, i: Seq<u8>, name: Seq<u8>) -> Seq<u8> {
    o + type_enc(t) + i + name
}

// ---------------------------------------------------------------------------
// Spec: structural parses, consuming components from the front
// ---------------------------------------------------------------------------

/// Consume a 16-byte identifier; yield it and the remainder.
pub open spec fn parse_id(k: Seq<u8>) -> Option<(Seq<u8>, Seq<u8>)> {
    if k.len() >= 16 {
        Some((k.subrange(0, 16), k.skip(16)))
    } else {
        None
    }
}

/// Consume a length-prefixed type label; the length byte must be nonzero.
pub open spec fn parse_type(k: Seq<u8>) -> Option<(Seq<u8>, Seq<u8>)> {
    if k.len() >= 1 && k[0] >= 1 && 1 + k[0] as int <= k.len() {
        Some((k.subrange(1, 1 + k[0] as int), k.skip(1 + k[0] as int)))
    } else {
        None
    }
}

/// Consume an 8-byte big-endian datetime.
pub open spec fn parse_datetime(k: Seq<u8>) -> Option<(u64, Seq<u8>)> {
    if k.len() >= 8 {
        Some((from_be(k.subrange(0, 8)) as u64, k.skip(8)))
    } else {
        None
    }
}

/// Parse a whole vertex-row key.
pub open spec fn parse_vertex_key(k: Seq<u8>) -> Option<Seq<u8>> {
    if k.len() == 16 {
        Some(k)
    } else {
        None
    }
}

/// Parse a whole edge-row key into `(outbound, type, inbound)`.
pub open spec fn parse_edge_key(k: Seq<u8>) -> Option<(Seq<u8>, Seq<u8>, Seq<u8>)> {
    match parse_id(k) {
        Some((o, r1)) => match parse_type(r1) {
            Some((t, r2)) => match parse_id(r2) {
                Some((i, r3)) => if r3.len() == 0 {
                    Some((o, t, i))
                } else {
                    None
                },
                None => None,
            },
            None => None,
        },
        None => None,
    }
}

/// Parse a whole range-row key into `(first, type, datetime, second)`.
pub open spec fn parse_range_key(k: Seq<u8>) -> Option<(Seq<u8>, Seq<u8>, u64, Seq<u8>)> {
    match parse_id(k) {
        Some((f, r1)) => match parse_type(r1) {
            Some((t, r2)) => match parse_datetime(r2) {
                Some((d, r3)) => match parse_id(r3) {
                    Some((s, r4)) => if r4.len() == 0 {
                        Some((f, t, d, s))
                    } else {
                        None
                    },
                    None => None,
                },
                None => None,
            },
            None => None,
        },
        None => None,
    }
}

/// Whether a value byte string is exactly one encoded type label.
pub open spec fn valid_type_value(v: Seq<u8>) -> bool {
    parse_type(v) is Some && parse_type(v).unwrap().1.len() == 0
}

/// Parse a whole vertex-property key into `(vertex, name)`.
pub open spec fn parse_vertex_prop_key(k: Seq<u8>) -> Option<(Seq<u8>, Seq<u8>)> {
    parse_id(k)
}

/// Parse a whole edge-property key into `(outbound, type, inbound, name)`.
pub open spec fn parse_edge_prop_key(k: Seq<u8>) -> Option<(Seq<u8>, Seq<u8>, Seq<u8>, Seq<u8>)> {
    match parse_id(k) {
        Some((o, r1)) => match parse_type(r1) {
            Some((t, r2)) => match parse_id(r2) {
                Some((i, name)) => Some((o, t, i, name)),
                None => None,
            },
            None => None,
        },
        None => None,
    }
}

// ---------------------------------------------------------------------------
// Proof: facts about the integer encoding
// ---------------------------------------------------------------------------

pub proof fn lemma_be_len(n: nat, k: nat)
    ensures
        be_bytes(n, k).len() == k,
    decreases k,
{
    if k > 0 {
        lemma_be_len(n / 256, (k - 1) as nat);
    }
}

pub proof fn lemma_pow256_8()
    ensures
        pow256(8) == 0x1_0000_0000_0000_0000,
{
    reveal_with_fuel(pow256, 9);
}

pub proof fn lemma_pow256_increases(i: nat, j: nat)
    requires
        i <= j,
    ensures
        pow256(i) <= pow256(j),
    decreases j,
{
    if i < j {
        lemma_pow256_increases(i, (j - 1) as nat);
    }
}

/// Decoding inverts encoding for every value that fits in `k` bytes.
pub proof fn lemma_from_be_be(n: nat, k: nat)
    requires
        n < pow256(k),
    ensures
        from_be(be_bytes(n, k)) == n,
    decreases k,
{
    if k > 0 {
        let q = n / 256;
        let r = n % 256;
        vstd::arithmetic::div_mod::lemma_fundamental_div_mod(n as int, 256);
        assert(q < pow256((k - 1) as nat)) by {
            if q >= pow256((k - 1) as nat) {
                vstd::arithmetic::mul::lemma_mul_inequality(
                    pow256((k - 1) as nat) as int,
                    q as int,
                    256,
                );
            }
        }
        lemma_from_be_be(q, (k - 1) as nat);
        lemma_be_len(q, (k - 1) as nat);
        assert(be_bytes(n, k).drop_last() =~= be_bytes(q, (k - 1) as nat));
        assert(be_bytes(n, k).last() == (r as u8));
    }
}

/// A `k`-byte string denotes a value below 256^k.
pub proof fn lemma_from_be_bound(s: Seq<u8>)
    ensures
        from_be(s) < pow256(s.len()),
    decreases s.len(),
{
    if s.len() > 0 {
        lemma_from_be_bound(s.drop_last());
    }
}

/// Appending one byte to each of two same-length strings refines the
/// lexicographic comparison: the old order wins unless the strings were
/// equal, in which case the new bytes decide.
pub proof fn lemma_lex_push(a: Seq<u8>, b: Seq<u8>, x: u8, y: u8)
    requires
        a.len() == b.len(),
    ensures
        lex_lt(a.push(x), b.push(y)) <==> (lex_lt(a, b) || (a == b && x < y)),
    decreases a.len(),
{
    reveal_with_fuel(lex_lt, 3);
    if a.len() == 0 {
        assert(a =~= b);
        assert(a.push(x)[0] == x);
        assert(b.push(y)[0] == y);
        if x == y {
            assert(a.push(x).skip(1) =~= Seq::<u8>::empty());
            assert(b.push(y).skip(1) =~= Seq::<u8>::empty());
            assert(!lex_lt(Seq::<u8>::empty(), Seq::<u8>::empty()));
        }
    } else {
        assert(a.push(x)[0] == a[0]);
        assert(b.push(y)[0] == b[0]);
        if a[0] != b[0] {
            assert(lex_lt(a.push(x), b.push(y)) <==> a[0] < b[0]);
            assert(lex_lt(a, b) <==> a[0] < b[0]);
        } else {
            assert(a.push(x).skip(1) =~= a.skip(1).push(x));
            assert(b.push(y).skip(1) =~= b.skip(1).push(y));
            lemma_lex_push(a.skip(1), b.skip(1), x, y);
            if a.skip(1) == b.skip(1) {
                assert forall|m: int| 0 <= m < a.len() implies a[m] == b[m] by {
                    if m > 0 {
                        assert(a[m] == a.skip(1)[m - 1]);
                        assert(b[m] == b.skip(1)[m - 1]);
                    }
                }
                assert(a =~= b);
            }
            if a == b {
                assert(a.skip(1) =~= b.skip(1));
            }
            assert(lex_lt(a.push(x), b.push(y)) <==> lex_lt(
                a.skip(1).push(x),
                b.skip(1).push(y),
            ));
            assert(lex_lt(a, b) <==> lex_lt(a.skip(1), b.skip(1)));
        }
    }
}

/// Big-endian encoding of equal widths preserves numeric order.
pub proof fn lemma_be_order(n1: nat, n2: nat, k: nat)
    requires
        n1 < n2,
        n2 < pow256(k),
    ensures
        lex_lt(be_bytes(n1, k), be_bytes(n2, k)),
    decreases k,
{
    if k == 0 {
        assert(false);
    } else {
        let q1 = n1 / 256;
        let r1 = n1 % 256;
        let q2 = n2 / 256;
        let r2 = n2 % 256;
        vstd::arithmetic::div_mod::lemma_fundamental_div_mod(n1 as int, 256);
        vstd::arithmetic::div_mod::lemma_fundamental_div_mod(n2 as int, 256);
        assert(q2 < pow256((k - 1) as nat)) by {
            if q2 >= pow256((k - 1) as nat) {
                vstd::arithmetic::mul::lemma_mul_inequality(
                    pow256((k - 1) as nat) as int,
                    q2 as int,
                    256,
                );
            }
        }
        assert(q1 <= q2) by {
            if q1 > q2 {
                vstd::arithmetic::mul::lemma_mul_inequality(q2 as int + 1, q1 as int, 256);
            }
        }
        lemma_be_len(q1, (k - 1) as nat);
        lemma_be_len(q2, (k - 1) as nat);
        if q1 == q2 {
            lemma_lex_push(
                be_bytes(q1, (k - 1) as nat),
                be_bytes(q2, (k - 1) as nat),
                (r1 as u8),
                (r2 as u8),
            );
        } else {
            lemma_be_order(q1, q2, (k - 1) as nat);
            lemma_lex_push(
                be_bytes(q1, (k - 1) as nat),
                be_bytes(q2, (k - 1) as nat),
                (r1 as u8),
                (r2 as u8),
            );
        }
    }
}

// ---------------------------------------------------------------------------
// Proof: every key shape parses back to the components that built it
// ---------------------------------------------------------------------------

pub proof fn lemma_parse_id_concat(x: Seq<u8>, rest: Seq<u8>)
    requires
        x.len() == 16,
    ensures
        parse_id(x + rest) == Some((x, rest)),
{
    assert((x + rest).subrange(0, 16) =~= x);
    assert((x + rest).skip(16) =~= rest);
}

pub proof fn lemma_parse_type_concat(t: Seq<u8>, rest: Seq<u8>)
    requires
        valid_type(t),
    ensures
        parse_type(type_enc(t) + rest) == Some((t, rest)),
{
    let k = type_enc(t) + rest;
    assert(k[0] == t.len() as u8);
    assert(k[0] as int == t.len());
    assert(k.subrange(1, 1 + t.len() as int) =~= t);
    assert(k.skip(1 + t.len() as int) =~= rest);
}

pub proof fn lemma_parse_datetime_concat(d: u64, rest: Seq<u8>)
    ensures
        parse_datetime(be_bytes(d as nat, 8) + rest) == Some((d, rest)),
{
    let k = be_bytes(d as nat, 8) + rest;
    lemma_be_len(d as nat, 8);
    lemma_pow256_8();
    lemma_from_be_be(d as nat, 8);
    assert(k.subrange(0, 8) =~= be_bytes(d as nat, 8));
    assert(k.skip(8) =~= rest);
}

/// Round trip for edge keys.
pub proof fn lemma_edge_key_round_trip(o: Seq<u8>, t: Seq<u8>, i: Seq<u8>)
    requires
        o.len() == 16,
        valid_type(t),
        i.len() == 16,
    ensures
        parse_edge_key(edge_key(o, t, i)) == Some((o, t, i)),
{
    let k = edge_key(o, t, i);
    assert(k =~= o + (type_enc(t) + i));
    lemma_parse_id_concat(o, type_enc(t) + i);
    lemma_parse_type_concat(t, i);
    assert(i =~= i + Seq::<u8>::empty());
    lemma_parse_id_concat(i, Seq::<u8>::empty());
}

/// Round trip for range keys.
pub proof fn lemma_range_key_round_trip(f: Seq<u8>, t: Seq<u8>, d: u64, s: Seq<u8>)
    requires
        f.len() == 16,
        valid_type(t),
        s.len() == 16,
    ensures
        parse_range_key(range_key(f, t, d, s)) == Some((f, t, d, s)),
{
    let k = range_key(f, t, d, s);
    let tail1 = type_enc(t) + (be_bytes(d as nat, 8) + s);
    assert(k =~= f + tail1);
    lemma_parse_id_concat(f, tail1);
    lemma_parse_type_concat(t, be_bytes(d as nat, 8) + s);
    lemma_parse_datetime_concat(d, s);
    assert(s =~= s + Seq::<u8>::empty());
    lemma_parse_id_concat(s, Seq::<u8>::empty());
}

/// Round trip for vertex property keys.
pub proof fn lemma_vertex_prop_key_round_trip(v: Seq<u8>, name: Seq<u8>)
    requires
        v.len() == 16,
    ensures
        parse_vertex_prop_key(vertex_prop_key(v, name)) == Some((v, name)),
{
    lemma_parse_id_concat(v, name);
}

/// Round trip for edge property keys.
pub proof fn lemma_edge_prop_key_round_trip(o: Seq<u8>, t: Seq<u8>, i: Seq<u8>, name: Seq<u8>)
    requires
        o.len() == 16,
        valid_type(t),
        i.len() == 16,
    ensures
        parse_edge_prop_key(edge_prop_key(o, t, i, name)) == Some((o, t, i, name)),
{
    let k = edge_prop_key(o, t, i, name);
    let tail1 = type_enc(t) + (i + name);
    assert(k =~= o + tail1);
    lemma_parse_id_concat(o, tail1);
    lemma_parse_type_concat(t, i + name);
    lemma_parse_id_concat(i, name);
}

/// Range keys are injective in their components.
pub proof fn lemma_range_key_injective(
    f1: Seq<u8>,
    t1: Seq<u8>,
    d1: u64,
    s1: Seq<u8>,
    f2: Seq<u8>,
    t2: Seq<u8>,
    d2: u64,
    s2: Seq<u8>,
)
    requires
        f1.len() == 16,
        valid_type(t1),
        s1.len() == 16,
        f2.len() == 16,
        valid_type(t2),
        s2.len() == 16,
        range_key(f1, t1, d1, s1) == range_key(f2, t2, d2, s2),
    ensures
        f1 == f2 && t1 == t2 && d1 == d2 && s1 == s2,
{
    lemma_range_key_round_trip(f1, t1, d1, s1);
    lemma_range_key_round_trip(f2, t2, d2, s2);
}

/// Edge keys are injective in their components.
pub proof fn lemma_edge_key_injective(
    o1: Seq<u8>,
    t1: Seq<u8>,
    i1: Seq<u8>,
    o2: Seq<u8>,
    t2: Seq<u8>,
    i2: Seq<u8>,
)
    requires
        o1.len() == 16,
        valid_type(t1),
        i1.len() == 16,
        o2.len() == 16,
        valid_type(t2),
        i2.len() == 16,
        edge_key(o1, t1, i1) == edge_key(o2, t2, i2),
    ensures
        o1 == o2 && t1 == t2 && i1 == i2,
{
    lemma_edge_key_round_trip(o1, t1, i1);
    lemma_edge_key_round_trip(o2, t2, i2);
}

// ---------------------------------------------------------------------------
// Exec: encoding
// ---------------------------------------------------------------------------

/// Append the 16 identifier bytes.
fn push_id(out: &mut Vec<u8>, id: &Id)
    ensures
        final(out)@ == old(out)@ + id@,
{
    let ghost orig = out@;
    let mut j: usize = 0;
    while j < 16
        invariant
            j <= 16,
            out@ == orig + id@.take(j as int),
        decreases 16 - j,
    {
        let b = id.bytes[j];
        assert(id@.take(j as int).push(b) =~= id@.take(j + 1));
        out.push(b);
        j += 1;
    }
    assert(orig + id@.take(16) =~= orig + id@);
}

/// Append a length-prefixed type label.
fn push_type(out: &mut Vec<u8>, t: &Type)
    requires
        valid_type(t@),
    ensures
        final(out)@ == old(out)@ + type_enc(t@),
{
    let ghost orig = out@;
    let len_byte: u8 = t.bytes.len() as u8;
    out.push(len_byte);
    let mut j: usize = 0;
    while j < t.bytes.len()
        invariant
            j <= t@.len(),
            valid_type(t@),
            out@ == orig + seq![t@.len() as u8] + t@.take(j as int),
        decreases t@.len() - j,
    {
        let b = t.bytes[j];
        assert(t@.take(j as int).push(b) =~= t@.take(j + 1));
        out.push(b);
        j += 1;
    }
    assert(orig + seq![t@.len() as u8] + t@.take(t@.len() as int) =~= orig + type_enc(t@));
}

/// Append an 8-byte big-endian datetime.
fn push_datetime(out: &mut Vec<u8>, d: Datetime)
    ensures
        final(out)@ == old(out)@ + be_bytes(d.millis as nat, 8),
{
    let ghost orig = out@;
    let x0: u64 = d.millis;
    let x1: u64 = x0 / 256;
    let x2: u64 = x1 / 256;
    let x3: u64 = x2 / 256;
    let x4: u64 = x3 / 256;
    let x5: u64 = x4 / 256;
    let x6: u64 = x5 / 256;
    let x7: u64 = x6 / 256;
    out.push((x7 % 256) as u8);
    out.push((x6 % 256) as u8);
    out.push((x5 % 256) as u8);
    out.push((x4 % 256) as u8);
    out.push((x3 % 256) as u8);
    out.push((x2 % 256) as u8);
    out.push((x1 % 256) as u8);
    out.push((x0 % 256) as u8);
    proof {
        reveal_with_fuel(be_bytes, 10);
        assert(x7 / 256 == 0) by {
            vstd::arithmetic::div_mod::lemma_fundamental_div_mod(x0 as int, 256);
        }
        assert(out@ =~= orig + be_bytes(x0 as nat, 8));
    }
}

/// Append a raw property name.
fn push_name(out: &mut Vec<u8>, name: &Vec<u8>)
    ensures
        final(out)@ == old(out)@ + name@,
{
    let ghost orig = out@;
    let mut j: usize = 0;
    while j < name.len()
        invariant
            j <= name@.len(),
            out@ == orig + name@.take(j as int),
        decreases name@.len() - j,
    {
        let b = name[j];
        assert(name@.take(j as int).push(b) =~= name@.take(j + 1));
        out.push(b);
        j += 1;
    }
    assert(orig + name@.take(name@.len() as int) =~= orig + name@);
}

/// Build a vertex-row key.
pub fn build_vertex_key(id: &Id) -> (r: Vec<u8>)
    ensures
        r@ == vertex_key(id@),
{
    let mut out: Vec<u8> = Vec::new();
    push_id(&mut out, id);
    assert(out@ =~= vertex_key(id@));
    out
}

/// Build an edge-row key.
pub fn build_edge_key(o: &Id, t: &Type, i: &Id) -> (r: Vec<u8>)
    requires
        valid_type(t@),
    ensures
        r@ == edge_key(o@, t@, i@),
{
    let mut out: Vec<u8> = Vec::new();
    push_id(&mut out, o);
    push_type(&mut out, t);
    push_id(&mut out, i);
    assert(out@ =~= edge_key(o@, t@, i@));
    out
}

/// Build a range-row key.
pub fn build_range_key(f: &Id, t: &Type, d: Datetime, s: &Id) -> (r: Vec<u8>)
    requires
        valid_type(t@),
    ensures
        r@ == range_key(f@, t@, d.millis, s@),
{
    let mut out: Vec<u8> = Vec::new();
    push_id(&mut out, f);
    push_type(&mut out, t);
    push_datetime(&mut out, d);
    push_id(&mut out, s);
    assert(out@ =~= range_key(f@, t@, d.millis, s@));
    out
}

/// Build the shared prefix of one `(first, type)` range.
pub fn build_range_prefix(f: &Id, t: &Type) -> (r: Vec<u8>)
    requires
        valid_type(t@),
    ensures
        r@ == range_prefix(f@, t@),
{
    let mut out: Vec<u8> = Vec::new();
    push_id(&mut out, f);
    push_type(&mut out, t);
    assert(out@ =~= range_prefix(f@, t@));
    out
}

/// Build a vertex-property key.
pub fn build_vertex_prop_key(v: &Id, name: &Vec<u8>) -> (r: Vec<u8>)
    ensures
        r@ == vertex_prop_key(v@, name@),
{
    let mut out: Vec<u8> = Vec::new();
    push_id(&mut out, v);
    push_name(&mut out, name);
    assert(out@ =~= vertex_prop_key(v@, name@));
    out
}

/// Build an edge-property key.
pub fn build_edge_prop_key(o: &Id, t: &Type, i: &Id, name: &Vec<u8>) -> (r: Vec<u8>)
    requires
        valid_type(t@),
    ensures
        r@ == edge_prop_key(o@, t@, i@, name@),
{
    let mut out: Vec<u8> = Vec::new();
    push_id(&mut out, o);
    push_type(&mut out, t);
    push_id(&mut out, i);
    push_name(&mut out, name);
    assert(out@ =~= edge_prop_key(o@, t@, i@, name@));
    out
}

/// Build the value of a vertex row: the encoded type label.
pub fn build_type_value(t: &Type) -> (r: Vec<u8>)
    requires
        valid_type(t@),
    ensures
        r@ == type_enc(t@),
{
    let mut out: Vec<u8> = Vec::new();
    push_type(&mut out, t);
    assert(out@ =~= type_enc(t@));
    out
}

/// Build the value of an edge row: the encoded datetime.
pub fn build_datetime_value(d: Datetime) -> (r: Vec<u8>)
    ensures
        r@ == be_bytes(d.millis as nat, 8),
{
    let mut out: Vec<u8> = Vec::new();
    push_datetime(&mut out, d);
    assert(out@ =~= be_bytes(d.millis as nat, 8));
    out
}

// ---------------------------------------------------------------------------
// Exec: decoding
// ---------------------------------------------------------------------------

/// Whether `p` is a byte prefix of `k`.
pub fn has_prefix(k: &Vec<u8>, p: &Vec<u8>) -> (r: bool)
    ensures
        r <==> p@.is_prefix_of(k@),
{
    if k.len() < p.len() {
        assert(!p@.is_prefix_of(k@));
        return false;
    }
    let mut j: usize = 0;
    while j < p.len()
        invariant
            j <= p@.len() <= k@.len(),
            forall|m: int| 0 <= m < j ==> k@[m] == p@[m],
        decreases p@.len() - j,
    {
        if k[j] != p[j] {
            assert(!p@.is_prefix_of(k@));
            return false;
        }
        j += 1;
    }
    assert(p@ =~= k@.subrange(0, p@.len() as int));
    true
}

/// Read the 16 identifier bytes at `pos`.
fn read_id(k: &Vec<u8>, pos: usize) -> (r: Option<(Id, usize)>)
    requires
        pos <= k@.len(),
    ensures
        match r {
            Some((id, newpos)) => parse_id(k@.skip(pos as int)) is Some
                && id@ == parse_id(k@.skip(pos as int)).unwrap().0
                && newpos == pos + 16
                && k@.skip(newpos as int) == parse_id(k@.skip(pos as int)).unwrap().1,
            None => parse_id(k@.skip(pos as int)) is None,
        },
{
    if k.len() - pos < 16 {
        return None;
    }
    assert(k@.len() <= usize::MAX) by {
        assert(k.len() <= usize::MAX);
    }
    let mut bytes: [u8; 16] = [0; 16];
    let mut j: usize = 0;
    while j < 16
        invariant
            j <= 16,
            pos + 16 <= k@.len(),
            k@.len() <= usize::MAX,
            forall|m: int| 0 <= m < j ==> bytes@[m] == k@[pos + m],
        decreases 16 - j,
    {
        bytes[j] = k[pos + j];
        j += 1;
    }
    let id = Id { bytes };
    proof {
        let rest = k@.skip(pos as int);
        assert(id@ =~= rest.subrange(0, 16));
        assert(k@.skip(pos as int + 16) =~= rest.skip(16));
    }
    Some((id, pos + 16))
}

/// Read a length-prefixed type label at `pos`.
fn read_type(k: &Vec<u8>, pos: usize) -> (r: Option<(Type, usize)>)
    requires
        pos <= k@.len(),
    ensures
        match r {
            Some((t, newpos)) => parse_type(k@.skip(pos as int)) is Some
                && t@ == parse_type(k@.skip(pos as int)).unwrap().0
                && valid_type(t@)
                && pos < newpos <= k@.len()
                && k@.skip(newpos as int) == parse_type(k@.skip(pos as int)).unwrap().1,
            None => parse_type(k@.skip(pos as int)) is None,
        },
{
    if k.len() == pos {
        return None;
    }
    let len_byte: u8 = k[pos];
    if len_byte < 1 {
        return None;
    }
    let l: usize = len_byte as usize;
    if k.len() - pos - 1 < l {
        proof {
            let rest = k@.skip(pos as int);
            assert(rest[0] == len_byte);
        }
        return None;
    }
    assert(k@.len() <= usize::MAX) by {
        assert(k.len() <= usize::MAX);
    }
    let mut bytes: Vec<u8> = Vec::new();
    let mut j: usize = 0;
    while j < l
        invariant
            j <= l,
            l == len_byte as int,
            len_byte >= 1,
            pos + 1 + l <= k@.len(),
            k@.len() <= usize::MAX,
            bytes@.len() == j,
            forall|m: int| 0 <= m < j ==> bytes@[m] == k@[pos + 1 + m],
        decreases l - j,
    {
        bytes.push(k[pos + 1 + j]);
        j += 1;
    }
    let t = Type { bytes };
    proof {
        let rest = k@.skip(pos as int);
        assert(rest[0] == len_byte);
        assert(t@ =~= rest.subrange(1, 1 + len_byte as int));
        assert(k@.skip(pos as int + 1 + l as int) =~= rest.skip(1 + len_byte as int));
    }
    Some((t, pos + 1 + l))
}

/// Read an 8-byte big-endian datetime at `pos`.
fn read_datetime(k: &Vec<u8>, pos: usize) -> (r: Option<(Datetime, usize)>)
    requires
        pos <= k@.len(),
    ensures
        match r {
            Some((d, newpos)) => parse_datetime(k@.skip(pos as int)) is Some
                && d.millis == parse_datetime(k@.skip(pos as int)).unwrap().0
                && newpos == pos + 8
                && k@.skip(newpos as int) == parse_datetime(k@.skip(pos as int)).unwrap().1,
            None => parse_datetime(k@.skip(pos as int)) is None,
        },
{
    if k.len() - pos < 8 {
        return None;
    }
    assert(k@.len() <= usize::MAX) by {
        assert(k.len() <= usize::MAX);
    }
    let ghost rest = k@.skip(pos as int);
    let ghost window = rest.subrange(0, 8);
    let mut acc: u64 = 0;
    let mut j: usize = 0;
    while j < 8
        invariant
            j <= 8,
            pos + 8 <= k@.len(),
            k@.len() <= usize::MAX,
            rest == k@.skip(pos as int),
            window == rest.subrange(0, 8),
            acc as nat == from_be(window.take(j as int)),
        decreases 8 - j,
    {
        proof {
            lemma_from_be_bound(window.take(j as int));
            lemma_pow256_increases(j as nat, 7);
            lemma_pow256_8();
            assert(pow256(7) * 256 == pow256(8)) by {
                reveal_with_fuel(pow256, 9);
            }
        }
        let b = k[pos + j];
        proof {
            assert(window.take(j as int).push(b) =~= window.take(j + 1));
        }
        acc = acc * 256 + (b as u64);
        proof {
            assert(window.take(j + 1).drop_last() =~= window.take(j as int));
        }
        j += 1;
    }
    proof {
        assert(window.take(8) =~= window);
        lemma_from_be_bound(window);
        lemma_pow256_8();
        assert(k@.skip(pos as int + 8) =~= rest.skip(8));
    }
    Some((Datetime { millis: acc }, pos + 8))
}

/// Decode a vertex-row key.
pub fn decode_vertex_key(k: &Vec<u8>) -> (r: Option<Id>)
    ensures
        match r {
            Some(id) => parse_vertex_key(k@) == Some(id@),
            None => parse_vertex_key(k@) is None,
        },
{
    if k.len() != 16 {
        return None;
    }
    assert(k@.skip(0) =~= k@);
    match read_id(k, 0) {
        Some((id, _)) => {
            proof {
                assert(id@ =~= k@);
            }
            Some(id)
        },
        None => None,
    }
}

/// Decode an edge-row key into `(outbound, type, inbound)`.
pub fn decode_edge_key(k: &Vec<u8>) -> (r: Option<(Id, Type, Id)>)
    ensures
        match r {
            Some((o, t, i)) => parse_edge_key(k@) == Some((o@, t@, i@)) && valid_type(t@),
            None => parse_edge_key(k@) is None,
        },
{
    assert(k@.skip(0) =~= k@);
    let (o, p1) = match read_id(k, 0) {
        Some(x) => x,
        None => {
            return None;
        },
    };
    let (t, p2) = match read_type(k, p1) {
        Some(x) => x,
        None => {
            return None;
        },
    };
    let (i, p3) = match read_id(k, p2) {
        Some(x) => x,
        None => {
            return None;
        },
    };
    if p3 != k.len() {
        proof {
            assert(k@.skip(p3 as int).len() != 0);
        }
        return None;
    }
    proof {
        assert(k@.skip(p3 as int).len() == 0);
    }
    Some((o, t, i))
}

/// Decode a range-row key into `(first, type, datetime, second)`.
pub fn decode_range_key(k: &Vec<u8>) -> (r: Option<(Id, Type, Datetime, Id)>)
    ensures
        match r {
            Some((f, t, d, s)) => parse_range_key(k@) == Some((f@, t@, d.millis, s@))
                && valid_type(t@),
            None => parse_range_key(k@) is None,
        },
{
    assert(k@.skip(0) =~= k@);
    let (f, p1) = match read_id(k, 0) {
        Some(x) => x,
        None => {
            return None;
        },
    };
    let (t, p2) = match read_type(k, p1) {
        Some(x) => x,
        None => {
            return None;
        },
    };
    let (d, p3) = match read_datetime(k, p2) {
        Some(x) => x,
        None => {
            return None;
        },
    };
    let (s, p4) = match read_id(k, p3) {
        Some(x) => x,
        None => {
            return None;
        },
    };
    if p4 != k.len() {
        proof {
            assert(k@.skip(p4 as int).len() != 0);
        }
        return None;
    }
    proof {
        assert(k@.skip(p4 as int).len() == 0);
    }
    Some((f, t, d, s))
}

/// Decode a vertex-property key into `(vertex, name)`.
pub fn decode_vertex_prop_key(k: &Vec<u8>) -> (r: Option<(Id, Vec<u8>)>)
    ensures
        match r {
            Some((v, name)) => parse_vertex_prop_key(k@) == Some((v@, name@)),
            None => parse_vertex_prop_key(k@) is None,
        },
{
    assert(k@.skip(0) =~= k@);
    let (v, p1) = match read_id(k, 0) {
        Some(x) => x,
        None => {
            return None;
        },
    };
    let name = read_rest(k, p1);
    Some((v, name))
}

/// Decode an edge-property key into `(outbound, type, inbound, name)`.
pub fn decode_edge_prop_key(k: &Vec<u8>) -> (r: Option<(Id, Type, Id, Vec<u8>)>)
    ensures
        match r {
            Some((o, t, i, name)) => parse_edge_prop_key(k@) == Some((o@, t@, i@, name@))
                && valid_type(t@),
            None => parse_edge_prop_key(k@) is None,
        },
{
    assert(k@.skip(0) =~= k@);
    let (o, p1) = match read_id(k, 0) {
        Some(x) => x,
        None => {
            return None;
        },
    };
    let (t, p2) = match read_type(k, p1) {
        Some(x) => x,
        None => {
            return None;
        },
    };
    let (i, p3) = match read_id(k, p2) {
        Some(x) => x,
        None => {
            return None;
        },
    };
    let name = read_rest(k, p3);
    Some((o, t, i, name))
}

/// Copy the remainder of a key from `pos` on: a trailing property name.
pub fn read_rest(k: &Vec<u8>, pos: usize) -> (r: Vec<u8>)
    requires
        pos <= k@.len(),
    ensures
        r@ == k@.skip(pos as int),
{
    let mut out: Vec<u8> = Vec::new();
    let mut j: usize = pos;
    while j < k.len()
        invariant
            pos <= j <= k@.len(),
            out@ == k@.subrange(pos as int, j as int),
        decreases k@.len() - j,
    {
        let b = k[j];
        assert(k@.subrange(pos as int, j as int).push(b) =~= k@.subrange(
            pos as int,
            j + 1,
        ));
        out.push(b);
        j += 1;
    }
    assert(k@.subrange(pos as int, k@.len() as int) =~= k@.skip(pos as int));
    out
}

/// Decode the value of a vertex row as a type label.
pub fn decode_type_value(v: &Vec<u8>) -> (r: Option<Type>)
    ensures
        match r {
            Some(t) => parse_type(v@) matches Some((tb, rest)) && t@ == tb && rest.len() == 0
                && valid_type(t@),
            None => parse_type(v@) is None || parse_type(v@).unwrap().1.len() != 0,
        },
{
    assert(v@.skip(0) =~= v@);
    let (t, p1) = match read_type(v, 0) {
        Some(x) => x,
        None => {
            return None;
        },
    };
    if p1 != v.len() {
        proof {
            assert(v@.skip(p1 as int).len() != 0);
        }
        return None;
    }
    proof {
        assert(v@.skip(p1 as int).len() == 0);
    }
    Some(t)
}

/// Decode the value of an edge row as a datetime.
pub fn decode_datetime_value(v: &Vec<u8>) -> (r: Option<Datetime>)
    ensures
        match r {
            Some(d) => v@.len() == 8 && be_bytes(d.millis as nat, 8) == v@,
            None => v@.len() != 8,
        },
{
    if v.len() != 8 {
        return None;
    }
    assert(v@.skip(0) =~= v@);
    match read_datetime(v, 0) {
        Some((d, _)) => {
            proof {
                assert(v@.subrange(0, 8) =~= v@);
                lemma_from_be_bound(v@);
                lemma_pow256_8();
                lemma_be_roundtrip_of_bytes(v@);
            }
            Some(d)
        },
        None => None,
    }
}

/// Encoding the value a byte string denotes gives back that string.
proof fn lemma_be_roundtrip_of_bytes(s: Seq<u8>)
    requires
        s.len() == 8,
    ensures
        be_bytes(from_be(s), 8) == s,
    decreases s.len(),
{
    lemma_be_of_from_be(s, 8);
}

/// For any `k`-byte string, encoding its value in `k` bytes is the identity.
pub proof fn lemma_be_of_from_be(s: Seq<u8>, k: nat)
    requires
        s.len() == k,
    ensures
        be_bytes(from_be(s), k) == s,
    decreases k,
{
    if k == 0 {
        assert(s =~= Seq::<u8>::empty());
        assert(be_bytes(from_be(s), 0) =~= s);
    } else {
        let n = from_be(s);
        let head = s.drop_last();
        let last = s.last();
        // n == from_be(head) * 256 + last, with last < 256
        vstd::arithmetic::div_mod::lemma_fundamental_div_mod(n as int, 256);
        assert(n / 256 == from_be(head) && n % 256 == last as nat) by {
            vstd::arithmetic::div_mod::lemma_fundamental_div_mod_converse(
                n as int,
                256,
                from_be(head) as int,
                last as int,
            );
        }
        lemma_be_of_from_be(head, (k - 1) as nat);
        assert(be_bytes(n, k) =~= s);
    }
}


/// A parsed range key is exactly the encoding of its components.
pub proof fn lemma_parse_range_key_recompose(k: Seq<u8>)
    requires
        parse_range_key(k) is Some,
    ensures
        ({
            let (f, t, d, s) = parse_range_key(k).unwrap();
            k == range_key(f, t, d, s) && f.len() == 16 && valid_type(t) && s.len() == 16
        }),
{
    let (f, t, d, s) = parse_range_key(k).unwrap();
    let r1 = k.skip(16);
    let l = r1[0] as int;
    let r2 = r1.skip(1 + l);
    let w = r2.subrange(0, 8);
    let r3 = r2.skip(8);
    lemma_from_be_bound(w);
    lemma_pow256_8();
    assert(d as nat == from_be(w));
    lemma_be_of_from_be(w, 8);
    assert(be_bytes(d as nat, 8) == w);
    assert(type_enc(t) =~= r1.subrange(0, 1 + l));
    assert(r3 =~= s);
    assert(k =~= f + type_enc(t) + be_bytes(d as nat, 8) + s);
}

/// A parsed edge key is exactly the encoding of its components.
pub proof fn lemma_parse_edge_key_recompose(k: Seq<u8>)
    requires
        parse_edge_key(k) is Some,
    ensures
        ({
            let (o, t, i) = parse_edge_key(k).unwrap();
            k == edge_key(o, t, i) && o.len() == 16 && valid_type(t) && i.len() == 16
        }),
{
    let (o, t, i) = parse_edge_key(k).unwrap();
    let r1 = k.skip(16);
    let l = r1[0] as int;
    let r2 = r1.skip(1 + l);
    assert(type_enc(t) =~= r1.subrange(0, 1 + l));
    assert(r2 =~= i);
    assert(k =~= o + type_enc(t) + i);
}

/// Under a known `(first, type)` prefix, a parse can only return those
/// components.
pub proof fn lemma_range_prefix_determines(k: Seq<u8>, f: Seq<u8>, t: Seq<u8>)
    requires
        f.len() == 16,
        valid_type(t),
        range_prefix(f, t).is_prefix_of(k),
        parse_range_key(k) is Some,
    ensures
        parse_range_key(k).unwrap().0 == f,
        parse_range_key(k).unwrap().1 == t,
{
    let p = range_prefix(f, t);
    assert(p.len() == 17 + t.len());
    assert(k.subrange(0, p.len() as int) == p);
    assert(forall|m: int| 0 <= m < p.len() ==> k[m] == p[m]) by {
        assert(forall|m: int|
            0 <= m < p.len() ==> k[m] == #[trigger] k.subrange(0, p.len() as int)[m]);
    }
    assert(forall|m: int| 0 <= m < 16 ==> p[m] == f[m]);
    assert(p[16] == t.len() as u8);
    assert(forall|m: int| 0 <= m < t.len() ==> p[17 + m] == t[m]);
    let (fp, tp, _, _) = parse_range_key(k).unwrap();
    let r1 = k.skip(16);
    assert(fp =~= f) by {
        assert(fp == k.subrange(0, 16));
    }
    assert(r1[0] == k[16]);
    assert(k[16] == t.len() as u8);
    let l = r1[0] as int;
    assert(l == t.len());
    assert(tp =~= t) by {
        assert(tp == r1.subrange(1, 1 + l));
        assert(forall|m: int| 0 <= m < t.len() ==> (#[trigger] r1.subrange(1, 1 + l)[m]) == k[17 + m]);
    }
}

/// Every key under an edge's prefix is an edge-property key of that edge.
pub proof fn lemma_edge_prop_prefix_parse(k: Seq<u8>, o: Seq<u8>, t: Seq<u8>, i: Seq<u8>)
    requires
        o.len() == 16,
        valid_type(t),
        i.len() == 16,
        edge_key(o, t, i).is_prefix_of(k),
    ensures
        parse_edge_prop_key(k) == Some(
            (o, t, i, k.skip(edge_key(o, t, i).len() as int)),
        ),
{
    let p = edge_key(o, t, i);
    let rest = k.skip(p.len() as int);
    assert(k.subrange(0, p.len() as int) == p);
    assert(k =~= p + rest) by {
        assert(forall|m: int|
            0 <= m < p.len() ==> k[m] == #[trigger] k.subrange(0, p.len() as int)[m]);
    }
    assert(edge_prop_key(o, t, i, rest) =~= p + rest);
    lemma_edge_prop_key_round_trip(o, t, i, rest);
}

/// Every key under a vertex's prefix is a vertex-property key of that
/// vertex.
pub proof fn lemma_vertex_prop_prefix_parse(k: Seq<u8>, v: Seq<u8>)
    requires
        v.len() == 16,
        v.is_prefix_of(k),
    ensures
        parse_vertex_prop_key(k) == Some((v, k.skip(16))),
{
    let rest = k.skip(16);
    assert(k.subrange(0, 16) == v);
    assert(k =~= v + rest) by {
        assert(forall|m: int| 0 <= m < 16 ==> k[m] == #[trigger] k.subrange(0, 16)[m]);
    }
    lemma_parse_id_concat(v, rest);
}


/// A value that is exactly one type label re-encodes from its parse.
pub proof fn lemma_type_value_recompose(v: Seq<u8>)
    requires
        valid_type_value(v),
    ensures
        v == type_enc(parse_type(v).unwrap().0),
        valid_type(parse_type(v).unwrap().0),
{
    let t = parse_type(v).unwrap().0;
    assert(t =~= v.subrange(1, 1 + v[0] as int));
    assert(v.skip(1 + v[0] as int).len() == 0);
    assert(v.len() == 1 + v[0] as int);
    assert(type_enc(t) =~= v);
}


// ---------------------------------------------------------------------------
// Proof: byte order of keys equals component-tuple order
// ---------------------------------------------------------------------------

/// The order the codec gives type labels: shorter labels first, equal
/// lengths bytewise — exactly the order their length-prefixed encodings
/// sort in.
pub open spec fn type_lt(t1: Seq<u8>, t2: Seq<u8>) -> bool {
    t1.len() < t2.len() || (t1.len() == t2.len() && lex_lt(t1, t2))
}

/// The component-tuple order on range rows that the key bytes realize:
/// first identifier, type label, instant, second identifier, in that
/// significance.
pub open spec fn range_tuple_lt(
    f1: Seq<u8>,
    t1: Seq<u8>,
    d1: u64,
    s1: Seq<u8>,
    f2: Seq<u8>,
    t2: Seq<u8>,
    d2: u64,
    s2: Seq<u8>,
) -> bool {
    ||| lex_lt(f1, f2)
    ||| (f1 == f2 && type_lt(t1, t2))
    ||| (f1 == f2 && t1 == t2 && d1 < d2)
    ||| (f1 == f2 && t1 == t2 && d1 == d2 && lex_lt(s1, s2))
}

pub proof fn lemma_lex_irrefl(a: Seq<u8>)
    ensures
        !lex_lt(a, a),
    decreases a.len(),
{
    if a.len() > 0 {
        lemma_lex_irrefl(a.skip(1));
    }
}

pub proof fn lemma_lex_asym(a: Seq<u8>, b: Seq<u8>)
    ensures
        lex_lt(a, b) ==> !lex_lt(b, a),
    decreases a.len(),
{
    if a.len() > 0 && b.len() > 0 && a[0] == b[0] {
        lemma_lex_asym(a.skip(1), b.skip(1));
    }
}

/// Equal heads drop out of a lexicographic comparison.
pub proof fn lemma_lex_eq_head(h: Seq<u8>, a: Seq<u8>, b: Seq<u8>)
    ensures
        lex_lt(h + a, h + b) <==> lex_lt(a, b),
    decreases h.len(),
{
    if h.len() == 0 {
        assert(h + a =~= a);
        assert(h + b =~= b);
    } else {
        assert((h + a)[0] == h[0]);
        assert((h + b)[0] == h[0]);
        assert((h + a).skip(1) =~= h.skip(1) + a);
        assert((h + b).skip(1) =~= h.skip(1) + b);
        lemma_lex_eq_head(h.skip(1), a, b);
    }
}

/// Distinct heads of one length decide a lexicographic comparison,
/// whatever follows them.
proof fn lemma_lex_lt_head(h1: Seq<u8>, h2: Seq<u8>, a: Seq<u8>, b: Seq<u8>)
    requires
        h1.len() == h2.len(),
        h1 != h2,
    ensures
        lex_lt(h1 + a, h2 + b) <==> lex_lt(h1, h2),
    decreases h1.len(),
{
    if h1.len() == 0 {
        assert(h1 =~= h2);
    } else if h1[0] != h2[0] {
        assert((h1 + a)[0] == h1[0]);
        assert((h2 + b)[0] == h2[0]);
    } else {
        assert((h1 + a)[0] == h1[0]);
        assert((h2 + b)[0] == h2[0]);
        assert((h1 + a).skip(1) =~= h1.skip(1) + a);
        assert((h2 + b).skip(1) =~= h2.skip(1) + b);
        assert(h1.skip(1) != h2.skip(1)) by {
            if h1.skip(1) == h2.skip(1) {
                assert forall|m: int| 0 <= m < h1.len() implies h1[m] == h2[m] by {
                    if m > 0 {
                        assert(h1[m] == h1.skip(1)[m - 1]);
                        assert(h2[m] == h2.skip(1)[m - 1]);
                    }
                }
                assert(h1 =~= h2);
            }
        }
        lemma_lex_lt_head(h1.skip(1), h2.skip(1), a, b);
    }
}

/// Law (key order): for well-formed components, lexicographic order of
/// the encoded range keys is exactly the component-tuple order. This is
/// what makes prefix-bounded, time-ordered scans correct.
pub proof fn lemma_range_key_order(
    f1: Seq<u8>,
    t1: Seq<u8>,
    d1: u64,
    s1: Seq<u8>,
    f2: Seq<u8>,
    t2: Seq<u8>,
    d2: u64,
    s2: Seq<u8>,
)
    requires
        f1.len() == 16,
        valid_type(t1),
        s1.len() == 16,
        f2.len() == 16,
        valid_type(t2),
        s2.len() == 16,
    ensures
        lex_lt(range_key(f1, t1, d1, s1), range_key(f2, t2, d2, s2)) <==> range_tuple_lt(
            f1,
            t1,
            d1,
            s1,
            f2,
            t2,
            d2,
            s2,
        ),
{
    let k1 = range_key(f1, t1, d1, s1);
    let k2 = range_key(f2, t2, d2, s2);
    let w1 = be_bytes(d1 as nat, 8);
    let w2 = be_bytes(d2 as nat, 8);
    lemma_be_len(d1 as nat, 8);
    lemma_be_len(d2 as nat, 8);
    let r1 = type_enc(t1) + (w1 + s1);
    let r2 = type_enc(t2) + (w2 + s2);
    assert(k1 =~= f1 + r1);
    assert(k2 =~= f2 + r2);
    if f1 != f2 {
        lemma_lex_lt_head(f1, f2, r1, r2);
    } else {
        lemma_lex_irrefl(f1);
        lemma_lex_eq_head(f1, r1, r2);
        if t1.len() != t2.len() {
            assert(r1[0] == t1.len() as u8);
            assert(r2[0] == t2.len() as u8);
            assert(r1.len() > 0 && r2.len() > 0);
            assert(lex_lt(r1, r2) <==> t1.len() < t2.len());
            assert(t1 != t2);
        } else if t1 != t2 {
            assert(type_enc(t1) != type_enc(t2)) by {
                if type_enc(t1) == type_enc(t2) {
                    assert forall|m: int| 0 <= m < t1.len() implies t1[m] == t2[m] by {
                        assert(type_enc(t1)[m + 1] == t1[m]);
                        assert(type_enc(t2)[m + 1] == t2[m]);
                    }
                    assert(t1 =~= t2);
                }
            }
            lemma_lex_lt_head(type_enc(t1), type_enc(t2), w1 + s1, w2 + s2);
            assert(type_enc(t1) =~= seq![t1.len() as u8] + t1);
            assert(type_enc(t2) =~= seq![t1.len() as u8] + t2);
            lemma_lex_eq_head(seq![t1.len() as u8], t1, t2);
        } else {
            lemma_lex_irrefl(t1);
            lemma_lex_eq_head(type_enc(t1), w1 + s1, w2 + s2);
            if d1 != d2 {
                assert(w1 != w2) by {
                    if w1 == w2 {
                        lemma_pow256_8();
                        lemma_from_be_be(d1 as nat, 8);
                        lemma_from_be_be(d2 as nat, 8);
                    }
                }
                lemma_lex_lt_head(w1, w2, s1, s2);
                lemma_pow256_8();
                if d1 < d2 {
                    lemma_be_order(d1 as nat, d2 as nat, 8);
                } else {
                    lemma_be_order(d2 as nat, d1 as nat, 8);
                    lemma_lex_asym(w2, w1);
                }
            } else {
                lemma_lex_eq_head(w1, s1, s2);
                if s1 == s2 {
                    lemma_lex_irrefl(s1);
                }
            }
        }
    }
}


/// Lexicographic order is total: distinct strings compare one way.
pub proof fn lemma_lex_total(a: Seq<u8>, b: Seq<u8>)
    ensures
        a == b || lex_lt(a, b) || lex_lt(b, a),
    decreases a.len(),
{
    if a.len() == 0 && b.len() == 0 {
        assert(a =~= b);
    } else if a.len() > 0 && b.len() > 0 && a[0] == b[0] {
        lemma_lex_total(a.skip(1), b.skip(1));
        if a.skip(1) == b.skip(1) {
            assert(a.skip(1).len() == a.len() - 1);
            assert(b.skip(1).len() == b.len() - 1);
            assert(a.len() == b.len());
            assert forall|m: int| 0 <= m < a.len() implies a[m] == b[m] by {
                if m > 0 {
                    assert(a[m] == a.skip(1)[m - 1]);
                    assert(b[m] == b.skip(1)[m - 1]);
                }
            }
            assert(a =~= b);
        }
    }
}

/// Lexicographic order is transitive.
pub proof fn lemma_lex_trans(a: Seq<u8>, b: Seq<u8>, c: Seq<u8>)
    requires
        lex_lt(a, b),
        lex_lt(b, c),
    ensures
        lex_lt(a, c),
    decreases a.len(),
{
    if a.len() > 0 {
        if a[0] == b[0] && b[0] == c[0] {
            lemma_lex_trans(a.skip(1), b.skip(1), c.skip(1));
        }
    }
}


/// Edge-property keys are injective in all four components.
pub proof fn lemma_edge_prop_key_injective(
    o1: Seq<u8>,
    t1: Seq<u8>,
    i1: Seq<u8>,
    n1: Seq<u8>,
    o2: Seq<u8>,
    t2: Seq<u8>,
    i2: Seq<u8>,
    n2: Seq<u8>,
)
    requires
        o1.len() == 16,
        valid_type(t1),
        i1.len() == 16,
        o2.len() == 16,
        valid_type(t2),
        i2.len() == 16,
        edge_prop_key(o1, t1, i1, n1) == edge_prop_key(o2, t2, i2, n2),
    ensures
        o1 == o2 && t1 == t2 && i1 == i2 && n1 == n2,
{
    lemma_edge_prop_key_round_trip(o1, t1, i1, n1);
    lemma_edge_prop_key_round_trip(o2, t2, i2, n2);
}

/// A vertex-property key determines its 16-byte owner: any 16-byte
/// prefix of it is the owner itself.
pub proof fn lemma_vertex_prop_key_injective(v: Seq<u8>, name: Seq<u8>, w: Seq<u8>)
    requires
        v.len() == 16,
        w.len() == 16,
        w.is_prefix_of(vertex_prop_key(v, name)),
    ensures
        w == v,
{
    let k = vertex_prop_key(v, name);
    assert(w =~= k.subrange(0, 16));
    assert(k.subrange(0, 16) =~= v);
}

} // verus!
