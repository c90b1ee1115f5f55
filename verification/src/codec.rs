//! The canonical textual form of a [`Key`]: four zero-padded decimal digits
//! for the generation, an underscore, and twelve zero-padded decimal digits
//! for the offset. The encoding is chosen so that the lexicographic order of
//! encoded keys agrees with the natural order of the keys themselves, which
//! lexicographically ordered backends rely on.

use vstd::prelude::*;
use vstd::assert_seqs_equal;
use crate::{Key, FormatError, key_lt};

verus! {

/// An ASCII decimal digit.
pub open spec fn is_digit(c: u8) -> bool {
    48 <= c && c <= 57
}

/// Every byte of `s` is an ASCII decimal digit.
pub open spec fn digits_ok(s: Seq<u8>) -> bool {
    forall|i: int| 0 <= i < s.len() ==> is_digit(s[i])
}

/// Ten to the power `e`.
pub open spec fn pow10(e: nat) -> int
    decreases e,
{
    if e == 0 {
        1
    } else {
        10 * pow10((e - 1) as nat)
    }
}

/// The last `w` decimal digits of `n`, zero-padded, as ASCII bytes.
/// For `0 <= n < pow10(w)` this is the full zero-padded representation.
pub open spec fn dec_digits(n: int, w: nat) -> Seq<u8>
    decreases w,
{
    if w == 0 {
        Seq::empty()
    } else {
        dec_digits(n / 10, (w - 1) as nat).push((48 + n % 10) as u8)
    }
}

/// The number denoted by a sequence of ASCII decimal digits.
pub open spec fn parse_dec(s: Seq<u8>) -> int
    decreases s.len(),
{
    if s.len() == 0 {
        0
    } else {
        parse_dec(s.drop_last()) * 10 + (s.last() - 48)
    }
}

/// Strict lexicographic order on byte sequences.
pub open spec fn lex_lt(s: Seq<u8>, t: Seq<u8>) -> bool
    decreases s.len(),
{
    if t.len() == 0 {
        false
    } else if s.len() == 0 {
        true
    } else if s[0] < t[0] {
        true
    } else if s[0] > t[0] {
        false
    } else {
        lex_lt(s.drop_first(), t.drop_first())
    }
}

/// A key whose fields fit the fixed widths of the canonical encoding.
pub open spec fn key_fits(k: Key) -> bool {
    (k.0 as int) < pow10(4) && (k.1 as int) < pow10(12)
}

/// The canonical encoding of a key.
pub open spec fn spec_encode(k: Key) -> Seq<u8> {
    dec_digits(k.0 as int, 4) + seq![95u8] + dec_digits(k.1 as int, 12)
}

/// A byte sequence of the exact shape the codec produces.
pub open spec fn valid_encoding(s: Seq<u8>) -> bool {
    &&& s.len() == 17
    &&& s[4] == 95u8
    &&& digits_ok(s.subrange(0, 4))
    &&& digits_ok(s.subrange(5, 17))
}

/// What decoding yields: the key denoted by a well-shaped sequence, or
/// nothing for malformed input.
pub open spec fn spec_decode(s: Seq<u8>) -> Option<Key> {
    if valid_encoding(s) {
        Some(
            Key(
                parse_dec(s.subrange(0, 4)) as u16,
                parse_dec(s.subrange(5, 17)) as u64,
            ),
        )
    } else {
        None
    }
}

/// The numeric values of the powers of ten the codec uses.
pub proof fn lemma_pow10_vals()
    ensures
        pow10(0) == 1,
        pow10(1) == 10,
        pow10(2) == 100,
        pow10(3) == 1000,
        pow10(4) == 10000,
        pow10(5) == 100000,
        pow10(6) == 1000000,
        pow10(7) == 10000000,
        pow10(8) == 100000000,
        pow10(9) == 1000000000,
        pow10(10) == 10000000000,
        pow10(11) == 100000000000,
        pow10(12) == 1000000000000,
{
    assert(pow10(0) == 1);
    assert(pow10(1) == 10);
    assert(pow10(2) == 100);
    assert(pow10(3) == 1000);
    assert(pow10(4) == 10000);
    assert(pow10(5) == 100000);
    assert(pow10(6) == 1000000);
    assert(pow10(7) == 10000000);
    assert(pow10(8) == 100000000);
    assert(pow10(9) == 1000000000);
    assert(pow10(10) == 10000000000);
    assert(pow10(11) == 100000000000);
    assert(pow10(12) == 1000000000000);
}

/// `dec_digits` produces exactly `w` digit bytes.
pub proof fn lemma_dec_digits_shape(n: int, w: nat)
    requires
        0 <= n,
    ensures
        dec_digits(n, w).len() == w,
        digits_ok(dec_digits(n, w)),
    decreases w,
{
    if w > 0 {
        lemma_dec_digits_shape(n / 10, (w - 1) as nat);
        assert(0 <= n % 10 < 10);
    }
}

/// A digit string denotes a value below ten to its length.
pub proof fn lemma_parse_bound(s: Seq<u8>)
    requires
        digits_ok(s),
    ensures
        0 <= parse_dec(s) < pow10(s.len()),
    decreases s.len(),
{
    if s.len() > 0 {
        assert(digits_ok(s.drop_last())) by {
            assert(forall|i: int| 0 <= i < s.len() - 1 ==> s.drop_last()[i] == s[i]);
        }
        lemma_parse_bound(s.drop_last());
        assert(is_digit(s.last()));
        assert(pow10(s.len()) == 10 * pow10((s.len() - 1) as nat));
    }
}

/// Parsing inverts formatting: the digits of `n` denote `n` again.
pub proof fn lemma_parse_dec_digits(n: int, w: nat)
    requires
        0 <= n < pow10(w),
    ensures
        parse_dec(dec_digits(n, w)) == n,
    decreases w,
{
    if w == 0 {
        assert(n == 0);
    } else {
        let rest = dec_digits(n / 10, (w - 1) as nat);
        lemma_dec_digits_shape(n / 10, (w - 1) as nat);
        assert(pow10(w) == 10 * pow10((w - 1) as nat));
        assert(n / 10 < pow10((w - 1) as nat)) by {
            assert(n < 10 * pow10((w - 1) as nat));
            assert(n / 10 <= n) by (nonlinear_arith)
                requires 0 <= n;
            assert((n / 10) * 10 <= n) by (nonlinear_arith)
                requires 0 <= n;
            assert(n / 10 < pow10((w - 1) as nat)) by (nonlinear_arith)
                requires (n / 10) * 10 <= n, n < 10 * pow10((w - 1) as nat);
        }
        lemma_parse_dec_digits(n / 10, (w - 1) as nat);
        let s = dec_digits(n, w);
        assert(s == rest.push((48 + n % 10) as u8));
        assert(s.drop_last() == rest) by {
            assert_seqs_equal!(s.drop_last(), rest);
        }
        assert(s.last() == (48 + n % 10) as u8);
        assert(parse_dec(s) == (n / 10) * 10 + n % 10);
        assert((n / 10) * 10 + n % 10 == n) by (nonlinear_arith)
            requires 0 <= n;
    }
}

/// Each digit of the formatted value, by position.
pub proof fn lemma_dec_digits_index(n: int, w: nat, i: int)
    requires
        0 <= n,
        0 <= i < w,
    ensures
        dec_digits(n, w)[i] == (48 + (n / pow10((w - 1 - i) as nat)) % 10) as u8,
    decreases w,
{
    lemma_dec_digits_shape(n, w);
    lemma_dec_digits_shape(n / 10, (w - 1) as nat);
    let rest = dec_digits(n / 10, (w - 1) as nat);
    if i == w - 1 {
        assert(pow10(0) == 1);
        assert(dec_digits(n, w)[i] == (48 + n % 10) as u8);
        assert(n / 1 == n);
    } else {
        assert(dec_digits(n, w)[i] == rest[i]);
        lemma_dec_digits_index(n / 10, (w - 1) as nat, i);
        let e = (w - 2 - i) as nat;
        assert(rest[i] == (48 + ((n / 10) / pow10(e)) % 10) as u8);
        assert(pow10(e) > 0) by {
            lemma_pow10_positive(e);
        }
        assert((n / 10) / pow10(e) == n / (10 * pow10(e))) by {
            vstd::arithmetic::div_mod::lemma_div_denominator(n, 10, pow10(e));
        }
        assert(10 * pow10(e) == pow10((e + 1) as nat));
        assert((w - 1 - i) as nat == (e + 1) as nat);
    }
}

/// Powers of ten are positive.
pub proof fn lemma_pow10_positive(e: nat)
    ensures
        pow10(e) > 0,
    decreases e,
{
    if e > 0 {
        lemma_pow10_positive((e - 1) as nat);
    }
}

/// Two equal-length sequences with one byte appended to each are equal
/// exactly when the originals and the appended bytes are.
pub proof fn lemma_push_eq(x: Seq<u8>, y: Seq<u8>, a: u8, b: u8)
    requires
        x.len() == y.len(),
    ensures
        (x.push(a) == y.push(b)) <==> (x == y && a == b),
{
    if x.push(a) == y.push(b) {
        assert(a == x.push(a)[x.len() as int]);
        assert(b == y.push(b)[y.len() as int]);
        assert forall|i: int| 0 <= i < x.len() implies x[i] == y[i] by {
            assert(x[i] == x.push(a)[i]);
            assert(y[i] == y.push(b)[i]);
        }
        assert(x =~= y);
    }
    if x == y && a == b {
        assert(x.push(a) =~= y.push(b));
    }
}

/// Appending one byte to each of two equal-length sequences refines the
/// lexicographic comparison: the old bytes decide, and on a tie the new
/// bytes do.
pub proof fn lemma_lex_push(s: Seq<u8>, t: Seq<u8>, a: u8, b: u8)
    requires
        s.len() == t.len(),
    ensures
        lex_lt(s.push(a), t.push(b)) <==> (lex_lt(s, t) || (s == t && a < b)),
    decreases s.len(),
{
    let sp = s.push(a);
    let tp = t.push(b);
    if s.len() == 0 {
        assert(sp[0] == a && tp[0] == b);
        if a == b {
            assert(sp.drop_first() == Seq::<u8>::empty()) by {
                assert_seqs_equal!(sp.drop_first(), Seq::<u8>::empty());
            }
            assert(tp.drop_first() == Seq::<u8>::empty()) by {
                assert_seqs_equal!(tp.drop_first(), Seq::<u8>::empty());
            }
            assert(!lex_lt(Seq::<u8>::empty(), Seq::<u8>::empty()));
            assert(!lex_lt(sp, tp));
        }
        assert(s == t) by {
            assert_seqs_equal!(s, t);
        }
        assert(!lex_lt(s, t));
    } else {
        let sdf = s.drop_first();
        let tdf = t.drop_first();
        assert(sp[0] == s[0] && tp[0] == t[0]);
        if s[0] == t[0] {
            assert(sp.drop_first() == sdf.push(a)) by {
                assert_seqs_equal!(sp.drop_first(), sdf.push(a));
            }
            assert(tp.drop_first() == tdf.push(b)) by {
                assert_seqs_equal!(tp.drop_first(), tdf.push(b));
            }
            lemma_lex_push(sdf, tdf, a, b);
            if sdf == tdf {
                assert forall|i: int| 0 <= i < s.len() implies s[i] == t[i] by {
                    if i > 0 {
                        assert(s[i] == sdf[i - 1]);
                        assert(t[i] == tdf[i - 1]);
                    }
                }
                assert(s =~= t);
            }
            if s == t {
                assert(sdf =~= tdf);
            }
        } else {
            assert(s != t);
            assert(lex_lt(sp, tp) <==> s[0] < t[0]);
            assert(lex_lt(s, t) <==> s[0] < t[0]);
        }
    }
}

/// On equal-length digit strings, lexicographic order is numeric order,
/// and equality of strings is equality of values.
pub proof fn lemma_lex_parse(s: Seq<u8>, t: Seq<u8>)
    requires
        s.len() == t.len(),
        digits_ok(s),
        digits_ok(t),
    ensures
        lex_lt(s, t) <==> parse_dec(s) < parse_dec(t),
        (s == t) <==> parse_dec(s) == parse_dec(t),
    decreases s.len(),
{
    if s.len() == 0 {
        assert(s == t) by {
            assert_seqs_equal!(s, t);
        }
    } else {
        let ds = s.drop_last();
        let dt = t.drop_last();
        assert(digits_ok(ds) && digits_ok(dt)) by {
            assert(forall|i: int| 0 <= i < ds.len() ==> ds[i] == s[i]);
            assert(forall|i: int| 0 <= i < dt.len() ==> dt[i] == t[i]);
        }
        lemma_lex_parse(ds, dt);
        lemma_parse_bound(ds);
        lemma_parse_bound(dt);
        let a = s.last();
        let b = t.last();
        assert(s == ds.push(a)) by {
            assert_seqs_equal!(s, ds.push(a));
        }
        assert(t == dt.push(b)) by {
            assert_seqs_equal!(t, dt.push(b));
        }
        lemma_lex_push(ds, dt, a, b);
        let p = parse_dec(ds);
        let q = parse_dec(dt);
        assert(parse_dec(s) == p * 10 + (a - 48));
        assert(parse_dec(t) == q * 10 + (b - 48));
        assert(is_digit(a) && is_digit(b));
        if p < q {
            assert(p * 10 + 10 <= q * 10);
        } else if p > q {
            assert(q * 10 + 10 <= p * 10);
        }
        lemma_push_eq(ds, dt, a, b);
    }
}

/// Lexicographic comparison of equal-width concatenations: the left parts
/// decide, and on a tie the right parts do.
pub proof fn lemma_lex_concat(u: Seq<u8>, u2: Seq<u8>, v: Seq<u8>, v2: Seq<u8>)
    requires
        u.len() == u2.len(),
        v.len() == v2.len(),
    ensures
        lex_lt(u + v, u2 + v2) <==> (lex_lt(u, u2) || (u == u2 && lex_lt(v, v2))),
        (u + v == u2 + v2) <==> (u == u2 && v == v2),
    decreases v.len(),
{
    if v.len() == 0 {
        assert(u + v == u) by {
            assert_seqs_equal!(u + v, u);
        }
        assert(u2 + v2 == u2) by {
            assert_seqs_equal!(u2 + v2, u2);
        }
        assert(v == v2) by {
            assert_seqs_equal!(v, v2);
        }
        assert(!lex_lt(v, v2));
    } else {
        let dv = v.drop_last();
        let dv2 = v2.drop_last();
        let a = v.last();
        let b = v2.last();
        assert(u + v == (u + dv).push(a)) by {
            assert_seqs_equal!(u + v, (u + dv).push(a));
        }
        assert(u2 + v2 == (u2 + dv2).push(b)) by {
            assert_seqs_equal!(u2 + v2, (u2 + dv2).push(b));
        }
        lemma_lex_push(u + dv, u2 + dv2, a, b);
        lemma_push_eq(u + dv, u2 + dv2, a, b);
        lemma_lex_concat(u, u2, dv, dv2);
        assert(v == dv.push(a)) by {
            assert_seqs_equal!(v, dv.push(a));
        }
        assert(v2 == dv2.push(b)) by {
            assert_seqs_equal!(v2, dv2.push(b));
        }
        lemma_lex_push(dv, dv2, a, b);
        lemma_push_eq(dv, dv2, a, b);
    }
}

/// Round trip: decoding the encoding of a fitting key yields the key again.
pub proof fn lemma_key_round_trip(k: Key)
    requires
        key_fits(k),
    ensures
        spec_decode(spec_encode(k)) == Some(k),
{
    let s = spec_encode(k);
    let g = dec_digits(k.0 as int, 4);
    let o = dec_digits(k.1 as int, 12);
    lemma_dec_digits_shape(k.0 as int, 4);
    lemma_dec_digits_shape(k.1 as int, 12);
    assert(s.len() == 17);
    assert(s[4] == 95u8);
    assert(s.subrange(0, 4) == g) by {
        assert_seqs_equal!(s.subrange(0, 4), g);
    }
    assert(s.subrange(5, 17) == o) by {
        assert_seqs_equal!(s.subrange(5, 17), o);
    }
    lemma_parse_dec_digits(k.0 as int, 4);
    lemma_parse_dec_digits(k.1 as int, 12);
    lemma_pow10_vals();
}

/// The order on keys agrees with the lexicographic order of their
/// encodings.
pub proof fn lemma_key_order_matches_encoding(a: Key, b: Key)
    requires
        key_fits(a),
        key_fits(b),
    ensures
        key_lt(a, b) <==> lex_lt(spec_encode(a), spec_encode(b)),
{
    let ga = dec_digits(a.0 as int, 4);
    let gb = dec_digits(b.0 as int, 4);
    let oa = dec_digits(a.1 as int, 12);
    let ob = dec_digits(b.1 as int, 12);
    lemma_dec_digits_shape(a.0 as int, 4);
    lemma_dec_digits_shape(b.0 as int, 4);
    lemma_dec_digits_shape(a.1 as int, 12);
    lemma_dec_digits_shape(b.1 as int, 12);
    let ua = ga + seq![95u8];
    let ub = gb + seq![95u8];
    assert(spec_encode(a) == ua + oa) by {
        assert_seqs_equal!(spec_encode(a), ua + oa);
    }
    assert(spec_encode(b) == ub + ob) by {
        assert_seqs_equal!(spec_encode(b), ub + ob);
    }
    lemma_lex_concat(ua, ub, oa, ob);
    lemma_lex_concat(ga, gb, seq![95u8], seq![95u8]);
    assert(!lex_lt(seq![95u8], seq![95u8])) by {
        let w = seq![95u8];
        assert(w.drop_first() == Seq::<u8>::empty()) by {
            assert_seqs_equal!(w.drop_first(), Seq::<u8>::empty());
        }
        assert(!lex_lt(Seq::<u8>::empty(), Seq::<u8>::empty()));
    }
    lemma_lex_parse(ga, gb);
    lemma_lex_parse(oa, ob);
    lemma_parse_dec_digits(a.0 as int, 4);
    lemma_parse_dec_digits(b.0 as int, 4);
    lemma_parse_dec_digits(a.1 as int, 12);
    lemma_parse_dec_digits(b.1 as int, 12);
}

/// Reads the decimal number written at `bytes[start..end]`, or reports
/// that some byte there is not a digit.
fn parse_range(bytes: &[u8], start: usize, end: usize) -> (r: Option<u64>)
    requires
        start <= end,
        end <= bytes@.len(),
        end - start <= 12,
    ensures
        match r {
            Some(v) => {
                &&& digits_ok(bytes@.subrange(start as int, end as int))
                &&& v as int == parse_dec(bytes@.subrange(start as int, end as int))
            },
            None => !digits_ok(bytes@.subrange(start as int, end as int)),
        },
{
    proof {
        lemma_pow10_vals();
    }
    let mut acc: u64 = 0;
    let mut i: usize = start;
    while i < end
        invariant
            start <= i <= end,
            end <= bytes@.len(),
            end - start <= 12,
            digits_ok(bytes@.subrange(start as int, i as int)),
            acc as int == parse_dec(bytes@.subrange(start as int, i as int)),
            (acc as int) < pow10((i - start) as nat),
            pow10(12) == 1000000000000,
        decreases end - i,
    {
        let c = bytes[i];
        if c < 48 || c > 57 {
            proof {
                let whole = bytes@.subrange(start as int, end as int);
                assert(whole[i - start] == bytes@[i as int]);
                assert(!is_digit(whole[i - start]));
            }
            return None;
        }
        proof {
            let pre = bytes@.subrange(start as int, i as int);
            let cur = bytes@.subrange(start as int, i + 1);
            assert(cur.drop_last() == pre) by {
                assert_seqs_equal!(cur.drop_last(), pre);
            }
            assert(cur.last() == bytes@[i as int]);
            assert(pow10((i + 1 - start) as nat) == 10 * pow10((i - start) as nat));
            lemma_pow10_vals();
            assert(pow10((i - start) as nat) <= pow10(11)) by {
                lemma_pow10_increases((i - start) as nat, 11);
            }
        }
        acc = acc * 10 + ((c - 48) as u64);
        i = i + 1;
    }
    Some(acc)
}

/// Powers of ten do not decrease with the exponent.
pub proof fn lemma_pow10_increases(a: nat, b: nat)
    requires
        a <= b,
    ensures
        pow10(a) <= pow10(b),
    decreases b,
{
    if a < b {
        lemma_pow10_increases(a, (b - 1) as nat);
        lemma_pow10_positive((b - 1) as nat);
    }
}

impl Key {
    /// The canonical fixed-width text of this key: four digits of
    /// generation, an underscore, twelve digits of offset.
    pub fn encode(&self) -> (out: Vec<u8>)
        requires
            key_fits(*self),
        ensures
            out@ == spec_encode(*self),
    {
        let g: u16 = self.0;
        let o: u64 = self.1;
        let mut out: Vec<u8> = Vec::new();
        out.push(48 + ((g / 1000) % 10) as u8);
        out.push(48 + ((g / 100) % 10) as u8);
        out.push(48 + ((g / 10) % 10) as u8);
        out.push(48 + (g % 10) as u8);
        out.push(95);
        out.push(48 + ((o / 100000000000) % 10) as u8);
        out.push(48 + ((o / 10000000000) % 10) as u8);
        out.push(48 + ((o / 1000000000) % 10) as u8);
        out.push(48 + ((o / 100000000) % 10) as u8);
        out.push(48 + ((o / 10000000) % 10) as u8);
        out.push(48 + ((o / 1000000) % 10) as u8);
        out.push(48 + ((o / 100000) % 10) as u8);
        out.push(48 + ((o / 10000) % 10) as u8);
        out.push(48 + ((o / 1000) % 10) as u8);
        out.push(48 + ((o / 100) % 10) as u8);
        out.push(48 + ((o / 10) % 10) as u8);
        out.push(48 + (o % 10) as u8);
        proof {
            lemma_pow10_vals();
            let gi = g as int;
            let oi = o as int;
            assert forall|j: int| 0 <= j < 4 implies
                dec_digits(gi, 4)[j] == (48 + (gi / pow10((3 - j) as nat)) % 10) as u8 by {
                lemma_dec_digits_index(gi, 4, j);
            }
            assert forall|j: int| 0 <= j < 12 implies
                dec_digits(oi, 12)[j] == (48 + (oi / pow10((11 - j) as nat)) % 10) as u8 by {
                lemma_dec_digits_index(oi, 12, j);
            }
            lemma_dec_digits_shape(gi, 4);
            lemma_dec_digits_shape(oi, 12);
            assert(gi / 1 == gi);
            assert(oi / 1 == oi);
            assert_seqs_equal!(out@, spec_encode(*self));
        }
        out
    }

    /// Parses the canonical text back into a key; malformed input is
    /// rejected with a [`FormatError`].
    pub fn decode(bytes: &[u8]) -> (r: Result<Key, FormatError>)
        ensures
            match r {
                Ok(k) => spec_decode(bytes@) == Some(k) && key_fits(k),
                Err(_) => spec_decode(bytes@) is None,
            },
    {
        if bytes.len() != 17 {
            return Err(FormatError);
        }
        if bytes[4] != 95 {
            return Err(FormatError);
        }
        let gv = match parse_range(bytes, 0, 4) {
            Some(v) => v,
            None => {
                return Err(FormatError);
            },
        };
        let ov = match parse_range(bytes, 5, 17) {
            Some(v) => v,
            None => {
                return Err(FormatError);
            },
        };
        proof {
            lemma_pow10_vals();
            lemma_parse_bound(bytes@.subrange(0, 4));
            lemma_parse_bound(bytes@.subrange(5, 17));
        }
        Ok(Key(gv as u16, ov))
    }
}

} // verus!
