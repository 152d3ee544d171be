//! A plain record with two integer fields and its canonical textual form.
//!
//! The encoder produces exactly the canonical byte sequence
//! `{"x":<x>,"y":<y>}` with both numbers in decimal, no spaces, no leading
//! zeros, and a leading minus sign for negative values. The decoder accepts
//! exactly the canonical encodings and recovers the record; on every other
//! input it fails. Together the two contracts give the round trip: decoding
//! an encoding yields the original record.

use vstd::prelude::*;

verus! {

/// A plain record with two integer coordinates.
#[derive(Clone, Copy, Debug, PartialEq, Eq, Structural)]
pub struct Point {
    pub x: i32,
    pub y: i32,
}

/// Raised by the decoder on any input that is not a canonical encoding.
#[derive(Clone, Copy, Debug, PartialEq, Eq, Structural)]
pub enum DecodeError {
    Malformed,
}

/// The decimal digit bytes of `n`, most significant first, no leading zeros.
pub open spec fn decimal_digits(n: nat) -> Seq<u8>
    decreases n,
{
    if n < 10 {
        seq![(48 + n) as u8]
    } else {
        decimal_digits(n / 10).push((48 + n % 10) as u8)
    }
}

/// The magnitude of an integer.
pub open spec fn magnitude(x: int) -> nat {
    if x < 0 {
        (-x) as nat
    } else {
        x as nat
    }
}

/// The canonical decimal byte form of an integer: a minus sign (byte 45)
/// for negative values, then the digits of the magnitude.
pub open spec fn int_bytes(x: int) -> Seq<u8> {
    if x < 0 {
        seq![45u8] + decimal_digits(magnitude(x))
    } else {
        decimal_digits(magnitude(x))
    }
}

/// The canonical encoding of a point: `{"x":` then the first coordinate,
/// then `,"y":` then the second coordinate, then `}`.
pub open spec fn point_bytes(p: Point) -> Seq<u8> {
    seq![123u8, 34u8, 120u8, 34u8, 58u8] + int_bytes(p.x as int) + seq![
        44u8,
        34u8,
        121u8,
        34u8,
        58u8,
    ] + int_bytes(p.y as int) + seq![125u8]
}

/// Appends the decimal digits of `n` to `v`.
fn push_decimal(v: &mut Vec<u8>, n: u32)
    ensures
        final(v)@ == old(v)@ + decimal_digits(n as nat),
    decreases n,
{
    if n < 10 {
        v.push(48 + n as u8);
        proof {
            assert(v@ =~= old(v)@ + decimal_digits(n as nat));
        }
    } else {
        push_decimal(v, n / 10);
        v.push(48 + (n % 10) as u8);
        proof {
            assert(v@ =~= old(v)@ + decimal_digits(n as nat));
        }
    }
}

/// Appends the canonical decimal form of `x` to `v`.
fn push_int(v: &mut Vec<u8>, x: i32)
    ensures
        final(v)@ == old(v)@ + int_bytes(x as int),
{
    if x < 0 {
        v.push(45);
        let m: u32 = (-(x as i64)) as u32;
        push_decimal(v, m);
        proof {
            assert(v@ =~= old(v)@ + int_bytes(x as int));
        }
    } else {
        push_decimal(v, x as u32);
    }
}

/// True of a decimal digit byte.
pub open spec fn is_digit(b: u8) -> bool {
    48 <= b && b <= 57
}

/// The value of a sequence of decimal digit bytes, most significant first.
pub open spec fn digits_val(s: Seq<u8>) -> int
    decreases s.len(),
{
    if s.len() == 0 {
        0
    } else {
        digits_val(s.drop_last()) * 10 + (s.last() - 48)
    }
}

/// The canonical form of `x` sits in `s` at `start` and is followed by a
/// non-digit byte or by the end of the sequence.
pub open spec fn int_encoding_at(s: Seq<u8>, start: int, x: int) -> bool {
    &&& 0 <= start
    &&& start + int_bytes(x).len() <= s.len()
    &&& s.subrange(start, start + int_bytes(x).len()) == int_bytes(x)
    &&& (start + int_bytes(x).len() == s.len() || !is_digit(s[start + int_bytes(x).len()]))
    &&& -0x8000_0000 <= x <= 0x7fff_ffff
}

proof fn lemma_decimal_digits_props(n: nat)
    ensures
        decimal_digits(n).len() >= 1,
        forall|j: int|
            0 <= j < decimal_digits(n).len() ==> is_digit(#[trigger] decimal_digits(n)[j]),
        digits_val(decimal_digits(n)) == n,
    decreases n,
{
    if n < 10 {
        let whole = decimal_digits(n);
        assert(whole == seq![(48 + n) as u8]);
        assert(whole.drop_last() =~= Seq::<u8>::empty());
        assert(digits_val(Seq::<u8>::empty()) == 0);
        assert(whole.last() == (48 + n) as u8);
        assert(digits_val(whole) == 0 * 10 + ((48 + n) as u8 - 48));
        assert((48 + n) as u8 == 48 + n);
    } else {
        lemma_decimal_digits_props(n / 10);
        let d = decimal_digits(n / 10);
        let whole = decimal_digits(n);
        assert(whole == d.push((48 + n % 10) as u8));
        assert(whole.drop_last() =~= d);
        assert(whole.last() == (48 + n % 10) as u8);
        assert((48 + n % 10) as u8 == 48 + n % 10);
        assert(digits_val(whole) == digits_val(d) * 10 + (n % 10));
        assert(n == (n / 10) * 10 + n % 10) by {
            vstd::arithmetic::div_mod::lemma_fundamental_div_mod(n as int, 10);
        };
    }
}

proof fn lemma_digits_val_nonneg(s: Seq<u8>)
    requires
        forall|j: int| 0 <= j < s.len() ==> is_digit(#[trigger] s[j]),
    ensures
        digits_val(s) >= 0,
    decreases s.len(),
{
    if s.len() > 0 {
        let t = s.drop_last();
        assert forall|j: int| 0 <= j < t.len() implies is_digit(#[trigger] t[j]) by {
            assert(t[j] == s[j]);
        }
        lemma_digits_val_nonneg(t);
    }
}

proof fn lemma_digits_val_prefix(s: Seq<u8>, i: int)
    requires
        0 <= i <= s.len(),
        forall|j: int| 0 <= j < s.len() ==> is_digit(#[trigger] s[j]),
    ensures
        0 <= digits_val(s.subrange(0, i)) <= digits_val(s),
    decreases s.len(),
{
    if i == s.len() {
        assert(s.subrange(0, i) =~= s);
        lemma_digits_val_nonneg(s);
    } else {
        let t = s.drop_last();
        assert forall|j: int| 0 <= j < t.len() implies is_digit(#[trigger] t[j]) by {
            assert(t[j] == s[j]);
        }
        assert(s.subrange(0, i) =~= t.subrange(0, i));
        lemma_digits_val_prefix(t, i);
        lemma_digits_val_nonneg(t);
    }
}

/// Facts about the digit block inside an encoded integer: where it lies,
/// that every byte of it is a digit, and what its prefixes are worth.
proof fn lemma_encoding_digit_block(s: Seq<u8>, start: int, x: int, neg: bool)
    requires
        int_encoding_at(s, start, x),
        neg <==> (start < s.len() && s[start] == 45),
    ensures
        neg <==> x < 0,
        ({
            let ds = if x < 0 { start + 1 } else { start };
            let dd = decimal_digits(magnitude(x));
            &&& dd.len() >= 1
            &&& ds + dd.len() == start + int_bytes(x).len()
            &&& ds + dd.len() <= s.len()
            &&& s.subrange(ds, ds + dd.len()) == dd
            &&& (forall|j: int| ds <= j < ds + dd.len() ==> is_digit(#[trigger] s[j]))
            &&& (ds + dd.len() == s.len() || !is_digit(s[ds + dd.len()]))
            &&& (forall|k: int|
                ds <= k <= ds + dd.len() ==> 0 <= digits_val(
                    #[trigger] s.subrange(ds, k),
                ) <= magnitude(x))
            &&& digits_val(s.subrange(ds, ds + dd.len())) == magnitude(x)
            &&& magnitude(x) <= 0x8000_0000
            &&& (x >= 0 ==> magnitude(x) <= 0x7fff_ffff)
        }),
{
    let mag = magnitude(x);
    lemma_decimal_digits_props(mag);
    let dd = decimal_digits(mag);
    let ib = int_bytes(x);
    let ll = ib.len() as int;
    let ds = if x < 0 { start + 1 } else { start };
    assert forall|j: int| 0 <= j < ll implies s[start + j] == ib[j] by {
        assert(s.subrange(start, start + ll)[j] == s[start + j]);
    }
    if x < 0 {
        assert(ib[0] == 45);
        assert(s[start] == 45);
        assert(s.subrange(ds, ds + dd.len()) =~= dd) by {
            assert forall|j: int| 0 <= j < dd.len() implies s.subrange(ds, ds + dd.len())[j]
                == dd[j] by {
                assert(s[start + (j + 1)] == ib[j + 1]);
                assert(ib[j + 1] == dd[j]);
            }
        }
    } else {
        assert(ib =~= dd);
        assert(s[start + 0] == ib[0]);
        assert(is_digit(s[start]));
        assert(!neg);
        assert(s.subrange(ds, ds + dd.len()) =~= dd) by {
            assert forall|j: int| 0 <= j < dd.len() implies s.subrange(ds, ds + dd.len())[j]
                == dd[j] by {
                assert(s[start + j] == ib[j]);
            }
        }
    }
    assert forall|j: int| ds <= j < ds + dd.len() implies is_digit(#[trigger] s[j]) by {
        assert(s[j] == s.subrange(ds, ds + dd.len())[j - ds]);
        assert(s[j] == dd[j - ds]);
    }
    assert forall|k: int| ds <= k <= ds + dd.len() implies 0 <= digits_val(
        #[trigger] s.subrange(ds, k),
    ) <= mag by {
        assert(s.subrange(ds, k) =~= dd.subrange(0, k - ds));
        lemma_digits_val_prefix(dd, k - ds);
    }
    assert(s.subrange(ds, ds + dd.len()) == dd);
}

/// After the digit loop has consumed a maximal run of digits, a canonical
/// encoding at `start` forces the run to be exactly the encoded digits and
/// the accumulated value to be the encoded magnitude.
proof fn lemma_parse_run_complete(
    s: Seq<u8>,
    start: int,
    x: int,
    neg: bool,
    digits_start: int,
    i: int,
    acc: int,
)
    requires
        int_encoding_at(s, start, x),
        neg <==> (start < s.len() && s[start] == 45),
        neg ==> digits_start == start + 1,
        !neg ==> digits_start == start,
        digits_start <= i <= s.len(),
        forall|j: int| digits_start <= j < i ==> is_digit(#[trigger] s[j]),
        acc == digits_val(s.subrange(digits_start, i)),
        i == s.len() || !is_digit(s[i]),
    ensures
        neg <==> x < 0,
        i == digits_start + decimal_digits(magnitude(x)).len(),
        i == start + int_bytes(x).len(),
        acc == magnitude(x),
        magnitude(x) <= 0x8000_0000,
        x >= 0 ==> magnitude(x) <= 0x7fff_ffff,
{
    lemma_encoding_digit_block(s, start, x, neg);
    let dd = decimal_digits(magnitude(x));
    let ds = if x < 0 { start + 1 } else { start };
    assert(ds == digits_start);
    if i > ds + dd.len() {
        assert(is_digit(s[ds + dd.len()]));
        assert(false);
    }
    if i < ds + dd.len() {
        assert(is_digit(s[i]));
        assert(i < s.len());
        assert(false);
    }
    assert(s.subrange(digits_start, i) == s.subrange(ds, ds + dd.len()));
}

/// Where each part of a point's canonical encoding lies: the framing bytes,
/// and the two embedded integer encodings with their terminators.
proof fn lemma_point_bytes_facts(p: Point)
    ensures
        ({
            let s = point_bytes(p);
            let lx = int_bytes(p.x as int).len() as int;
            let ly = int_bytes(p.y as int).len() as int;
            &&& lx >= 1 && ly >= 1
            &&& s.len() == 11 + lx + ly
            &&& s[0] == 123 && s[1] == 34 && s[2] == 120 && s[3] == 34 && s[4] == 58
            &&& int_encoding_at(s, 5, p.x as int)
            &&& s[5 + lx] == 44 && s[6 + lx] == 34 && s[7 + lx] == 121 && s[8 + lx] == 34 && s[
                9 + lx
            ] == 58
            &&& int_encoding_at(s, 10 + lx, p.y as int)
            &&& s[10 + lx + ly] == 125
        }),
{
    lemma_decimal_digits_props(magnitude(p.x as int));
    lemma_decimal_digits_props(magnitude(p.y as int));
    let s = point_bytes(p);
    let ibx = int_bytes(p.x as int);
    let iby = int_bytes(p.y as int);
    let lx = ibx.len() as int;
    let ly = iby.len() as int;
    let head = seq![123u8, 34u8, 120u8, 34u8, 58u8];
    let mid = seq![44u8, 34u8, 121u8, 34u8, 58u8];
    let tail = seq![125u8];
    assert(s == head + ibx + mid + iby + tail);
    assert(s.len() == 11 + lx + ly);
    assert(s.subrange(5, 5 + lx) =~= ibx);
    assert(s.subrange(10 + lx, 10 + lx + ly) =~= iby);
    assert(s[5 + lx] == 44);
    assert(!is_digit(44));
    assert(s[10 + lx + ly] == 125);
    assert(!is_digit(125));
}

/// Two integers encoded at the same place in the same sequence are equal.
proof fn lemma_int_encoding_unique(s: Seq<u8>, start: int, x1: int, x2: int)
    requires
        int_encoding_at(s, start, x1),
        int_encoding_at(s, start, x2),
    ensures
        x1 == x2,
{
    let neg = start < s.len() && s[start] == 45;
    lemma_encoding_digit_block(s, start, x1, neg);
    lemma_encoding_digit_block(s, start, x2, neg);
    let ds = if x1 < 0 { start + 1 } else { start };
    let d1 = decimal_digits(magnitude(x1));
    let d2 = decimal_digits(magnitude(x2));
    if d1.len() < d2.len() {
        assert(is_digit(s[ds + d1.len()]));
        assert(false);
    }
    if d2.len() < d1.len() {
        assert(is_digit(s[ds + d2.len()]));
        assert(false);
    }
    assert(d1 == s.subrange(ds, ds + d1.len()));
    assert(d2 == s.subrange(ds, ds + d2.len()));
    assert(magnitude(x1) == magnitude(x2));
}

/// The canonical encoding is injective: two points with the same encoding
/// are the same point, so a decoded record is unambiguous and the round
/// trip through the codec can lose nothing.
pub proof fn lemma_point_bytes_injective(p1: Point, p2: Point)
    requires
        point_bytes(p1) == point_bytes(p2),
    ensures
        p1 == p2,
{
    lemma_point_bytes_facts(p1);
    lemma_point_bytes_facts(p2);
    let s = point_bytes(p1);
    lemma_int_encoding_unique(s, 5, p1.x as int, p2.x as int);
    assert(p1.x == p2.x);
    lemma_int_encoding_unique(
        s,
        10 + int_bytes(p1.x as int).len() as int,
        p1.y as int,
        p2.y as int,
    );
    assert(p1.y == p2.y);
}

/// Encodes a point into its canonical byte form.
pub fn encode_point(p: &Point) -> (r: Vec<u8>)
    ensures
        r@ == point_bytes(*p),
{
    let mut v: Vec<u8> = Vec::new();
    v.push(123);
    v.push(34);
    v.push(120);
    v.push(34);
    v.push(58);
    push_int(&mut v, p.x);
    v.push(44);
    v.push(34);
    v.push(121);
    v.push(34);
    v.push(58);
    push_int(&mut v, p.y);
    v.push(125);
    proof {
        assert(v@ =~= point_bytes(*p));
    }
    v
}

/// Reads an optional minus sign and a maximal run of decimal digits at
/// `start`. Wherever a canonical integer form sits at `start` with a
/// non-digit behind it, the read succeeds and returns that integer and the
/// position just past its last digit.
fn parse_int(s: &[u8], start: usize) -> (r: Option<(i32, usize)>)
    requires
        start <= s@.len(),
    ensures
        r matches Some(pr) ==> start <= pr.1 <= s@.len(),
        forall|x: i32|
            int_encoding_at(s@, start as int, x as int) ==> (r matches Some(pr) && pr.0 == x
                && pr.1 == start + int_bytes(x as int).len()),
{
    let len: usize = s.len();
    let mut i: usize = start;
    let mut neg: bool = false;
    if i < len && s[i] == 45 {
        neg = true;
        i = i + 1;
    }
    let digits_start: usize = i;
    let mut acc: u64 = 0;
    while i < len && 48 <= s[i] && s[i] <= 57
        invariant
            len == s@.len(),
            start <= digits_start <= i <= len,
            neg <==> (start < len && s@[start as int] == 45),
            neg ==> digits_start == start + 1,
            !neg ==> digits_start == start,
            forall|j: int| digits_start <= j < i ==> is_digit(#[trigger] s@[j]),
            acc == digits_val(s@.subrange(digits_start as int, i as int)),
            0 <= acc <= 0x8000_0000,
        decreases len - i,
    {
        let d: u64 = (s[i] - 48) as u64;
        let next: u64 = acc * 10 + d;
        if next > 0x8000_0000 {
            proof {
                assert forall|x: i32| !int_encoding_at(s@, start as int, x as int) by {
                    if int_encoding_at(s@, start as int, x as int) {
                        lemma_encoding_digit_block(s@, start as int, x as int, neg);
                        let dd = decimal_digits(magnitude(x as int));
                        let ds: int = if (x as int) < 0 {
                            start as int + 1
                        } else {
                            start as int
                        };
                        assert(ds == digits_start as int);
                        if i as int >= ds + dd.len() {
                            assert(is_digit(s@[ds + dd.len()]));
                            assert(false);
                        }
                        assert(s@.subrange(ds, i + 1).drop_last() =~= s@.subrange(ds, i as int));
                        assert(s@.subrange(ds, i + 1).last() == s@[i as int]);
                        assert(digits_val(s@.subrange(ds, i + 1)) == acc * 10 + d);
                        assert(s@.subrange(ds, ds + dd.len()) == dd);
                        assert(s@.subrange(ds, i + 1) =~= dd.subrange(0, i + 1 - ds));
                        lemma_digits_val_prefix(dd, i + 1 - ds);
                        lemma_decimal_digits_props(magnitude(x as int));
                        assert(digits_val(s@.subrange(ds, i + 1)) <= magnitude(x as int));
                        assert(false);
                    }
                }
            }
            return None;
        }
        acc = next;
        i = i + 1;
        proof {
            assert(s@.subrange(digits_start as int, i as int).drop_last() =~= s@.subrange(
                digits_start as int,
                i - 1,
            ));
            assert(s@.subrange(digits_start as int, i as int).last() == s@[i - 1]);
        }
    }
    if i == digits_start {
        proof {
            assert forall|x: i32| !int_encoding_at(s@, start as int, x as int) by {
                if int_encoding_at(s@, start as int, x as int) {
                    lemma_parse_run_complete(
                        s@,
                        start as int,
                        x as int,
                        neg,
                        digits_start as int,
                        i as int,
                        acc as int,
                    );
                    assert(false);
                }
            }
        }
        return None;
    }
    let value: i32;
    if neg {
        value = (-(acc as i64)) as i32;
    } else {
        if acc > 0x7fff_ffff {
            proof {
                assert forall|x: i32| !int_encoding_at(s@, start as int, x as int) by {
                    if int_encoding_at(s@, start as int, x as int) {
                        lemma_parse_run_complete(
                            s@,
                            start as int,
                            x as int,
                            neg,
                            digits_start as int,
                            i as int,
                            acc as int,
                        );
                        assert(false);
                    }
                }
            }
            return None;
        }
        value = acc as i32;
    }
    proof {
        assert forall|x: i32| int_encoding_at(s@, start as int, x as int) implies (value == x && i
            == start + int_bytes(x as int).len()) by {
            lemma_parse_run_complete(
                s@,
                start as int,
                x as int,
                neg,
                digits_start as int,
                i as int,
                acc as int,
            );
        }
    }
    Some((value, i))
}

/// Compares two byte strings for equality, element by element.
fn bytes_eq(a: &Vec<u8>, b: &[u8]) -> (r: bool)
    ensures
        r <==> a@ == b@,
{
    if a.len() != b.len() {
        return false;
    }
    let mut i: usize = 0;
    while i < a.len()
        invariant
            a@.len() == b@.len(),
            i <= a@.len(),
            forall|j: int| 0 <= j < i ==> a@[j] == b@[j],
        decreases a@.len() - i,
    {
        if a[i] != b[i] {
            return false;
        }
        i = i + 1;
    }
    proof {
        assert(a@ =~= b@);
    }
    true
}

/// Decodes a canonical point encoding, and nothing else.
///
/// Success is owed exactly on the canonical encodings: when the input is
/// `point_bytes(p)` for some record `p`, that `p` comes back; on every
/// other input the decoder fails with `Malformed`.
pub fn decode_point(s: &[u8]) -> (r: Result<Point, DecodeError>)
    ensures
        r matches Ok(p) ==> s@ == point_bytes(p),
        forall|p: Point| s@ == point_bytes(p) ==> r == Ok::<Point, DecodeError>(p),
{
    let len: usize = s.len();
    if len < 5 || s[0] != 123 || s[1] != 34 || s[2] != 120 || s[3] != 34 || s[4] != 58 {
        proof {
            assert forall|p: Point| s@ != point_bytes(p) by {
                if s@ == point_bytes(p) {
                    lemma_point_bytes_facts(p);
                    assert(false);
                }
            }
        }
        return Err(DecodeError::Malformed);
    }
    let first = parse_int(s, 5);
    let (x, pos) = match first {
        Some(pair) => pair,
        None => {
            proof {
                assert forall|p: Point| s@ != point_bytes(p) by {
                    if s@ == point_bytes(p) {
                        lemma_point_bytes_facts(p);
                        assert(int_encoding_at(s@, 5, p.x as int));
                        assert(false);
                    }
                }
            }
            return Err(DecodeError::Malformed);
        },
    };
    if len - pos < 5 || s[pos] != 44 || s[pos + 1] != 34 || s[pos + 2] != 121 || s[pos + 3] != 34
        || s[pos + 4] != 58 {
        proof {
            assert forall|p: Point| s@ != point_bytes(p) by {
                if s@ == point_bytes(p) {
                    lemma_point_bytes_facts(p);
                    assert(int_encoding_at(s@, 5, p.x as int));
                    assert(false);
                }
            }
        }
        return Err(DecodeError::Malformed);
    }
    let second = parse_int(s, pos + 5);
    let (y, end) = match second {
        Some(pair) => pair,
        None => {
            proof {
                assert forall|p: Point| s@ != point_bytes(p) by {
                    if s@ == point_bytes(p) {
                        lemma_point_bytes_facts(p);
                        assert(int_encoding_at(s@, 5, p.x as int));
                        assert(int_encoding_at(
                            s@,
                            10 + int_bytes(p.x as int).len() as int,
                            p.y as int,
                        ));
                        assert(false);
                    }
                }
            }
            return Err(DecodeError::Malformed);
        },
    };
    if end >= len || s[end] != 125 || len - end != 1 {
        proof {
            assert forall|p: Point| s@ != point_bytes(p) by {
                if s@ == point_bytes(p) {
                    lemma_point_bytes_facts(p);
                    assert(int_encoding_at(s@, 5, p.x as int));
                    assert(int_encoding_at(
                        s@,
                        10 + int_bytes(p.x as int).len() as int,
                        p.y as int,
                    ));
                    assert(false);
                }
            }
        }
        return Err(DecodeError::Malformed);
    }
    let q = Point { x, y };
    let enc = encode_point(&q);
    if bytes_eq(&enc, s) {
        proof {
            assert forall|p: Point| s@ == point_bytes(p) implies Ok::<Point, DecodeError>(q)
                == Ok::<Point, DecodeError>(p) by {
                lemma_point_bytes_facts(p);
                assert(int_encoding_at(s@, 5, p.x as int));
                assert(int_encoding_at(
                    s@,
                    10 + int_bytes(p.x as int).len() as int,
                    p.y as int,
                ));
                assert(q == p);
            }
        }
        Ok(q)
    } else {
        proof {
            assert forall|p: Point| s@ != point_bytes(p) by {
                if s@ == point_bytes(p) {
                    lemma_point_bytes_facts(p);
                    assert(int_encoding_at(s@, 5, p.x as int));
                    assert(int_encoding_at(
                        s@,
                        10 + int_bytes(p.x as int).len() as int,
                        p.y as int,
                    ));
                    assert(q == p);
                    assert(enc@ == point_bytes(p));
                    assert(false);
                }
            }
        }
        Err(DecodeError::Malformed)
    }
}

} // verus!
