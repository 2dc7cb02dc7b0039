use unicode_segmentation::UnicodeSegmentation;
use vstd::prelude::*;
use vstd::string::StringSliceAdditionalSpecFns;

use crate::search::search_common::MATCH_ALL_VALUE;

verus! {

/// The extended grapheme clusters of a UTF-8 string, each as its UTF-8 bytes, in order.
pub uninterp spec fn extended_graphemes(s: Seq<u8>) -> Seq<Seq<u8>>;

/// Splits a string into its extended grapheme clusters with `unicode_segmentation`'s
/// `graphemes(true)`; the clusters are named as a function of the string's bytes.
#[verifier::external_body]
fn graphemes_of(s: &str) -> (r: Vec<&str>)
    ensures
        r@.len() == extended_graphemes(s.spec_bytes()).len(),
        forall|i: int|
            0 <= i < r@.len() ==> #[trigger] r@[i].spec_bytes() == extended_graphemes(
                s.spec_bytes(),
            )[i],
{
    s.graphemes(true).collect()
}

/// The value of an ASCII hexadecimal digit.
pub open spec fn hex_digit(b: u8) -> Option<u8> {
    if 0x30 <= b <= 0x39 {
        Some((b - 0x30) as u8)
    } else if 0x61 <= b <= 0x66 {
        Some((b - 0x61 + 10) as u8)
    } else if 0x41 <= b <= 0x46 {
        Some((b - 0x41 + 10) as u8)
    } else {
        None
    }
}

/// The value of a string of hexadecimal digits, if they all are digits.
pub open spec fn hex_value(ds: Seq<u8>) -> Option<nat>
    decreases ds.len(),
{
    if ds.len() == 0 {
        Some(0)
    } else {
        match (hex_value(ds.drop_last()), hex_digit(ds.last())) {
            (Some(v), Some(d)) => Some((v * 16 + d) as nat),
            _ => None,
        }
    }
}

/// What `u8::from_str_radix(s, 16)` gives: an optional leading '+', then at least one hexadecimal
/// digit, with a value that fits in a byte.
pub open spec fn spec_parse_hex_u8(s: Seq<u8>) -> Option<u8> {
    let digits = if s.len() > 0 && s[0] == 0x2b {
        s.drop_first()
    } else {
        s
    };
    if digits.len() == 0 {
        None
    } else {
        match hex_value(digits) {
            Some(v) => if v <= 255 {
                Some(v as u8)
            } else {
                None
            },
            None => None,
        }
    }
}

/// The ASCII hexadecimal digit character for `v` (below 16): '0'..'9', then 'A'..'F' or
/// 'a'..'f'.
pub open spec fn hex_digit_char(v: u8, upper: bool) -> u8 {
    if v < 10 {
        (0x30 + v) as u8
    } else if upper {
        (0x41 + v - 10) as u8
    } else {
        (0x61 + v - 10) as u8
    }
}

/// Hexadecimal byte values are parsed as `u8::from_str_radix(s, 16)` parses them, with digits
/// of either case: two digits give sixteen times the first plus the second (also after a '+'),
/// one digit gives its value, and a single byte parses exactly when it is a digit.
pub proof fn lemma_hex_parse(hi: u8, lo: u8, u1: bool, u2: bool, b: u8)
    requires
        hi < 16,
        lo < 16,
    ensures
        spec_parse_hex_u8(seq![hex_digit_char(hi, u1), hex_digit_char(lo, u2)]) == Some((hi * 16 + lo) as u8),
        spec_parse_hex_u8(seq![0x2bu8, hex_digit_char(hi, u1), hex_digit_char(lo, u2)]) == Some(
            (hi * 16 + lo) as u8,
        ),
        spec_parse_hex_u8(seq![hex_digit_char(lo, u2)]) == Some(lo),
        spec_parse_hex_u8(seq![b]) is Some <==> exists|v: u8, u: bool| v < 16 && b == hex_digit_char(v, u),
{
    let a = hex_digit_char(hi, u1);
    let c = hex_digit_char(lo, u2);
    assert(hex_digit(a) == Some(hi));
    assert(hex_digit(c) == Some(lo));
    let s = seq![a, c];
    assert(s.drop_last() =~= seq![a]);
    assert(seq![a].drop_last() =~= Seq::<u8>::empty());
    assert(seq![c].drop_last() =~= Seq::<u8>::empty());
    assert(seq![a].last() == a);
    assert(s.last() == c);
    assert(seq![c].last() == c);
    assert(hex_value(Seq::<u8>::empty()) == Some(0nat));
    assert(hex_value(seq![a]) == Some(hi as nat));
    assert(hex_value(s) == Some((hi * 16 + lo) as nat));
    assert(hex_value(seq![c]) == Some(lo as nat));
    assert(a != 0x2b && c != 0x2b);
    assert(seq![0x2bu8, a, c].drop_first() =~= s);
    assert(seq![b].drop_last() =~= Seq::<u8>::empty());
    assert(seq![b].last() == b);
    if spec_parse_hex_u8(seq![b]) is Some {
        assert(b != 0x2b);
        assert(hex_digit(b) is Some);
        if 0x30 <= b <= 0x39 {
            assert(b == hex_digit_char((b - 0x30) as u8, false));
        } else if 0x61 <= b <= 0x66 {
            assert(b == hex_digit_char((b - 0x61 + 10) as u8, false));
        } else {
            assert(b == hex_digit_char((b - 0x41 + 10) as u8, true));
        }
    }
    if exists|v: u8, u: bool| v < 16 && b == hex_digit_char(v, u) {
        let (v, u) = choose|v: u8, u: bool| v < 16 && b == hex_digit_char(v, u);
        assert(hex_digit(b) == Some(v));
        assert(hex_value(seq![b]) == Some(v as nat));
    }
}

proof fn lemma_hex_value_monotone(ds: Seq<u8>, n: int)
    requires
        0 <= n <= ds.len(),
        hex_value(ds) is Some,
    ensures
        hex_value(ds.take(n)) is Some,
        hex_value(ds.take(n))->0 <= hex_value(ds)->0,
    decreases ds.len(),
{
    assert(ds.take(ds.len() as int) =~= ds);
    if n < ds.len() {
        lemma_hex_value_monotone(ds.drop_last(), n);
        assert(ds.drop_last().take(n) =~= ds.take(n));
    }
}

/// Parses a hexadecimal byte value as `u8::from_str_radix(s, 16)` does.
pub fn parse_hex_u8(s: &[u8]) -> (r: Option<u8>)
    ensures
        r == spec_parse_hex_u8(s@),
{
    let start: usize = if s.len() > 0 && s[0] == 0x2b { 1 } else { 0 };
    let ghost digits = if s@.len() > 0 && s@[0] == 0x2b {
        s@.drop_first()
    } else {
        s@
    };
    assert(digits =~= s@.skip(start as int));
    if start >= s.len() {
        return None;
    }
    assert(digits.len() > 0);
    assert(spec_parse_hex_u8(s@) == match hex_value(digits) {
        Some(v) => if v <= 255 { Some(v as u8) } else { None },
        None => None,
    });
    let mut value: u32 = 0;
    let mut i: usize = start;
    while i < s.len()
        invariant
            start <= i <= s@.len(),
            digits == s@.skip(start as int),
            spec_parse_hex_u8(s@) == match hex_value(digits) {
                Some(v) => if v <= 255 { Some(v as u8) } else { None },
                None => None,
            },
            hex_value(digits.take(i - start)) == Some(value as nat),
            value <= 255,
        decreases s@.len() - i,
    {
        assert(digits.take(i - start + 1).drop_last() =~= digits.take(i - start));
        assert(digits.take(i - start + 1).last() == s@[i as int]);
        let b = s[i];
        assert(hex_value(digits.take(i - start + 1)) == match hex_digit(b) {
            Some(dd) => Some((value * 16 + dd) as nat),
            None => None,
        });
        let d: u32 = if 0x30 <= b && b <= 0x39 {
            (b - 0x30) as u32
        } else if 0x61 <= b && b <= 0x66 {
            (b - 0x61 + 10) as u32
        } else if 0x41 <= b && b <= 0x46 {
            (b - 0x41 + 10) as u32
        } else {
            proof {
                if hex_value(digits) is Some {
                    lemma_hex_value_monotone(digits, i - start + 1);
                }
                assert(hex_value(digits) is None);
            }
            return None;
        };
        value = value * 16 + d;
        if value > 255 {
            proof {
                if hex_value(digits) is Some {
                    lemma_hex_value_monotone(digits, i - start + 1);
                    assert(hex_value(digits)->0 > 255);
                }
            }
            return None;
        }
        i += 1;
    }
    assert(digits.take(i - start) =~= digits);
    Some(value as u8)
}

/// The values a grapheme cluster stands for when it is not escaped: its bytes.
pub open spec fn widen(g: Seq<u8>) -> Seq<u16> {
    g.map_values(|b: u8| b as u16)
}

/// Parsing the grapheme clusters `gcs` from index `i` on, `escaped` telling whether the previous
/// cluster was an unconsumed backslash.
pub open spec fn spec_parse_from(gcs: Seq<Seq<u8>>, i: int, escaped: bool) -> Seq<u16>
    decreases gcs.len() - i, 0int,
{
    if i < 0 || i >= gcs.len() {
        Seq::empty()
    } else {
        let g = gcs[i];
        if escaped {
            if g == seq![0x5cu8] {
                seq![0x5cu16] + spec_parse_from(gcs, i + 1, false)
            } else if g == seq![0x6eu8] {
                seq![0x0au16] + spec_parse_from(gcs, i + 1, false)
            } else if g == seq![0x74u8] {
                seq![0x09u16] + spec_parse_from(gcs, i + 1, false)
            } else if g == seq![0x72u8] {
                seq![0x0du16] + spec_parse_from(gcs, i + 1, false)
            } else if g == seq![0x30u8] {
                seq![0x00u16] + spec_parse_from(gcs, i + 1, false)
            } else if g == seq![0x2eu8] {
                seq![0x2eu16] + spec_parse_from(gcs, i + 1, false)
            } else if g == seq![0x78u8] {
                let val = if i + 2 < gcs.len() {
                    spec_parse_hex_u8(gcs[i + 1] + gcs[i + 2])
                } else {
                    None
                };
                let next = if i + 3 <= gcs.len() {
                    i + 3
                } else {
                    gcs.len() as int
                };
                match val {
                    Some(v) => seq![v as u16] + spec_parse_from(gcs, next, false),
                    None => spec_parse_from(gcs, next, false),
                }
            } else {
                spec_parse_from(gcs, i + 1, false)
            }
        } else {
            if g == seq![0x5cu8] {
                spec_parse_from(gcs, i + 1, true)
            } else if g == seq![0x2eu8] {
                seq![MATCH_ALL_VALUE] + spec_parse_from(gcs, i + 1, false)
            } else {
                widen(g) + spec_parse_from(gcs, i + 1, false)
            }
        }
    }
}

/// What `parse_match_str` gives for a string with the given UTF-8 bytes.
pub open spec fn spec_parse_match_str(s: Seq<u8>) -> Seq<u16> {
    spec_parse_from(extended_graphemes(s), 0, false)
}

fn is_single(g: &[u8], b: u8) -> (r: bool)
    ensures
        r == (g@ == seq![b]),
{
    let r = g.len() == 1 && g[0] == b;
    if g.len() == 1 {
        assert(g@ =~= seq![g@[0]]);
    }
    r
}

/// Parses a pattern string, grapheme cluster by grapheme cluster: the escapes \\, \n, \t, \r, \0,
/// \. and \xXX give the byte they stand for, an unescaped '.' matches any byte (0x8000), invalid
/// escapes are skipped, and any other cluster gives its UTF-8 bytes.
pub fn parse_match_str(string: &str) -> (buf: Vec<u16>)
    ensures
        buf@ == spec_parse_match_str(string.spec_bytes()),
{
    let gcs = graphemes_of(string);
    assert(cluster_bytes(gcs@) =~= extended_graphemes(string.spec_bytes()));
    parse_graphemes(gcs.as_slice())
}

/// The UTF-8 bytes of each of the clusters.
pub open spec fn cluster_bytes(gcs: Seq<&str>) -> Seq<Seq<u8>> {
    Seq::new(gcs.len(), |i: int| gcs[i].spec_bytes())
}

/// Parses a pattern given as its grapheme clusters, in order, as `parse_match_str` does.
pub fn parse_graphemes(gcs: &[&str]) -> (buf: Vec<u16>)
    ensures
        buf@ == spec_parse_from(cluster_bytes(gcs@), 0, false),
{
    let ghost g = cluster_bytes(gcs@);
    let mut buf: Vec<u16> = Vec::new();
    let mut escaped = false;
    let mut i: usize = 0;
    while i < gcs.len()
        invariant
            gcs@.len() == g.len(),
            forall|k: int| 0 <= k < gcs@.len() ==> #[trigger] gcs@[k].spec_bytes() == g[k],
            buf@ + spec_parse_from(g, i as int, escaped) == spec_parse_from(g, 0, false),
        decreases gcs@.len() - i,
    {
        let ghost before = buf@;
        let cur = gcs[i].as_bytes();
        assert(cur@ == g[i as int]);
        if escaped {
            escaped = false;
            if is_single(cur, 0x5c) {
                buf.push(0x5c);
            } else if is_single(cur, 0x6e) {
                buf.push(0x0a);
            } else if is_single(cur, 0x74) {
                buf.push(0x09);
            } else if is_single(cur, 0x72) {
                buf.push(0x0d);
            } else if is_single(cur, 0x30) {
                buf.push(0x00);
            } else if is_single(cur, 0x2e) {
                buf.push(0x2e);
            } else if is_single(cur, 0x78) {
                if gcs.len() - i > 2 {
                    let mut hex: Vec<u8> = Vec::new();
                    let a = gcs[i + 1].as_bytes();
                    let c = gcs[i + 2].as_bytes();
                    push_all(&mut hex, a);
                    push_all(&mut hex, c);
                    assert(hex@ =~= g[i + 1] + g[i + 2]);
                    match parse_hex_u8(hex.as_slice()) {
                        Some(v) => {
                            buf.push(v as u16);
                        },
                        None => {},
                    }
                }
                i = if gcs.len() - i >= 3 { i + 3 } else { gcs.len() };
                continue;
            }
        } else {
            if is_single(cur, 0x5c) {
                escaped = true;
            } else if is_single(cur, 0x2e) {
                buf.push(MATCH_ALL_VALUE);
            } else {
                let mut k: usize = 0;
                while k < cur.len()
                    invariant
                        k <= cur@.len(),
                        buf@ == before + widen(cur@.take(k as int)),
                    decreases cur@.len() - k,
                {
                    buf.push(cur[k] as u16);
                    assert(widen(cur@.take(k + 1)) =~= widen(cur@.take(k as int)).push(
                        cur@[k as int] as u16,
                    ));
                    k += 1;
                }
                assert(cur@.take(k as int) =~= cur@);
            }
        }
        i += 1;
    }
    assert(buf@ + spec_parse_from(g, i as int, escaped) =~= buf@);
    buf
}

/// Appends all bytes of `src` to `dst`.
fn push_all(dst: &mut Vec<u8>, src: &[u8])
    ensures
        final(dst)@ == old(dst)@ + src@,
{
    let mut k: usize = 0;
    while k < src.len()
        invariant
            k <= src@.len(),
            dst@ == old(dst)@ + src@.take(k as int),
        decreases src@.len() - k,
    {
        dst.push(src[k]);
        assert(src@.take(k + 1) =~= src@.take(k as int).push(src@[k as int]));
        k += 1;
    }
    assert(src@.take(k as int) =~= src@);
}

} // verus!
