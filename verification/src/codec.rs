//! Serialization primitives shared by the game modules.
//!
//! Every game state serializes to a flat sequence of byte-sized fields. The
//! binary encoding is that field sequence itself; the text encoding renders
//! each field byte as three zero-padded decimal digits followed by a space,
//! so a payload reads as a row of small numbers. Both directions are exact:
//! parsing accepts precisely the canonical renderings.

use vstd::arithmetic::div_mod::{
    lemma_div_denominator, lemma_fundamental_div_mod, lemma_fundamental_div_mod_converse,
};
use vstd::prelude::*;

verus! {

/// Error returned when a text or binary payload is not the encoding of any
/// reachable game state.
#[derive(Clone, Copy, PartialEq, Eq, Structural, Debug)]
pub enum DecodeError {
    Malformed,
}

/// The ASCII digit for `d` (meaningful for `0 <= d <= 9`).
pub open spec fn ascii_digit(d: int) -> u8 {
    (48 + d) as u8
}

/// One field byte rendered as three zero-padded decimal digits and a space.
pub open spec fn text_group(v: u8) -> Seq<u8> {
    seq![
        ascii_digit(v as int / 100),
        ascii_digit((v as int / 10) % 10),
        ascii_digit(v as int % 10),
        32u8,
    ]
}

/// The text rendering of a byte sequence: one `text_group` per byte.
pub open spec fn text_of(b: Seq<u8>) -> Seq<u8>
    decreases b.len(),
{
    if b.len() == 0 {
        Seq::empty()
    } else {
        text_of(b.drop_last()) + text_group(b.last())
    }
}

pub proof fn lemma_text_len(b: Seq<u8>)
    ensures
        text_of(b).len() == 4 * b.len(),
    decreases b.len(),
{
    if b.len() > 0 {
        lemma_text_len(b.drop_last());
    }
}

/// Group `j` of a rendering is the rendering of byte `j`.
pub proof fn lemma_text_group_at(b: Seq<u8>, j: int)
    requires
        0 <= j < b.len(),
    ensures
        text_of(b).subrange(4 * j, 4 * j + 4) == text_group(b[j]),
    decreases b.len(),
{
    lemma_text_len(b);
    lemma_text_len(b.drop_last());
    if j == b.len() - 1 {
        assert(text_of(b).subrange(4 * j, 4 * j + 4) =~= text_group(b.last()));
    } else {
        lemma_text_group_at(b.drop_last(), j);
        assert(text_of(b).subrange(4 * j, 4 * j + 4) =~= text_of(b.drop_last()).subrange(
            4 * j,
            4 * j + 4,
        ));
    }
}

/// A byte is recovered from its three decimal digits.
pub proof fn lemma_decimal_digits(v: u8)
    ensures
        v as int == 100 * (v as int / 100) + 10 * ((v as int / 10) % 10) + v as int % 10,
        0 <= v as int / 100 <= 9,
        0 <= (v as int / 10) % 10 <= 9,
        0 <= v as int % 10 <= 9,
{
    let x = v as int;
    lemma_fundamental_div_mod(x, 10);
    lemma_fundamental_div_mod(x / 10, 10);
    lemma_div_denominator(x, 10, 10);
}

/// The four text bytes of group `j` of a rendering, spelled out.
pub proof fn lemma_group_fields(s: Seq<u8>, t: Seq<u8>, j: int)
    requires
        t == text_of(s),
        0 <= j < s.len(),
    ensures
        t.len() == 4 * s.len(),
        t[4 * j] == ascii_digit(s[j] as int / 100),
        t[4 * j + 1] == ascii_digit((s[j] as int / 10) % 10),
        t[4 * j + 2] == ascii_digit(s[j] as int % 10),
        t[4 * j + 3] == 32u8,
        s[j] as int == 100 * (t[4 * j] - 48) + 10 * (t[4 * j + 1] - 48) + (t[4 * j + 2] - 48),
        48 <= t[4 * j] <= 57 && 48 <= t[4 * j + 1] <= 57 && 48 <= t[4 * j + 2] <= 57,
{
    lemma_text_len(s);
    lemma_text_group_at(s, j);
    lemma_decimal_digits(s[j]);
    assert(t[4 * j] == t.subrange(4 * j, 4 * j + 4)[0]);
    assert(t[4 * j + 1] == t.subrange(4 * j, 4 * j + 4)[1]);
    assert(t[4 * j + 2] == t.subrange(4 * j, 4 * j + 4)[2]);
    assert(t[4 * j + 3] == t.subrange(4 * j, 4 * j + 4)[3]);
}

/// Renders field bytes as text: three zero-padded decimal digits and a
/// space per byte.
pub fn render_text(b: &Vec<u8>) -> (r: Vec<u8>)
    ensures
        r@ == text_of(b@),
{
    let mut out: Vec<u8> = Vec::new();
    let mut i: usize = 0;
    while i < b.len()
        invariant
            i <= b@.len(),
            out@ == text_of(b@.take(i as int)),
        decreases b@.len() - i,
    {
        let v = b[i];
        proof {
            lemma_decimal_digits(v);
        }
        out.push(48 + v / 100);
        out.push(48 + (v / 10) % 10);
        out.push(48 + v % 10);
        out.push(32);
        proof {
            assert(b@.take(i + 1).drop_last() =~= b@.take(i as int));
            assert(out@ =~= text_of(b@.take(i + 1)));
        }
        i += 1;
    }
    proof {
        assert(b@.take(b@.len() as int) =~= b@);
    }
    out
}

/// Parses a text payload back into its field bytes. Exactly the canonical
/// renderings produced by `render_text` are accepted.
pub fn parse_text(t: &Vec<u8>) -> (r: Result<Vec<u8>, DecodeError>)
    ensures
        r matches Ok(b) ==> text_of(b@) == t@,
        forall|s: Seq<u8>| t@ == text_of(s) ==> (r matches Ok(b) && b@ == s),
{
    if t.len() % 4 != 0 {
        proof {
            assert forall|s: Seq<u8>| t@ == text_of(s) implies false by {
                lemma_text_len(s);
            }
        }
        return Err(DecodeError::Malformed);
    }
    let n = t.len() / 4;
    let tl = t.len();
    proof {
        lemma_fundamental_div_mod(t@.len() as int, 4);
    }
    let mut out: Vec<u8> = Vec::new();
    let mut i: usize = 0;
    while i < n
        invariant
            i <= n,
            tl == t@.len(),
            4 * n == t@.len(),
            out@.len() == i,
            text_of(out@) == t@.take(4 * i as int),
            forall|s: Seq<u8>| t@ == text_of(s) ==> i <= s.len() && out@ == s.take(i as int),
        decreases n - i,
    {
        let c0 = t[4 * i];
        let c1 = t[4 * i + 1];
        let c2 = t[4 * i + 2];
        let c3 = t[4 * i + 3];
        if !(48 <= c0 && c0 <= 57 && 48 <= c1 && c1 <= 57 && 48 <= c2 && c2 <= 57 && c3 == 32) {
            proof {
                assert forall|s: Seq<u8>| t@ == text_of(s) implies false by {
                    lemma_text_len(s);
                    lemma_group_fields(s, t@, i as int);
                }
            }
            return Err(DecodeError::Malformed);
        }
        let value: u16 = (c0 - 48) as u16 * 100 + (c1 - 48) as u16 * 10 + (c2 - 48) as u16;
        if value > 255 {
            proof {
                assert forall|s: Seq<u8>| t@ == text_of(s) implies false by {
                    lemma_text_len(s);
                    lemma_group_fields(s, t@, i as int);
                }
            }
            return Err(DecodeError::Malformed);
        }
        let v = value as u8;
        let ghost prev = out@;
        out.push(v);
        proof {
            let d0 = c0 - 48;
            let d1 = c1 - 48;
            let d2 = c2 - 48;
            lemma_fundamental_div_mod_converse(v as int, 100, d0 as int, 10 * d1 + d2);
            lemma_fundamental_div_mod_converse(v as int, 10, 10 * d0 + d1, d2 as int);
            lemma_fundamental_div_mod_converse((10 * d0 + d1) as int, 10, d0 as int, d1 as int);
            assert(text_group(v) =~= t@.subrange(4 * i as int, 4 * i + 4));
            assert(out@.drop_last() =~= prev);
            assert(text_of(out@) == text_of(prev) + text_group(v));
            assert(text_of(out@) =~= t@.take(4 * (i + 1)));
            assert forall|s: Seq<u8>| t@ == text_of(s) implies i + 1 <= s.len() && out@ == s.take(
                i + 1,
            ) by {
                lemma_text_len(s);
                lemma_group_fields(s, t@, i as int);
                assert(s[i as int] == v as u8);
                assert(out@ =~= s.take(i + 1));
            }
        }
        i += 1;
    }
    proof {
        assert(t@.take(4 * i as int) =~= t@);
        assert forall|s: Seq<u8>| t@ == text_of(s) implies out@ == s by {
            lemma_text_len(s);
            assert(out@ =~= s.take(i as int));
            assert(s.take(i as int) =~= s);
        }
    }
    Ok(out)
}

} // verus!
