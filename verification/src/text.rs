//! Text helpers for the outbound events: rendering a fingerprint in decimal
//! and truncating a title to the summary byte budget.

use vstd::prelude::*;
use vstd::utf8::{encode_utf8, is_char_boundary, valid_utf8};
use vstd::string::StringExecFns;

verus! {

broadcast use vstd::utf8::encode_utf8_valid_utf8;

/// Byte budget for an outbound summary.
pub const MAX_SUMMARY_BYTES: usize = 1024;

/// Byte length of the ellipsis marker appended on truncation.
pub const ELLIPSIS_BYTES: usize = 3;

// ---------------------------------------------------------------------------
// General facts about UTF-8 encoding.
// ---------------------------------------------------------------------------

/// Encoding distributes over concatenation of character sequences.
pub proof fn lemma_encode_utf8_concat(a: Seq<char>, b: Seq<char>)
    ensures
        encode_utf8(a + b) == encode_utf8(a) + encode_utf8(b),
    decreases a.len(),
{
    if a.len() == 0 {
        assert(a + b =~= b);
        assert(encode_utf8(a) + encode_utf8(b) =~= encode_utf8(b));
    } else {
        assert((a + b).drop_first() =~= a.drop_first() + b);
        assert((a + b)[0] == a[0]);
        lemma_encode_utf8_concat(a.drop_first(), b);
        assert(vstd::utf8::encode_scalar(a[0] as u32) + (encode_utf8(a.drop_first())
            + encode_utf8(b)) =~= (vstd::utf8::encode_scalar(a[0] as u32) + encode_utf8(
            a.drop_first(),
        )) + encode_utf8(b));
    }
}

/// Encoding is injective: equal encodings come from equal character sequences.
pub proof fn lemma_encode_utf8_injective(a: Seq<char>, b: Seq<char>)
    requires
        encode_utf8(a) == encode_utf8(b),
    ensures
        a == b,
{
    vstd::utf8::encode_utf8_decode_utf8(a);
    vstd::utf8::encode_utf8_decode_utf8(b);
}

/// The characters of the ellipsis marker.
pub open spec fn ellipsis_chars() -> Seq<char> {
    seq!['.', '.', '.']
}

/// The marker encodes to three one-byte characters.
pub proof fn lemma_ellipsis_encoding()
    ensures
        encode_utf8(ellipsis_chars()) == seq![0x2eu8, 0x2eu8, 0x2eu8],
{
    assert(('.' as u32) == 46);
    assert((46u32 & 0x7F) as u8 == 46u8) by (bit_vector);
    assert(vstd::utf8::encode_scalar('.' as u32) =~= seq![46u8]);
    let e = ellipsis_chars();
    assert(e.drop_first() =~= seq!['.', '.']);
    assert(seq!['.', '.'].drop_first() =~= seq!['.']);
    assert(seq!['.'].drop_first() =~= Seq::<char>::empty());
    assert(encode_utf8(Seq::<char>::empty()) =~= Seq::<u8>::empty());
    assert(encode_utf8(seq!['.']) =~= seq![46u8]);
    assert(encode_utf8(seq!['.', '.']) =~= seq![46u8, 46u8]);
    assert(encode_utf8(e) =~= seq![46u8, 46u8, 46u8]);
}

// ---------------------------------------------------------------------------
// Summary truncation.
// ---------------------------------------------------------------------------

/// The largest character boundary of `b` at or below `i`.
pub open spec fn cut_point(b: Seq<u8>, i: int) -> int
    decreases i,
{
    if i <= 0 {
        0
    } else if is_char_boundary(b, i) {
        i
    } else {
        cut_point(b, i - 1)
    }
}

/// The cut point lies between 0 and `i`.
pub proof fn lemma_cut_point_range(b: Seq<u8>, i: int)
    requires
        0 <= i,
    ensures
        0 <= cut_point(b, i) <= i,
    decreases i,
{
    if i > 0 && !is_char_boundary(b, i) {
        lemma_cut_point_range(b, i - 1);
    }
}

/// The bytes of the outbound summary for a title with the given UTF-8 bytes:
/// short titles pass through unchanged; longer ones are cut at the largest
/// character boundary that leaves room for the ellipsis marker.
pub open spec fn summary_bytes(b: Seq<u8>) -> Seq<u8> {
    if b.len() <= MAX_SUMMARY_BYTES {
        b
    } else {
        b.subrange(0, cut_point(b, (MAX_SUMMARY_BYTES - ELLIPSIS_BYTES) as int)) + encode_utf8(
            ellipsis_chars(),
        )
    }
}

/// Truncate a title to the summary byte budget, rounding the cut down to a
/// character boundary and appending an ellipsis marker.
pub fn truncated_summary(title: &str) -> (r: String)
    ensures
        encode_utf8(r@) == summary_bytes(encode_utf8(title@)),
        encode_utf8(title@).len() <= MAX_SUMMARY_BYTES ==> r@ == title@,
{
    let ghost b = encode_utf8(title@);
    let title_bytes = title.as_bytes();
    if title_bytes.len() <= MAX_SUMMARY_BYTES {
        return title.to_owned();
    }
    proof {
        assert(b.len() > MAX_SUMMARY_BYTES);
    }
    let mut i: usize = MAX_SUMMARY_BYTES - ELLIPSIS_BYTES;
    while !title.is_char_boundary(i)
        invariant
            i <= MAX_SUMMARY_BYTES - ELLIPSIS_BYTES,
            b == encode_utf8(title@),
            valid_utf8(b),
            cut_point(b, (MAX_SUMMARY_BYTES - ELLIPSIS_BYTES) as int) == cut_point(b, i as int),
        decreases i,
    {
        proof {
            assert(is_char_boundary(b, 0));
            assert(i > 0);
        }
        i = i - 1;
    }
    let (prefix, _rest) = title.split_at(i);
    let mut r = prefix.to_owned();
    r.append("...");
    proof {
        reveal_strlit("...");
        assert("..."@ =~= ellipsis_chars());
        lemma_encode_utf8_concat(prefix@, ellipsis_chars());
        assert(encode_utf8(prefix@) == b.subrange(0, i as int));
        assert(cut_point(b, (MAX_SUMMARY_BYTES - ELLIPSIS_BYTES) as int) == i as int);
        assert(encode_utf8(r@) == summary_bytes(b));
    }
    r
}

/// Truncation law: a title within the byte budget passes through unchanged;
/// a longer one is cut to at most the budget and ends in the ellipsis marker,
/// and to exactly the budget when the cut position is a character boundary.
pub proof fn lemma_truncation_law(t: Seq<char>)
    ensures
        encode_utf8(t).len() <= MAX_SUMMARY_BYTES ==> summary_bytes(encode_utf8(t)) == encode_utf8(
            t,
        ),
        encode_utf8(t).len() > MAX_SUMMARY_BYTES ==> summary_bytes(encode_utf8(t)).len()
            <= MAX_SUMMARY_BYTES,
        encode_utf8(t).len() > MAX_SUMMARY_BYTES ==> summary_bytes(encode_utf8(t)).subrange(
            summary_bytes(encode_utf8(t)).len() - 3,
            summary_bytes(encode_utf8(t)).len() as int,
        ) == seq![0x2eu8, 0x2eu8, 0x2eu8],
        encode_utf8(t).len() > MAX_SUMMARY_BYTES && is_char_boundary(
            encode_utf8(t),
            (MAX_SUMMARY_BYTES - ELLIPSIS_BYTES) as int,
        ) ==> summary_bytes(encode_utf8(t)).len() == MAX_SUMMARY_BYTES,
{
    let b = encode_utf8(t);
    lemma_ellipsis_encoding();
    if b.len() > MAX_SUMMARY_BYTES {
        let c = cut_point(b, (MAX_SUMMARY_BYTES - ELLIPSIS_BYTES) as int);
        lemma_cut_point_range(b, (MAX_SUMMARY_BYTES - ELLIPSIS_BYTES) as int);
        let s = summary_bytes(b);
        assert(s.len() == c + 3);
        assert(s.subrange(s.len() - 3, s.len() as int) =~= seq![0x2eu8, 0x2eu8, 0x2eu8]);
    }
}

// ---------------------------------------------------------------------------
// Decimal rendering.
// ---------------------------------------------------------------------------

/// The character for one decimal digit.
pub open spec fn digit_char(d: int) -> char {
    if d == 0 {
        '0'
    } else if d == 1 {
        '1'
    } else if d == 2 {
        '2'
    } else if d == 3 {
        '3'
    } else if d == 4 {
        '4'
    } else if d == 5 {
        '5'
    } else if d == 6 {
        '6'
    } else if d == 7 {
        '7'
    } else if d == 8 {
        '8'
    } else {
        '9'
    }
}

/// The decimal rendering of a number, most significant digit first.
pub open spec fn dec_chars(n: nat) -> Seq<char>
    decreases n,
{
    if n < 10 {
        seq![digit_char(n as int)]
    } else {
        dec_chars(n / 10).push(digit_char((n % 10) as int))
    }
}

/// The rendering of a sequence of digits collected least significant first.
spec fn digits_chars(ds: Seq<u64>) -> Seq<char>
    decreases ds.len(),
{
    if ds.len() == 0 {
        Seq::empty()
    } else {
        seq![digit_char(ds.last() as int)] + digits_chars(ds.drop_last())
    }
}

/// Append the character of one decimal digit to a string.
fn append_digit(s: &mut String, d: u64)
    requires
        d < 10,
    ensures
        final(s)@ == old(s)@.push(digit_char(d as int)),
{
    if d == 0 {
        proof {
            reveal_strlit("0");
            assert("0"@ =~= seq![digit_char(0)]);
        }
        s.append("0");
    } else if d == 1 {
        proof {
            reveal_strlit("1");
            assert("1"@ =~= seq![digit_char(1)]);
        }
        s.append("1");
    } else if d == 2 {
        proof {
            reveal_strlit("2");
            assert("2"@ =~= seq![digit_char(2)]);
        }
        s.append("2");
    } else if d == 3 {
        proof {
            reveal_strlit("3");
            assert("3"@ =~= seq![digit_char(3)]);
        }
        s.append("3");
    } else if d == 4 {
        proof {
            reveal_strlit("4");
            assert("4"@ =~= seq![digit_char(4)]);
        }
        s.append("4");
    } else if d == 5 {
        proof {
            reveal_strlit("5");
            assert("5"@ =~= seq![digit_char(5)]);
        }
        s.append("5");
    } else if d == 6 {
        proof {
            reveal_strlit("6");
            assert("6"@ =~= seq![digit_char(6)]);
        }
        s.append("6");
    } else if d == 7 {
        proof {
            reveal_strlit("7");
            assert("7"@ =~= seq![digit_char(7)]);
        }
        s.append("7");
    } else if d == 8 {
        proof {
            reveal_strlit("8");
            assert("8"@ =~= seq![digit_char(8)]);
        }
        s.append("8");
    } else {
        proof {
            reveal_strlit("9");
            assert("9"@ =~= seq![digit_char(9)]);
        }
        s.append("9");
    }
    proof {
        assert(s@ =~= old(s)@.push(digit_char(d as int)));
    }
}

/// Render a 64-bit number in decimal.
pub fn u64_to_decimal(n: u64) -> (s: String)
    ensures
        s@ == dec_chars(n as nat),
{
    let mut digits: Vec<u64> = Vec::new();
    let mut m = n;
    digits.push(m % 10);
    m = m / 10;
    proof {
        assert(digits@ =~= seq![n % 10]);
        assert(digits@.drop_last() =~= Seq::<u64>::empty());
        assert(digits_chars(Seq::<u64>::empty()) =~= Seq::<char>::empty());
        assert(digits_chars(digits@) =~= seq![digit_char((n % 10) as int)]);
        if m == 0 {
            assert(dec_chars(n as nat) == digits_chars(digits@));
        } else {
            assert(dec_chars(n as nat) == dec_chars((n / 10) as nat).push(
                digit_char((n % 10) as int),
            ));
            assert(dec_chars((m as nat)) + digits_chars(digits@) =~= dec_chars(
                (n / 10) as nat,
            ).push(digit_char((n % 10) as int)));
        }
    }
    while m > 0
        invariant
            forall|k: int| 0 <= k < digits@.len() ==> digits@[k] < 10,
            digits@.len() >= 1,
            m == 0 ==> dec_chars(n as nat) == digits_chars(digits@),
            m > 0 ==> dec_chars(n as nat) == dec_chars(m as nat) + digits_chars(digits@),
        decreases m,
    {
        let ghost ds = digits@;
        let ghost m0 = m;
        let d = m % 10;
        digits.push(d);
        m = m / 10;
        proof {
            assert(digits@.last() == d);
            assert(digits@.drop_last() =~= ds);
            assert(digits_chars(digits@) =~= seq![digit_char(d as int)] + digits_chars(ds));
            if m > 0 {
                assert(dec_chars(m0 as nat) == dec_chars(m as nat).push(digit_char(d as int)));
                assert(dec_chars(m as nat) + digits_chars(digits@) =~= (dec_chars(m as nat).push(
                    digit_char(d as int),
                )) + digits_chars(ds));
            } else {
                assert(m0 < 10);
                assert(dec_chars(m0 as nat) == seq![digit_char(m0 as int)]);
                assert(d == m0);
                assert(digits_chars(digits@) =~= dec_chars(m0 as nat) + digits_chars(ds));
            }
        }
    }
    let mut s = String::new();
    let mut j = digits.len();
    proof {
        assert(digits@.take(j as int) =~= digits@);
        assert(Seq::<char>::empty() + digits_chars(digits@) =~= digits_chars(digits@));
    }
    while j > 0
        invariant
            j <= digits@.len(),
            forall|k: int| 0 <= k < digits@.len() ==> digits@[k] < 10,
            s@ + digits_chars(digits@.take(j as int)) == dec_chars(n as nat),
        decreases j,
    {
        let ghost s0 = s@;
        j = j - 1;
        append_digit(&mut s, digits[j]);
        proof {
            let taken = digits@.take(j + 1);
            assert(taken.last() == digits@[j as int]);
            assert(taken.drop_last() =~= digits@.take(j as int));
            assert(digits_chars(taken) =~= seq![digit_char(digits@[j as int] as int)]
                + digits_chars(digits@.take(j as int)));
            assert(s@ + digits_chars(digits@.take(j as int)) =~= s0 + digits_chars(taken));
        }
    }
    proof {
        assert(digits@.take(0) =~= Seq::<u64>::empty());
        assert(s@ + digits_chars(digits@.take(0)) =~= s@);
    }
    s
}

} // verus!
