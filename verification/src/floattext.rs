//! The grammar of the double frame's payload: an optional sign, a
//! digit string with at most one dot, and an optional exponent part.
//! The decoder accepts exactly this language; anything else in a
//! double frame is a fatal parse error.

use vstd::prelude::*;
use crate::text::{all_digits, is_digit, parse_int_text, MINUS, PLUS};

verus! {

pub const DOT: u8 = 46;
pub const E_LOWER: u8 = 101;
pub const E_UPPER: u8 = 69;

/// Digits with at most one dot between them; at least one digit.
pub open spec fn is_mantissa(s: Seq<u8>) -> bool {
    ||| (s.len() >= 1 && all_digits(s))
    ||| (exists|i: int|
        0 <= i < s.len() && s[i] == DOT && all_digits(s.subrange(0, i)) && all_digits(
            s.subrange(i + 1, s.len() as int),
        ) && s.len() >= 2)
}

/// The exponent field: an optional sign and one or more digits.
pub open spec fn is_exponent(s: Seq<u8>) -> bool {
    parse_int_text(s) is Some
}

/// A mantissa, optionally followed by `e` or `E` and an exponent.
pub open spec fn is_float_body(s: Seq<u8>) -> bool {
    ||| is_mantissa(s)
    ||| (exists|i: int|
        0 <= i < s.len() && (s[i] == E_LOWER || s[i] == E_UPPER) && is_mantissa(
            s.subrange(0, i),
        ) && is_exponent(s.subrange(i + 1, s.len() as int)))
}

/// A well-formed double payload: optional sign, then a float body.
pub open spec fn is_float_text(s: Seq<u8>) -> bool {
    &&& s.len() >= 1
    &&& if s[0] == PLUS || s[0] == MINUS {
        is_float_body(s.subrange(1, s.len() as int))
    } else {
        is_float_body(s)
    }
}

/// A mantissa holds only digits and dots.
proof fn lemma_mantissa_chars(s: Seq<u8>, j: int)
    requires
        is_mantissa(s),
        0 <= j < s.len(),
    ensures
        is_digit(s[j]) || s[j] == DOT,
{
    if s.len() >= 1 && all_digits(s) {
    } else {
        let i = choose|i: int|
            0 <= i < s.len() && s[i] == DOT && all_digits(s.subrange(0, i)) && all_digits(
                s.subrange(i + 1, s.len() as int),
            ) && s.len() >= 2;
        if j < i {
            assert(s.subrange(0, i)[j] == s[j]);
            assert(is_digit(s.subrange(0, i)[j]));
        } else if j > i {
            assert(s.subrange(i + 1, s.len() as int)[j - i - 1] == s[j]);
            assert(is_digit(s.subrange(i + 1, s.len() as int)[j - i - 1]));
        }
    }
}

/// An exponent field holds only digits and signs.
proof fn lemma_exponent_chars(s: Seq<u8>, j: int)
    requires
        is_exponent(s),
        0 <= j < s.len(),
    ensures
        is_digit(s[j]) || s[j] == PLUS || s[j] == MINUS,
{
    if s[0] == PLUS || s[0] == MINUS {
        if j >= 1 {
            assert(s.subrange(1, s.len() as int)[j - 1] == s[j]);
            assert(is_digit(s.subrange(1, s.len() as int)[j - 1]));
        }
    } else {
        assert(is_digit(s[j]));
    }
}

/// Every byte of a float payload is a digit, sign, dot or exponent
/// marker; in particular the payload holds no carriage return or
/// line feed.
pub proof fn lemma_float_text_chars(s: Seq<u8>, j: int)
    requires
        is_float_text(s),
        0 <= j < s.len(),
    ensures
        is_digit(s[j]) || s[j] == PLUS || s[j] == MINUS || s[j] == DOT || s[j] == E_LOWER || s[j]
            == E_UPPER,
{
    let b = if s[0] == PLUS || s[0] == MINUS {
        s.subrange(1, s.len() as int)
    } else {
        s
    };
    let off = if s[0] == PLUS || s[0] == MINUS {
        1int
    } else {
        0int
    };
    if j >= off {
        assert(b[j - off] == s[j]);
        if is_mantissa(b) {
            lemma_mantissa_chars(b, j - off);
        } else {
            let i = choose|i: int|
                0 <= i < b.len() && (b[i] == E_LOWER || b[i] == E_UPPER) && is_mantissa(
                    b.subrange(0, i),
                ) && is_exponent(b.subrange(i + 1, b.len() as int));
            if j - off < i {
                assert(b.subrange(0, i)[j - off] == b[j - off]);
                lemma_mantissa_chars(b.subrange(0, i), j - off);
            } else if j - off > i {
                assert(b.subrange(i + 1, b.len() as int)[j - off - i - 1] == b[j - off]);
                lemma_exponent_chars(b.subrange(i + 1, b.len() as int), j - off - i - 1);
            }
        }
    }
}

/// First index in `[lo, hi)` whose byte is `b1` or `b2`, if any.
fn find_byte2_in(buf: &[u8], lo: usize, hi: usize, b1: u8, b2: u8) -> (r: Option<usize>)
    requires
        lo <= hi <= buf@.len(),
    ensures
        match r {
            Some(p) => lo <= p < hi && (buf@[p as int] == b1 || buf@[p as int] == b2) && (
            forall|j: int| lo <= j < p ==> buf@[j] != b1 && buf@[j] != b2),
            None => forall|j: int| lo <= j < hi ==> buf@[j] != b1 && buf@[j] != b2,
        },
{
    let mut i = lo;
    #[verifier::loop_isolation(false)]
    while i < hi
        invariant
            lo <= i <= hi,
            forall|j: int| lo <= j < i ==> buf@[j] != b1 && buf@[j] != b2,
        decreases hi - i,
    {
        if buf[i] == b1 || buf[i] == b2 {
            return Some(i);
        }
        i = i + 1;
    }
    None
}

/// Whether `buf[lo..hi]` is all digits.
fn digits_in(buf: &[u8], lo: usize, hi: usize) -> (r: bool)
    requires
        lo <= hi <= buf@.len(),
    ensures
        r == all_digits(buf@.subrange(lo as int, hi as int)),
{
    let ghost sub = buf@.subrange(lo as int, hi as int);
    let mut i = lo;
    #[verifier::loop_isolation(false)]
    while i < hi
        invariant
            lo <= i <= hi,
            forall|j: int| lo <= j < i ==> is_digit(#[trigger] buf@[j]),
        decreases hi - i,
    {
        let b = buf[i];
        if b < crate::text::ZERO || b > crate::text::NINE {
            proof {
                assert(sub[i as int - lo as int] == buf@[i as int]);
            }
            return false;
        }
        i = i + 1;
    }
    proof {
        assert forall|j: int| 0 <= j < sub.len() implies is_digit(#[trigger] sub[j]) by {
            assert(sub[j] == buf@[lo + j]);
        }
    }
    true
}

/// Whether `buf[lo..hi]` is a well-formed mantissa.
fn check_mantissa_in(buf: &[u8], lo: usize, hi: usize) -> (r: bool)
    requires
        lo <= hi <= buf@.len(),
    ensures
        r == is_mantissa(buf@.subrange(lo as int, hi as int)),
{
    let ghost sub = buf@.subrange(lo as int, hi as int);
    if lo == hi {
        return false;
    }
    match find_byte2_in(buf, lo, hi, DOT, DOT) {
        None => {
            let r = digits_in(buf, lo, hi);
            proof {
                if !r {
                    // without a dot the split form of the grammar is
                    // out too
                    assert forall|i: int| 0 <= i < sub.len() implies sub[i] != DOT by {
                        assert(sub[i] == buf@[lo + i]);
                    }
                }
            }
            r
        },
        Some(p) => {
            proof {
                assert(sub[p as int - lo as int] == buf@[p as int]);
            }
            if hi - lo < 2 {
                proof {
                    // a lone dot is not a mantissa: any split index
                    // must be the dot itself, and the length bound
                    // fails
                    assert(!all_digits(sub));
                }
                return false;
            }
            let left = digits_in(buf, lo, p);
            let right = digits_in(buf, p + 1, hi);
            proof {
                assert(buf@.subrange(lo as int, p as int) =~= sub.subrange(0, p - lo));
                assert(buf@.subrange(p as int + 1, hi as int) =~= sub.subrange(
                    p - lo + 1,
                    sub.len() as int,
                ));
                assert(!all_digits(sub)) by {
                    assert(sub[p - lo] == buf@[p as int]);
                }
                if left && right {
                    assert(is_mantissa(sub)) by {
                        let i = p - lo;
                        assert(sub[i] == DOT && all_digits(sub.subrange(0, i)) && all_digits(
                            sub.subrange(i + 1, sub.len() as int),
                        ));
                    }
                } else {
                    // the dot at p is the first one; any valid split
                    // would have to sit exactly there
                    assert forall|i: int|
                        0 <= i < sub.len() && sub[i] == DOT && all_digits(sub.subrange(0, i))
                            && all_digits(sub.subrange(i + 1, sub.len() as int)) implies false by {
                        if i < p - lo {
                            assert(buf@[lo + i] == sub[i]);
                        } else if i > p - lo {
                            assert(sub.subrange(0, i)[p - lo] == sub[p - lo]);
                            assert(is_digit(sub[p - lo]));
                        } else {
                            if !left {
                                assert(all_digits(sub.subrange(0, i)));
                            } else {
                                assert(all_digits(sub.subrange(i + 1, sub.len() as int)));
                            }
                        }
                    }
                }
            }
            left && right
        },
    }
}

/// Whether `buf[lo..hi]` is a well-formed double payload.
pub fn check_float_in(buf: &[u8], lo: usize, hi: usize) -> (r: bool)
    requires
        lo <= hi <= buf@.len(),
    ensures
        r == is_float_text(buf@.subrange(lo as int, hi as int)),
{
    let ghost sub = buf@.subrange(lo as int, hi as int);
    if lo == hi {
        return false;
    }
    let first = buf[lo];
    let start = if first == PLUS || first == MINUS {
        lo + 1
    } else {
        lo
    };
    let ghost body = buf@.subrange(start as int, hi as int);
    proof {
        assert(sub[0] == buf@[lo as int]);
        if start > lo {
            assert(body =~= sub.subrange(1, sub.len() as int));
        } else {
            assert(body =~= sub);
        }
    }
    let r = check_body_in(buf, start, hi);
    proof {
        assert(r == is_float_body(body));
    }
    r
}

/// Whether `buf[lo..hi]` is a float body (mantissa with optional
/// exponent part).
fn check_body_in(buf: &[u8], lo: usize, hi: usize) -> (r: bool)
    requires
        lo <= hi <= buf@.len(),
    ensures
        r == is_float_body(buf@.subrange(lo as int, hi as int)),
{
    let ghost sub = buf@.subrange(lo as int, hi as int);
    match find_byte2_in(buf, lo, hi, E_LOWER, E_UPPER) {
        None => {
            let r = check_mantissa_in(buf, lo, hi);
            proof {
                // with no exponent marker the split form is out
                assert forall|i: int|
                    0 <= i < sub.len() && (sub[i] == E_LOWER || sub[i] == E_UPPER) implies false by {
                    assert(sub[i] == buf@[lo + i]);
                }
            }
            r
        },
        Some(p) => {
            let left = check_mantissa_in(buf, lo, p);
            let right = match crate::text::parse_int_in(buf, p + 1, hi) {
                Some(_) => true,
                None => false,
            };
            proof {
                let i = p - lo;
                assert(sub[i] == buf@[p as int]);
                assert(buf@.subrange(lo as int, p as int) =~= sub.subrange(0, i));
                assert(buf@.subrange(p as int + 1, hi as int) =~= sub.subrange(
                    i + 1,
                    sub.len() as int,
                ));
                // the marker at p is the first one; a mantissa holds
                // no marker, so any valid split sits exactly there
                if !(left && right) {
                    assert(!is_mantissa(sub)) by {
                        if is_mantissa(sub) {
                            lemma_mantissa_chars(sub, i);
                        }
                    }
                    assert forall|k: int|
                        0 <= k < sub.len() && (sub[k] == E_LOWER || sub[k] == E_UPPER)
                            && is_mantissa(sub.subrange(0, k)) && is_exponent(
                            sub.subrange(k + 1, sub.len() as int),
                        ) implies false by {
                        if k < i {
                            assert(buf@[lo + k] == sub[k]);
                        } else if k > i {
                            lemma_mantissa_chars(sub.subrange(0, k), i);
                            assert(sub.subrange(0, k)[i] == sub[i]);
                        }
                    }
                } else {
                    assert(!all_digits(sub)) by {
                        assert(sub[i] == buf@[p as int]);
                    }
                    assert(is_float_body(sub)) by {
                        assert(0 <= i < sub.len() && (sub[i] == E_LOWER || sub[i] == E_UPPER)
                            && is_mantissa(sub.subrange(0, i)) && is_exponent(
                            sub.subrange(i + 1, sub.len() as int),
                        ));
                    }
                }
            }
            left && right
        },
    }
}

} // verus!
