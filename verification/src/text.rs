//! Byte-level text primitives shared by the prober, decoder and
//! encoder: CRLF scanning and decimal integer fields.

use vstd::prelude::*;

verus! {

pub const CR: u8 = 13;
pub const LF: u8 = 10;
pub const PLUS: u8 = 43;
pub const MINUS: u8 = 45;
pub const ZERO: u8 = 48;
pub const NINE: u8 = 57;

/// The two-byte line terminator.
pub open spec fn crlf() -> Seq<u8> {
    seq![CR, LF]
}

/// True when the two bytes starting at index `i` of `s` are CRLF.
pub open spec fn crlf_at(s: Seq<u8>, i: int) -> bool {
    &&& 0 <= i
    &&& i + 2 <= s.len()
    &&& s[i] == CR
    &&& s[i + 1] == LF
}

/// True when `s` holds a CRLF pair anywhere.
pub open spec fn contains_crlf(s: Seq<u8>) -> bool {
    exists|i: int| crlf_at(s, i)
}

/// Index of the first CRLF of `s` at or after `from`, if any.
pub open spec fn first_crlf_from(s: Seq<u8>, from: int) -> Option<int>
    decreases s.len() - from,
{
    if from < 0 || from + 2 > s.len() {
        None
    } else if s[from] == CR && s[from + 1] == LF {
        Some(from)
    } else {
        first_crlf_from(s, from + 1)
    }
}

/// What a `first_crlf_from` result means: the first CRLF at or after
/// `from`, or a promise that there is none.
pub proof fn lemma_first_crlf_from(s: Seq<u8>, from: int)
    requires
        from >= 0,
    ensures
        match first_crlf_from(s, from) {
            Some(i) => from <= i && crlf_at(s, i) && (forall|j: int|
                from <= j < i ==> !crlf_at(s, j)),
            None => forall|j: int| j >= from ==> !crlf_at(s, j),
        },
    decreases s.len() - from,
{
    if from + 2 > s.len() {
        assert forall|j: int| j >= from implies !crlf_at(s, j) by {}
    } else if s[from] == CR && s[from + 1] == LF {
    } else {
        lemma_first_crlf_from(s, from + 1);
    }
}

/// Converse direction: a known first CRLF pins the result.
pub proof fn lemma_first_crlf_is(s: Seq<u8>, from: int, i: int)
    requires
        0 <= from <= i,
        crlf_at(s, i),
        forall|j: int| from <= j < i ==> !crlf_at(s, j),
    ensures
        first_crlf_from(s, from) == Some(i),
    decreases i - from,
{
    if from < i {
        assert(!crlf_at(s, from));
        lemma_first_crlf_is(s, from + 1, i);
    } else {
        assert(first_crlf_from(s, i) == Some(i));
    }
}

/// First CRLF of `buf` at or after index 1, the byte right behind a
/// frame's one-byte type prefix.
pub fn find_crlf(buf: &[u8]) -> (r: Option<usize>)
    ensures
        match r {
            Some(i) => first_crlf_from(buf@, 1) == Some(i as int),
            None => first_crlf_from(buf@, 1) is None,
        },
{
    let n = buf.len();
    let mut i: usize = 1;
    loop
        invariant
            1 <= i,
            n == buf@.len(),
            first_crlf_from(buf@, 1) == first_crlf_from(buf@, i as int),
        decreases n - i,
    {
        if n < 2 || i > n - 2 {
            return None;
        }
        if buf[i] == CR && buf[i + 1] == LF {
            return Some(i);
        }
        i = i + 1;
    }
}

pub open spec fn is_digit(b: u8) -> bool {
    ZERO <= b <= NINE
}

pub open spec fn all_digits(s: Seq<u8>) -> bool {
    forall|i: int| 0 <= i < s.len() ==> is_digit(#[trigger] s[i])
}

/// Value of a digit string read in base ten, most significant first.
pub open spec fn dec_value(s: Seq<u8>) -> nat
    decreases s.len(),
{
    if s.len() == 0 {
        0
    } else {
        dec_value(s.drop_last()) * 10 + (s.last() - ZERO) as nat
    }
}

/// Canonical decimal digits of `n`, without leading zeros.
pub open spec fn dec_digits(n: nat) -> Seq<u8>
    decreases n,
{
    if n < 10 {
        seq![(n + ZERO) as u8]
    } else {
        dec_digits(n / 10).push((n % 10 + ZERO) as u8)
    }
}

pub proof fn lemma_dec_digits_form(n: nat)
    ensures
        dec_digits(n).len() >= 1,
        all_digits(dec_digits(n)),
        dec_value(dec_digits(n)) == n,
    decreases n,
{
    if n < 10 {
        assert(dec_value(dec_digits(n).drop_last()) == 0);
    } else {
        lemma_dec_digits_form(n / 10);
        let d = dec_digits(n);
        assert(d.drop_last() =~= dec_digits(n / 10));
        assert(dec_value(d) == (n / 10) * 10 + n % 10);
        assert((n / 10) * 10 + n % 10 == n) by {
            vstd::arithmetic::div_mod::lemma_fundamental_div_mod(n as int, 10);
        }
        assert forall|i: int| 0 <= i < d.len() implies is_digit(#[trigger] d[i]) by {
            if i < d.len() - 1 {
                assert(d[i] == dec_digits(n / 10)[i]);
            }
        }
    }
}

/// Text of a signed decimal field: an optional sign, then one or more
/// digits. This is also the grammar `str::parse` gives the integer
/// types, except that here the value is unbounded.
pub open spec fn parse_int_text(s: Seq<u8>) -> Option<int> {
    if s.len() == 0 {
        None
    } else if s[0] == PLUS || s[0] == MINUS {
        if s.len() >= 2 && all_digits(s.subrange(1, s.len() as int)) {
            let m = dec_value(s.subrange(1, s.len() as int)) as int;
            Some(if s[0] == MINUS { -m } else { m })
        } else {
            None
        }
    } else if all_digits(s) {
        Some(dec_value(s) as int)
    } else {
        None
    }
}

/// Sign and magnitude of the decimal field `buf[lo..hi]`. `None` means
/// the field is malformed; a `None` magnitude means the field is well
/// formed but its magnitude exceeds `u64::MAX`.
pub fn parse_int_in(buf: &[u8], lo: usize, hi: usize) -> (r: Option<(bool, Option<u64>)>)
    requires
        lo <= hi <= buf@.len(),
    ensures
        ({
            let sub = buf@.subrange(lo as int, hi as int);
            match (r, parse_int_text(sub)) {
                (None, None) => true,
                (Some((neg, mag)), Some(v)) => match mag {
                    Some(m) => v == if neg {
                        -(m as int)
                    } else {
                        m as int
                    },
                    None => v > u64::MAX || v < -(u64::MAX as int),
                },
                _ => false,
            }
        }),
{
    let ghost sub = buf@.subrange(lo as int, hi as int);
    if lo == hi {
        return None;
    }
    let first = buf[lo];
    let neg = first == MINUS;
    let has_sign = first == PLUS || first == MINUS;
    let start = if has_sign {
        lo + 1
    } else {
        lo
    };
    if start == hi {
        // a bare sign has no digits
        proof {
            assert(sub.len() == hi - lo);
            assert(sub[0] == buf@[lo as int]);
        }
        return None;
    }
    let ghost digs = buf@.subrange(start as int, hi as int);
    proof {
        assert(sub.len() == hi - lo);
        assert(sub[0] == buf@[lo as int]);
        if has_sign {
            assert(digs =~= sub.subrange(1, sub.len() as int));
        } else {
            assert(digs =~= sub);
        }
    }
    let mut i: usize = start;
    let mut m: u64 = 0;
    let mut big = false;
    #[verifier::loop_isolation(false)]
    while i < hi
        invariant
            start <= i <= hi <= buf@.len(),
            digs == buf@.subrange(start as int, hi as int),
            all_digits(buf@.subrange(start as int, i as int)),
            !big ==> m == dec_value(buf@.subrange(start as int, i as int)),
            big ==> dec_value(buf@.subrange(start as int, i as int)) > u64::MAX,
        decreases hi - i,
    {
        let b = buf[i];
        if b < ZERO || b > NINE {
            proof {
                assert(!is_digit(digs[i as int - start as int]));
            }
            return None;
        }
        let d = (b - ZERO) as u64;
        let ghost pre = buf@.subrange(start as int, i as int);
        let ghost post = buf@.subrange(start as int, i as int + 1);
        proof {
            assert(post.drop_last() =~= pre);
            assert(post.last() == b);
            assert(dec_value(post) == dec_value(pre) * 10 + d);
        }
        if big {
        } else if m > 1844674407370955161u64 || (m == 1844674407370955161u64 && d > 5) {
            big = true;
        } else {
            m = m * 10 + d;
        }
        i = i + 1;
    }
    proof {
        assert(digs =~= buf@.subrange(start as int, hi as int));
        if has_sign {
            assert(sub[0] == first);
            assert(sub.len() >= 2);
        }
    }
    Some((neg, if big {
        None
    } else {
        Some(m)
    }))
}

/// The count in `buf[lo..hi]`, when it is a well-formed non-negative
/// decimal that fits `usize`.
pub fn parse_count_in(buf: &[u8], lo: usize, hi: usize) -> (r: Option<usize>)
    requires
        lo <= hi <= buf@.len(),
    ensures
        ({
            let v = parse_int_text(buf@.subrange(lo as int, hi as int));
            match r {
                Some(c) => v == Some(c as int),
                None => match v {
                    Some(x) => !(0 <= x <= usize::MAX),
                    None => true,
                },
            }
        }),
{
    match parse_int_in(buf, lo, hi) {
        Some((neg, Some(m))) => {
            if neg && m > 0 {
                None
            } else if m <= usize::MAX as u64 {
                Some(m as usize)
            } else {
                None
            }
        },
        Some((_, None)) => None,
        None => None,
    }
}

/// The value in `buf[lo..hi]`, when it is a well-formed signed decimal
/// that fits `i64`.
pub fn parse_i64_in(buf: &[u8], lo: usize, hi: usize) -> (r: Option<i64>)
    requires
        lo <= hi <= buf@.len(),
    ensures
        ({
            let v = parse_int_text(buf@.subrange(lo as int, hi as int));
            match r {
                Some(x) => v == Some(x as int),
                None => match v {
                    Some(x) => !(i64::MIN <= x <= i64::MAX),
                    None => true,
                },
            }
        }),
{
    match parse_int_in(buf, lo, hi) {
        Some((neg, Some(m))) => {
            if neg {
                if m <= i64::MAX as u64 {
                    Some(-(m as i64))
                } else if m == i64::MAX as u64 + 1 {
                    Some(i64::MIN)
                } else {
                    None
                }
            } else {
                if m <= i64::MAX as u64 {
                    Some(m as i64)
                } else {
                    None
                }
            }
        },
        Some((_, None)) => None,
        None => None,
    }
}

/// The canonical decimal digits of `n`, as bytes.
pub fn format_u64(n: u64) -> (r: Vec<u8>)
    ensures
        r@ == dec_digits(n as nat),
{
    let mut out: Vec<u8> = Vec::new();
    let mut m = n;
    proof {
        assert(dec_digits(n as nat) =~= dec_digits(n as nat) + out@);
    }
    loop
        invariant
            dec_digits(n as nat) == dec_digits(m as nat) + out@,
        decreases m,
    {
        let d = (m % 10) as u8 + ZERO;
        let next = m / 10;
        let ghost out0 = out@;
        out.insert(0, d);
        proof {
            assert(out@ =~= seq![d] + out0);
            if next > 0 {
                assert(dec_digits(m as nat) == dec_digits((m / 10) as nat).push(d));
                assert(dec_digits((m / 10) as nat).push(d) + out0 =~= dec_digits(
                    (m / 10) as nat,
                ) + out@);
            } else {
                assert(dec_digits(m as nat) =~= seq![d]);
                assert(dec_digits(m as nat) + out0 =~= out@);
            }
        }
        if next == 0 {
            return out;
        }
        m = next;
    }
}

} // verus!
