//! The mathematical model of the wire protocol: an abstract frame
//! value, the canonical encoding of a frame as a byte sequence, and
//! the parse and probe functions that the executable decoder and
//! length prober are proved against.

use vstd::prelude::*;
use crate::text::{
    all_digits, crlf, crlf_at, dec_digits, first_crlf_from, parse_int_text, CR, LF, MINUS, PLUS,
};
use crate::floattext::is_float_text;
use crate::RespError;

verus! {

pub const COLON: u8 = 58;
pub const HASH: u8 = 35;
pub const DOLLAR: u8 = 36;
pub const STAR: u8 = 42;
pub const UNDERSCORE: u8 = 95;
pub const PERCENT: u8 = 37;
pub const TILDE: u8 = 126;
pub const COMMA: u8 = 44;
pub const LOWER_T: u8 = 116;
pub const LOWER_F: u8 = 102;
pub const ONE: u8 = 49;

/// An abstract wire frame. Text and raw payloads are byte sequences;
/// a map is a sequence of key/value pairs kept in strictly ascending
/// key order; a double carries its wire text.
#[verifier::ext_equal]
pub enum FrameV {
    SimpleString(Seq<u8>),
    Error(Seq<u8>),
    Integer(i64),
    BulkString(Seq<u8>),
    Array(Seq<FrameV>),
    Null,
    NullArray,
    NullBulkString,
    Boolean(bool),
    Double(Seq<u8>),
    Mapping(Seq<(Seq<u8>, FrameV)>),
    Collection(Seq<FrameV>),
}

/// The fixed token of the null frame.
pub open spec fn null_token() -> Seq<u8> {
    seq![UNDERSCORE, CR, LF]
}

/// The fixed token of a null array or null bulk string: the tag, then
/// the sentinel count -1.
pub open spec fn null_composite_token(tag: u8) -> Seq<u8> {
    seq![tag, MINUS, ONE, CR, LF]
}

/// The fixed token of a boolean frame.
pub open spec fn bool_token(v: bool) -> Seq<u8> {
    seq![HASH, if v { LOWER_T } else { LOWER_F }, CR, LF]
}

/// The wire text of an integer frame's value: the sign is always
/// written, then the decimal digits of the magnitude.
pub open spec fn int_wire_text(v: int) -> Seq<u8> {
    if v < 0 {
        seq![MINUS] + dec_digits((-v) as nat)
    } else {
        seq![PLUS] + dec_digits(v as nat)
    }
}

/// The canonical byte encoding of a frame. An empty array encodes as
/// the null-array token, so the wire cannot tell the two apart.
pub open spec fn encode_frame(f: FrameV) -> Seq<u8>
    decreases f, 0int,
{
    match f {
        FrameV::SimpleString(t) => seq![PLUS] + t + crlf(),
        FrameV::Error(t) => seq![MINUS] + t + crlf(),
        FrameV::Integer(v) => seq![COLON] + int_wire_text(v as int) + crlf(),
        FrameV::BulkString(d) => seq![DOLLAR] + dec_digits(d.len()) + crlf() + d + crlf(),
        FrameV::Array(items) => if items.len() == 0 {
            null_composite_token(STAR)
        } else {
            seq![STAR] + dec_digits(items.len()) + crlf() + encode_items(items)
        },
        FrameV::Null => null_token(),
        FrameV::NullArray => null_composite_token(STAR),
        FrameV::NullBulkString => null_composite_token(DOLLAR),
        FrameV::Boolean(v) => bool_token(v),
        FrameV::Double(t) => seq![COMMA] + t + crlf(),
        FrameV::Mapping(pairs) => seq![PERCENT] + dec_digits(pairs.len()) + crlf() + encode_pairs(
            pairs,
        ),
        FrameV::Collection(items) => seq![TILDE] + dec_digits(items.len()) + crlf() + encode_items(items),
    }
}

/// The concatenated encodings of a sequence of frames.
pub open spec fn encode_items(items: Seq<FrameV>) -> Seq<u8>
    decreases items, 1int,
{
    if items.len() == 0 {
        Seq::empty()
    } else {
        encode_frame(items[0]) + encode_items(items.subrange(1, items.len() as int))
    }
}

/// The concatenated encodings of a map's pairs: each key as a simple
/// string frame, then the value frame.
pub open spec fn encode_pairs(pairs: Seq<(Seq<u8>, FrameV)>) -> Seq<u8>
    decreases pairs, 1int,
{
    if pairs.len() == 0 {
        Seq::empty()
    } else {
        seq![PLUS] + pairs[0].0 + crlf() + encode_frame(pairs[0].1) + encode_pairs(
            pairs.subrange(1, pairs.len() as int),
        )
    }
}

/// Strict lexicographic order on byte strings; the order map keys are
/// kept in.
pub open spec fn lex_lt(a: Seq<u8>, b: Seq<u8>) -> bool
    decreases a.len(),
{
    if b.len() == 0 {
        false
    } else if a.len() == 0 {
        true
    } else if a[0] < b[0] {
        true
    } else if a[0] > b[0] {
        false
    } else {
        lex_lt(a.subrange(1, a.len() as int), b.subrange(1, b.len() as int))
    }
}

/// The lexicographic order is total: two keys compare one way or the
/// other, or are equal.
pub proof fn lemma_lex_total(a: Seq<u8>, b: Seq<u8>)
    ensures
        lex_lt(a, b) || lex_lt(b, a) || a == b,
    decreases a.len(),
{
    if b.len() == 0 {
        if a.len() == 0 {
            assert(a =~= b);
        }
    } else if a.len() == 0 {
    } else if a[0] < b[0] || a[0] > b[0] {
    } else {
        let at = a.subrange(1, a.len() as int);
        let bt = b.subrange(1, b.len() as int);
        lemma_lex_total(at, bt);
        if !lex_lt(a, b) && !lex_lt(b, a) {
            assert(at == bt);
            assert(a =~= b) by {
                assert(a.len() == b.len());
                assert(forall|i: int| 1 <= i < a.len() ==> a[i] == at[i - 1] && b[i] == bt[i - 1]);
            }
        }
    }
}

/// The lexicographic order is asymmetric and irreflexive.
pub proof fn lemma_lex_asym(a: Seq<u8>, b: Seq<u8>)
    requires
        lex_lt(a, b),
    ensures
        !lex_lt(b, a),
        a != b,
    decreases a.len(),
{
    if b.len() == 0 {
    } else if a.len() == 0 {
        assert(a.len() != b.len());
    } else if a[0] < b[0] {
        if a == b {
            assert(a[0] == b[0]);
        }
    } else {
        let at = a.subrange(1, a.len() as int);
        let bt = b.subrange(1, b.len() as int);
        lemma_lex_asym(at, bt);
        if a == b {
            assert(at =~= bt);
        }
    }
}

/// Map pairs in strictly ascending key order (keys are then unique).
pub open spec fn pairs_sorted(pairs: Seq<(Seq<u8>, FrameV)>) -> bool {
    forall|i: int, j: int|
        0 <= i < j < pairs.len() ==> lex_lt(#[trigger] pairs[i].0, #[trigger] pairs[j].0)
}

/// A frame that the encoder can write and the decoder reads back as
/// the same value: payload texts hold no CRLF, double payloads are
/// well-formed float literals, arrays are non-empty (an empty array
/// shares its token with the null array), map keys are sorted, and
/// the counts and the total size fit the machine.
pub open spec fn frame_codable(f: FrameV) -> bool
    decreases f, 0int,
{
    &&& encode_frame(f).len() <= usize::MAX
    &&& match f {
        FrameV::SimpleString(t) => !crate::text::contains_crlf(t),
        FrameV::Error(t) => !crate::text::contains_crlf(t),
        FrameV::Integer(_) => true,
        FrameV::BulkString(d) => d.len() <= usize::MAX,
        FrameV::Array(items) => items.len() >= 1 && items.len() <= usize::MAX && items_codable(
            items,
        ),
        FrameV::Null => true,
        FrameV::NullArray => true,
        FrameV::NullBulkString => true,
        FrameV::Boolean(_) => true,
        FrameV::Double(t) => is_float_text(t),
        FrameV::Mapping(pairs) => pairs.len() <= usize::MAX && pairs_sorted(pairs) && (forall|i: int|
            0 <= i < pairs.len() ==> !crate::text::contains_crlf(#[trigger] pairs[i].0))
            && pairs_codable(pairs),
        FrameV::Collection(items) => items.len() <= usize::MAX && items_codable(items),
    }
}

pub open spec fn items_codable(items: Seq<FrameV>) -> bool
    decreases items, 1int,
{
    if items.len() == 0 {
        true
    } else {
        frame_codable(items[0]) && items_codable(items.subrange(1, items.len() as int))
    }
}

pub open spec fn pairs_codable(pairs: Seq<(Seq<u8>, FrameV)>) -> bool
    decreases pairs, 1int,
{
    if pairs.len() == 0 {
        true
    } else {
        frame_codable(pairs[0].1) && pairs_codable(pairs.subrange(1, pairs.len() as int))
    }
}

/// Insert a pair into a key-sorted pair sequence, replacing the value
/// when the key is already present.
pub open spec fn sorted_insert(pairs: Seq<(Seq<u8>, FrameV)>, key: Seq<u8>, value: FrameV) -> Seq<
    (Seq<u8>, FrameV),
>
    decreases pairs.len(),
{
    if pairs.len() == 0 {
        seq![(key, value)]
    } else if lex_lt(key, pairs[0].0) {
        seq![(key, value)] + pairs
    } else if key == pairs[0].0 {
        seq![(key, value)] + pairs.subrange(1, pairs.len() as int)
    } else {
        seq![pairs[0]] + sorted_insert(pairs.subrange(1, pairs.len() as int), key, value)
    }
}

/// The map built by inserting decoded pairs left to right: later
/// occurrences of a key replace earlier ones, and the result is in
/// key order whatever order the wire used.
pub open spec fn build_map(pairs: Seq<(Seq<u8>, FrameV)>) -> Seq<(Seq<u8>, FrameV)>
    decreases pairs.len(),
{
    if pairs.len() == 0 {
        Seq::empty()
    } else {
        sorted_insert(build_map(pairs.drop_last()), pairs.last().0, pairs.last().1)
    }
}

/// The scan for the line of a scalar frame or of a length header: the
/// buffer must hold the one-byte prefix and reach the first CRLF. The
/// result is the index of that CRLF.
pub open spec fn parse_line(s: Seq<u8>, prefix: u8) -> Result<int, RespError> {
    if s.len() < 3 {
        Err(RespError::NotComplete)
    } else if s[0] != prefix {
        Err(RespError::InvalidFrameType)
    } else {
        match first_crlf_from(s, 1) {
            Some(end) => Ok(end),
            None => Err(RespError::NotComplete),
        }
    }
}

/// A fixed token at the front of the buffer: too short is
/// recoverable, a mismatch is fatal.
pub open spec fn parse_fixed(s: Seq<u8>, token: Seq<u8>) -> Result<(), RespError> {
    if s.len() < token.len() {
        Err(RespError::NotComplete)
    } else if s.subrange(0, token.len() as int) == token {
        Ok(())
    } else {
        Err(RespError::InvalidFrameType)
    }
}

/// A length header: the prefix line holding a non-negative count that
/// fits `usize`. The result is the CRLF index and the count. The -1
/// sentinels are fixed tokens matched before this runs, so a negative
/// count here is fatal.
pub open spec fn parse_count(s: Seq<u8>, prefix: u8) -> Result<(int, int), RespError> {
    match parse_line(s, prefix) {
        Ok(end) => match parse_int_text(s.subrange(1, end)) {
            Some(v) => if 0 <= v <= usize::MAX {
                Ok((end, v))
            } else {
                Err(RespError::ParseIntError)
            },
            None => Err(RespError::ParseIntError),
        },
        Err(e) => Err(e),
    }
}

/// A simple-string or error payload: the bytes between the prefix and
/// the first CRLF. The consumed length is `end + 2`.
pub open spec fn parse_simple(s: Seq<u8>, prefix: u8) -> Result<(Seq<u8>, int), RespError> {
    match parse_line(s, prefix) {
        Ok(end) => Ok((s.subrange(1, end), end + 2)),
        Err(e) => Err(e),
    }
}

/// An integer frame: its line's text must be a signed decimal that
/// fits `i64`.
pub open spec fn parse_integer(s: Seq<u8>) -> Result<(i64, int), RespError> {
    match parse_line(s, COLON) {
        Ok(end) => match parse_int_text(s.subrange(1, end)) {
            Some(v) => if i64::MIN <= v <= i64::MAX {
                Ok((v as i64, end + 2))
            } else {
                Err(RespError::ParseIntError)
            },
            None => Err(RespError::ParseIntError),
        },
        Err(e) => Err(e),
    }
}

/// A double frame: its line's text must be a well-formed float
/// literal; the text itself is the payload.
pub open spec fn parse_double(s: Seq<u8>) -> Result<(Seq<u8>, int), RespError> {
    match parse_line(s, COMMA) {
        Ok(end) => if is_float_text(s.subrange(1, end)) {
            Ok((s.subrange(1, end), end + 2))
        } else {
            Err(RespError::ParseFloatError)
        },
        Err(e) => Err(e),
    }
}

/// A boolean frame: one of the two fixed four-byte tokens.
pub open spec fn parse_boolean(s: Seq<u8>) -> Result<(bool, int), RespError> {
    if s.len() < 4 {
        Err(RespError::NotComplete)
    } else if s.subrange(0, 4) == bool_token(true) {
        Ok((true, 4))
    } else if s.subrange(0, 4) == bool_token(false) {
        Ok((false, 4))
    } else {
        Err(RespError::InvalidFrameType)
    }
}

/// A bulk string: length header, then that many payload bytes and a
/// closing CRLF. The declared length is trusted; the closing CRLF's
/// bytes are consumed unexamined.
pub open spec fn parse_bulk(s: Seq<u8>) -> Result<(Seq<u8>, int), RespError> {
    match parse_count(s, DOLLAR) {
        Ok((end, n)) => {
            let hdr = end + 2;
            if s.len() - hdr < n + 2 {
                Err(RespError::NotComplete)
            } else {
                Ok((s.subrange(hdr, hdr + n), hdr + n + 2))
            }
        },
        Err(e) => Err(e),
    }
}

/// The probed total length of a bulk string: known from the header
/// alone, whether or not the payload has arrived. A total beyond
/// `usize` cannot be reported (or ever satisfied) and counts as not
/// yet decidable.
pub open spec fn probe_bulk(s: Seq<u8>) -> Result<int, RespError> {
    match parse_count(s, DOLLAR) {
        Ok((end, n)) => if end + 2 + n + 2 > usize::MAX {
            Err(RespError::NotComplete)
        } else {
            Ok(end + 2 + n + 2)
        },
        Err(e) => Err(e),
    }
}

/// The total span of a composite frame whose length header's CRLF
/// sits at `end` and declares `k` children (pairs, under the map
/// tag): the header plus the probed span of every child.
pub open spec fn composite_total(s: Seq<u8>, end: int, k: int, prefix: u8) -> Result<
    int,
    RespError,
>
    decreases s.len(), 0int,
{
    let hdr = end + 2;
    if !(3 <= hdr <= s.len()) {
        Err(RespError::NotComplete)
    } else if prefix == PERCENT {
        match probe_pairs(s.subrange(hdr, s.len() as int), k) {
            Ok(m) => Ok(hdr + m),
            Err(e) => Err(e),
        }
    } else {
        match probe_items(s.subrange(hdr, s.len() as int), k) {
            Ok(m) => Ok(hdr + m),
            Err(e) => Err(e),
        }
    }
}

/// The probed byte length of the frame at the front of `s`: how many
/// bytes the complete frame occupies, without requiring all of them
/// to be present. Composite frames probe each child in turn.
pub open spec fn probe_frame(s: Seq<u8>) -> Result<int, RespError>
    decreases s.len(), 1int,
{
    if s.len() == 0 {
        Err(RespError::NotComplete)
    } else {
        let tag = s[0];
        if tag == PLUS || tag == MINUS || tag == COLON || tag == COMMA {
            match parse_line(s, tag) {
                Ok(end) => Ok(end + 2),
                Err(e) => Err(e),
            }
        } else if tag == HASH {
            if s.len() < 4 {
                Err(RespError::NotComplete)
            } else if s.subrange(0, 4) == bool_token(true) || s.subrange(0, 4) == bool_token(
                false,
            ) {
                Ok(4)
            } else {
                Err(RespError::InvalidFrameType)
            }
        } else if tag == UNDERSCORE {
            Ok(3)
        } else if tag == DOLLAR {
            match parse_fixed(s, null_composite_token(DOLLAR)) {
                Ok(()) => Ok(5),
                Err(RespError::NotComplete) => Err(RespError::NotComplete),
                Err(_) => probe_bulk(s),
            }
        } else if tag == STAR || tag == TILDE {
            if tag == STAR && parse_fixed(s, null_composite_token(STAR)) == Ok::<(), RespError>(
                (),
            ) {
                Ok(5)
            } else if tag == STAR && parse_fixed(s, null_composite_token(STAR)) == Err::<
                (),
                RespError,
            >(RespError::NotComplete) {
                Err(RespError::NotComplete)
            } else {
                match parse_count(s, tag) {
                    Ok((end, k)) => composite_total(s, end, k, tag),
                    Err(e) => Err(e),
                }
            }
        } else if tag == PERCENT {
            match parse_count(s, PERCENT) {
                Ok((end, k)) => composite_total(s, end, k, PERCENT),
                Err(e) => Err(e),
            }
        } else {
            Err(RespError::InvalidFrameType)
        }
    }
}

/// Probe `k` consecutive frames at the front of `t` and add up their
/// lengths. A child whose span runs past the buffer leaves the next
/// child's header out of reach, so the total is not yet decidable.
/// A successful total never exceeds the buffer's length.
pub open spec fn probe_items(t: Seq<u8>, k: int) -> Result<int, RespError>
    decreases t.len(), 2int,
{
    if k <= 0 {
        Ok(0)
    } else {
        match probe_frame(t) {
            Ok(n) => if !(1 <= n <= t.len()) {
                Err(RespError::NotComplete)
            } else {
                match probe_items(t.subrange(n, t.len() as int), k - 1) {
                    Ok(m) => Ok(n + m),
                    Err(e) => Err(e),
                }
            },
            Err(e) => Err(e),
        }
    }
}

/// Probe `k` key/value pairs: each key is a simple-string line, each
/// value any frame.
pub open spec fn probe_pairs(t: Seq<u8>, k: int) -> Result<int, RespError>
    decreases t.len(), 2int,
{
    if k <= 0 {
        Ok(0)
    } else {
        match parse_line(t, PLUS) {
            Ok(end) => {
                let kn = end + 2;
                if !(3 <= kn <= t.len()) {
                    Err(RespError::NotComplete)
                } else {
                    match probe_frame(t.subrange(kn, t.len() as int)) {
                        Ok(n) => if !(1 <= n <= t.len() - kn) {
                            Err(RespError::NotComplete)
                        } else {
                            match probe_pairs(t.subrange(kn + n, t.len() as int), k - 1) {
                                Ok(m) => Ok(kn + n + m),
                                Err(e) => Err(e),
                            }
                        },
                        Err(e) => Err(e),
                    }
                }
            },
            Err(e) => Err(e),
        }
    }
}

/// Parse one frame at the front of `s`. On success the result also
/// says how many bytes the frame occupied; the caller consumes
/// exactly that many. The `$` and `*` tags try their null-form fixed
/// token first and fall through to the general form only on a
/// definite mismatch.
pub open spec fn parse_frame(s: Seq<u8>) -> Result<(FrameV, int), RespError>
    decreases s.len(), 1int,
{
    if s.len() == 0 {
        Err(RespError::NotComplete)
    } else {
        let tag = s[0];
        if tag == PLUS {
            match parse_simple(s, PLUS) {
                Ok((t, n)) => Ok((FrameV::SimpleString(t), n)),
                Err(e) => Err(e),
            }
        } else if tag == MINUS {
            match parse_simple(s, MINUS) {
                Ok((t, n)) => Ok((FrameV::Error(t), n)),
                Err(e) => Err(e),
            }
        } else if tag == COLON {
            match parse_integer(s) {
                Ok((v, n)) => Ok((FrameV::Integer(v), n)),
                Err(e) => Err(e),
            }
        } else if tag == HASH {
            match parse_boolean(s) {
                Ok((v, n)) => Ok((FrameV::Boolean(v), n)),
                Err(e) => Err(e),
            }
        } else if tag == COMMA {
            match parse_double(s) {
                Ok((t, n)) => Ok((FrameV::Double(t), n)),
                Err(e) => Err(e),
            }
        } else if tag == UNDERSCORE {
            match parse_fixed(s, null_token()) {
                Ok(()) => Ok((FrameV::Null, 3)),
                Err(e) => Err(e),
            }
        } else if tag == DOLLAR {
            match parse_fixed(s, null_composite_token(DOLLAR)) {
                Ok(()) => Ok((FrameV::NullBulkString, 5)),
                Err(RespError::NotComplete) => Err(RespError::NotComplete),
                Err(_) => match parse_bulk(s) {
                    Ok((d, n)) => Ok((FrameV::BulkString(d), n)),
                    Err(e) => Err(e),
                },
            }
        } else if tag == STAR {
            match parse_fixed(s, null_composite_token(STAR)) {
                Ok(()) => Ok((FrameV::NullArray, 5)),
                Err(RespError::NotComplete) => Err(RespError::NotComplete),
                Err(_) => match parse_array(s) {
                    Ok((items, n)) => Ok((FrameV::Array(items), n)),
                    Err(e) => Err(e),
                },
            }
        } else if tag == PERCENT {
            match parse_map(s) {
                Ok((pairs, n)) => Ok((FrameV::Mapping(pairs), n)),
                Err(e) => Err(e),
            }
        } else if tag == TILDE {
            match parse_set(s) {
                Ok((items, n)) => Ok((FrameV::Collection(items), n)),
                Err(e) => Err(e),
            }
        } else {
            Err(RespError::InvalidFrameType)
        }
    }
}

/// The general array form: count header, a probe of the children to
/// see whether the whole frame has arrived, then the children
/// themselves.
pub open spec fn parse_array(s: Seq<u8>) -> Result<(Seq<FrameV>, int), RespError>
    decreases s.len(), 0int,
{
    match parse_count(s, STAR) {
        Ok((end, k)) => {
            let hdr = end + 2;
            if !(3 <= hdr <= s.len()) {
                Err(RespError::NotComplete)
            } else {
                match composite_total(s, end, k, STAR) {
                    Ok(_) => match parse_items(s.subrange(hdr, s.len() as int), k) {
                        Ok((items, m)) => Ok((items, hdr + m)),
                        Err(e) => Err(e),
                    },
                    Err(e) => Err(e),
                }
            }
        },
        Err(e) => Err(e),
    }
}

/// The set form: like an array under its own tag.
pub open spec fn parse_set(s: Seq<u8>) -> Result<(Seq<FrameV>, int), RespError>
    decreases s.len(), 0int,
{
    match parse_count(s, TILDE) {
        Ok((end, k)) => {
            let hdr = end + 2;
            if !(3 <= hdr <= s.len()) {
                Err(RespError::NotComplete)
            } else {
                match composite_total(s, end, k, TILDE) {
                    Ok(_) => match parse_items(s.subrange(hdr, s.len() as int), k) {
                        Ok((items, m)) => Ok((items, hdr + m)),
                        Err(e) => Err(e),
                    },
                    Err(e) => Err(e),
                }
            }
        },
        Err(e) => Err(e),
    }
}

/// The map form: pair-count header, a probe of all pairs, then the
/// pairs, folded into key order with later keys replacing earlier
/// ones.
pub open spec fn parse_map(s: Seq<u8>) -> Result<(Seq<(Seq<u8>, FrameV)>, int), RespError>
    decreases s.len(), 0int,
{
    match parse_count(s, PERCENT) {
        Ok((end, k)) => {
            let hdr = end + 2;
            if !(3 <= hdr <= s.len()) {
                Err(RespError::NotComplete)
            } else {
                match composite_total(s, end, k, PERCENT) {
                    Ok(_) => match parse_pairs(s.subrange(hdr, s.len() as int), k) {
                        Ok((pairs, m)) => Ok((build_map(pairs), hdr + m)),
                        Err(e) => Err(e),
                    },
                    Err(e) => Err(e),
                }
            }
        },
        Err(e) => Err(e),
    }
}

/// Parse `k` consecutive frames at the front of `t`, in order.
pub open spec fn parse_items(t: Seq<u8>, k: int) -> Result<(Seq<FrameV>, int), RespError>
    decreases t.len(), 2int,
{
    if k <= 0 {
        Ok((Seq::empty(), 0))
    } else {
        match parse_frame(t) {
            Ok((f, n)) => if !(1 <= n <= t.len()) {
                Err(RespError::NotComplete)
            } else {
                match parse_items(t.subrange(n, t.len() as int), k - 1) {
                    Ok((items, m)) => Ok((seq![f] + items, n + m)),
                    Err(e) => Err(e),
                }
            },
            Err(e) => Err(e),
        }
    }
}

/// Parse `k` key/value pairs at the front of `t`, in wire order.
pub open spec fn parse_pairs(t: Seq<u8>, k: int) -> Result<(Seq<(Seq<u8>, FrameV)>, int), RespError>
    decreases t.len(), 2int,
{
    if k <= 0 {
        Ok((Seq::empty(), 0))
    } else {
        match parse_simple(t, PLUS) {
            Ok((key, kn)) => if !(3 <= kn <= t.len()) {
                Err(RespError::NotComplete)
            } else {
                match parse_frame(t.subrange(kn, t.len() as int)) {
                    Ok((f, n)) => if !(1 <= n <= t.len() - kn) {
                        Err(RespError::NotComplete)
                    } else {
                        match parse_pairs(t.subrange(kn + n, t.len() as int), k - 1) {
                            Ok((pairs, m)) => Ok((seq![(key, f)] + pairs, kn + n + m)),
                            Err(e) => Err(e),
                        }
                    },
                    Err(e) => Err(e),
                }
            },
            Err(e) => Err(e),
        }
    }
}

} // verus!
