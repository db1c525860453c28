//! The executable length prober and decoder, proved to return
//! exactly what the model's `probe_frame` and `parse_frame` say on
//! the buffer's bytes.

use vstd::prelude::*;
use crate::frame::{
    frame_view, frames_view, lemma_frames_view_push, pairs_view, BulkString, RespArray, RespDouble,
    RespFrame, RespMap, RespNull, RespNullArray, RespNullBulkString, RespSet, SimpleError,
    SimpleString,
};
use crate::model::{
    build_map, bool_token, composite_total, null_composite_token, null_token, parse_array,
    parse_boolean, parse_bulk, parse_count, parse_double, parse_fixed, parse_frame, parse_integer,
    parse_items, parse_line, parse_map, parse_pairs, parse_set, parse_simple, probe_frame,
    probe_items, probe_pairs, COLON, COMMA, DOLLAR, HASH, LOWER_F, LOWER_T, ONE, PERCENT, STAR,
    TILDE, UNDERSCORE,
};
use crate::text::{
    find_crlf, first_crlf_from, lemma_first_crlf_from, parse_count_in, parse_i64_in, CR, LF, MINUS,
    PLUS,
};
use crate::RespError;

verus! {

/// A line parse that succeeds stays inside the buffer: the CRLF index
/// is at least 1 and the line's span `end + 2` fits.
pub proof fn lemma_line_bounds(s: Seq<u8>, prefix: u8)
    ensures
        match parse_line(s, prefix) {
            Ok(end) => 1 <= end && end + 2 <= s.len(),
            Err(_) => true,
        },
{
    if s.len() >= 3 && s[0] == prefix {
        lemma_first_crlf_from(s, 1);
    }
}

/// The prefix check and CRLF scan shared by every line-terminated
/// form: the index of the line's CRLF.
pub fn extract_simple_frame_data(buf: &[u8], prefix: u8) -> (r: Result<usize, RespError>)
    ensures
        match r {
            Ok(end) => parse_line(buf@, prefix) == Ok::<int, RespError>(end as int) && 1 <= end
                && end + 2 <= buf@.len(),
            Err(e) => parse_line(buf@, prefix) == Err::<int, RespError>(e),
        },
{
    if buf.len() < 3 {
        return Err(RespError::NotComplete);
    }
    if buf[0] != prefix {
        return Err(RespError::InvalidFrameType);
    }
    match find_crlf(buf) {
        Some(end) => {
            proof {
                lemma_first_crlf_from(buf@, 1);
            }
            Ok(end)
        },
        None => Err(RespError::NotComplete),
    }
}

/// The length header of a sized frame: the line's CRLF index and the
/// non-negative count it declares.
pub fn parse_length(buf: &[u8], prefix: u8) -> (r: Result<(usize, usize), RespError>)
    ensures
        match r {
            Ok((end, count)) => parse_count(buf@, prefix) == Ok::<(int, int), RespError>(
                (end as int, count as int),
            ) && 1 <= end && end + 2 <= buf@.len(),
            Err(e) => parse_count(buf@, prefix) == Err::<(int, int), RespError>(e),
        },
{
    let end = match extract_simple_frame_data(buf, prefix) {
        Ok(end) => end,
        Err(e) => {
            return Err(e);
        },
    };
    match parse_count_in(buf, 1, end) {
        Some(count) => Ok((end, count)),
        None => Err(RespError::ParseIntError),
    }
}

/// The five-byte null token of the null array or null bulk string.
fn check_null_token(buf: &[u8], tag: u8) -> (r: Result<(), RespError>)
    ensures
        r == parse_fixed(buf@, null_composite_token(tag)),
{
    let ghost tok = null_composite_token(tag);
    if buf.len() < 5 {
        return Err(RespError::NotComplete);
    }
    let ghost head = buf@.subrange(0, 5);
    proof {
        assert(head[0] == buf@[0] && head[1] == buf@[1] && head[2] == buf@[2] && head[3] == buf@[3]
            && head[4] == buf@[4]);
    }
    if buf[0] == tag && buf[1] == MINUS && buf[2] == ONE && buf[3] == CR && buf[4] == LF {
        proof {
            assert(head =~= tok);
        }
        Ok(())
    } else {
        Err(RespError::InvalidFrameType)
    }
}

/// Probe `count` consecutive frames starting at `from` and return
/// the byte span they cover together.
fn probe_children(buf: &[u8], from: usize, count: usize) -> (r: Result<usize, RespError>)
    requires
        from <= buf@.len(),
    ensures
        ({
            let t0 = buf@.subrange(from as int, buf@.len() as int);
            match r {
                Ok(m) => probe_items(t0, count as int) == Ok::<int, RespError>(m as int) && from
                    + m <= buf@.len(),
                Err(e) => probe_items(t0, count as int) == Err::<int, RespError>(e),
            }
        }),
    decreases buf@.len() - from, 2int,
{
    let n = buf.len();
    let ghost t0 = buf@.subrange(from as int, n as int);
    let mut pos = from;
    let mut i: usize = 0;
    #[verifier::loop_isolation(false)]
    while i < count
        invariant
            from <= pos <= n,
            i <= count,
            n == buf@.len(),
            t0 == buf@.subrange(from as int, n as int),
            match probe_items(buf@.subrange(pos as int, n as int), count - i) {
                Ok(m) => probe_items(t0, count as int) == Ok::<int, RespError>(pos - from + m),
                Err(e) => probe_items(t0, count as int) == Err::<int, RespError>(e),
            },
        decreases count - i,
    {
        let ghost cur = buf@.subrange(pos as int, n as int);
        let sub = vstd::slice::slice_subrange(buf, pos, n);
        let cn = match expected_length(sub) {
            Ok(cn) => cn,
            Err(e) => {
                return Err(e);
            },
        };
        if cn == 0 || cn > n - pos {
            return Err(RespError::NotComplete);
        }
        proof {
            assert(cur.subrange(cn as int, cur.len() as int) =~= buf@.subrange(
                pos + cn,
                n as int,
            ));
        }
        pos = pos + cn;
        i = i + 1;
    }
    Ok(pos - from)
}

/// Probe `count` consecutive key/value pairs starting at `from` and
/// return the byte span they cover together.
fn probe_entries(buf: &[u8], from: usize, count: usize) -> (r: Result<usize, RespError>)
    requires
        from <= buf@.len(),
    ensures
        ({
            let t0 = buf@.subrange(from as int, buf@.len() as int);
            match r {
                Ok(m) => probe_pairs(t0, count as int) == Ok::<int, RespError>(m as int) && from
                    + m <= buf@.len(),
                Err(e) => probe_pairs(t0, count as int) == Err::<int, RespError>(e),
            }
        }),
    decreases buf@.len() - from, 2int,
{
    let n = buf.len();
    let ghost t0 = buf@.subrange(from as int, n as int);
    let mut pos = from;
    let mut i: usize = 0;
    #[verifier::loop_isolation(false)]
    while i < count
        invariant
            from <= pos <= n,
            i <= count,
            n == buf@.len(),
            t0 == buf@.subrange(from as int, n as int),
            match probe_pairs(buf@.subrange(pos as int, n as int), count - i) {
                Ok(m) => probe_pairs(t0, count as int) == Ok::<int, RespError>(pos - from + m),
                Err(e) => probe_pairs(t0, count as int) == Err::<int, RespError>(e),
            },
        decreases count - i,
    {
        let ghost cur = buf@.subrange(pos as int, n as int);
        let sub = vstd::slice::slice_subrange(buf, pos, n);
        let kend = match extract_simple_frame_data(sub, PLUS) {
            Ok(kend) => kend,
            Err(e) => {
                return Err(e);
            },
        };
        let kn = kend + 2;
        proof {
            assert(cur.subrange(kn as int, cur.len() as int) =~= buf@.subrange(
                pos + kn,
                n as int,
            ));
        }
        let sub2 = vstd::slice::slice_subrange(buf, pos + kn, n);
        let vn = match expected_length(sub2) {
            Ok(vn) => vn,
            Err(e) => {
                return Err(e);
            },
        };
        if vn == 0 || vn > n - pos - kn {
            return Err(RespError::NotComplete);
        }
        proof {
            assert(cur.subrange(kn + vn, cur.len() as int) =~= buf@.subrange(
                pos + kn + vn,
                n as int,
            ));
        }
        pos = pos + kn + vn;
        i = i + 1;
    }
    Ok(pos - from)
}

/// The total byte length of a composite frame whose length header
/// ends at `end` and declares `count` children (or pairs, under the
/// map tag): the header's span plus the probed span of every child.
pub fn calc_total_length(buf: &[u8], end: usize, count: usize, prefix: u8) -> (r: Result<
    usize,
    RespError,
>)
    ensures
        match r {
            Ok(t) => composite_total(buf@, end as int, count as int, prefix) == Ok::<
                int,
                RespError,
            >(t as int) && t <= buf@.len(),
            Err(e) => composite_total(buf@, end as int, count as int, prefix) == Err::<
                int,
                RespError,
            >(e),
        },
    decreases buf@.len() - end, 3int,
{
    let n = buf.len();
    if end < 1 || n < 3 || end > n - 2 {
        return Err(RespError::NotComplete);
    }
    let hdr = end + 2;
    if prefix == PERCENT {
        match probe_entries(buf, hdr, count) {
            Ok(m) => Ok(hdr + m),
            Err(e) => Err(e),
        }
    } else {
        match probe_children(buf, hdr, count) {
            Ok(m) => Ok(hdr + m),
            Err(e) => Err(e),
        }
    }
}

/// The byte length the complete frame at the front of `buf` will
/// occupy, computed without consuming anything: the length prober.
pub fn expected_length(buf: &[u8]) -> (r: Result<usize, RespError>)
    ensures
        match r {
            Ok(t) => probe_frame(buf@) == Ok::<int, RespError>(t as int),
            Err(e) => probe_frame(buf@) == Err::<int, RespError>(e),
        },
    decreases buf@.len(), 1int,
{
    if buf.len() == 0 {
        return Err(RespError::NotComplete);
    }
    let tag = buf[0];
    if tag == PLUS || tag == MINUS || tag == COLON || tag == COMMA {
        match extract_simple_frame_data(buf, tag) {
            Ok(end) => Ok(end + 2),
            Err(e) => Err(e),
        }
    } else if tag == HASH {
        if buf.len() < 4 {
            return Err(RespError::NotComplete);
        }
        let ghost head = buf@.subrange(0, 4);
        proof {
            assert(head[0] == buf@[0] && head[1] == buf@[1] && head[2] == buf@[2] && head[3]
                == buf@[3]);
        }
        if buf[1] == LOWER_T && buf[2] == CR && buf[3] == LF {
            proof {
                assert(head =~= bool_token(true));
            }
            Ok(4)
        } else if buf[1] == LOWER_F && buf[2] == CR && buf[3] == LF {
            proof {
                assert(head =~= bool_token(false));
            }
            Ok(4)
        } else {
            proof {
                assert(head != bool_token(true) && head != bool_token(false)) by {
                    if head == bool_token(true) || head == bool_token(false) {
                        assert(head[1] == buf@[1] && head[2] == buf@[2] && head[3] == buf@[3]);
                    }
                }
            }
            Err(RespError::InvalidFrameType)
        }
    } else if tag == UNDERSCORE {
        Ok(3)
    } else if tag == DOLLAR {
        match check_null_token(buf, DOLLAR) {
            Ok(()) => Ok(5),
            Err(RespError::NotComplete) => Err(RespError::NotComplete),
            Err(_) => {
                let (end, count) = match parse_length(buf, DOLLAR) {
                    Ok(p) => p,
                    Err(e) => {
                        return Err(e);
                    },
                };
                if count > usize::MAX - 4 || end > usize::MAX - 4 - count {
                    return Err(RespError::NotComplete);
                }
                Ok(end + 2 + count + 2)
            },
        }
    } else if tag == STAR || tag == TILDE {
        if tag == STAR {
            match check_null_token(buf, STAR) {
                Ok(()) => {
                    return Ok(5);
                },
                Err(RespError::NotComplete) => {
                    return Err(RespError::NotComplete);
                },
                Err(_) => {},
            }
        }
        let (end, count) = match parse_length(buf, tag) {
            Ok(p) => p,
            Err(e) => {
                return Err(e);
            },
        };
        calc_total_length(buf, end, count, tag)
    } else if tag == PERCENT {
        let (end, count) = match parse_length(buf, PERCENT) {
            Ok(p) => p,
            Err(e) => {
                return Err(e);
            },
        };
        calc_total_length(buf, end, count, PERCENT)
    } else {
        Err(RespError::InvalidFrameType)
    }
}


/// The payload of a line frame: the bytes between the prefix and the
/// line's CRLF, copied out.
fn take_line_payload(buf: &[u8], prefix: u8) -> (r: Result<(Vec<u8>, usize), RespError>)
    ensures
        match (r, parse_simple(buf@, prefix)) {
            (Ok((v, n)), Ok((t, sn))) => v@ == t && n as int == sn && n <= buf@.len(),
            (Err(e1), Err(e2)) => e1 == e2,
            _ => false,
        },
{
    // reading the length puts the slice's machine-size bound in scope
    let _buf_len = buf.len();
    let end = match extract_simple_frame_data(buf, prefix) {
        Ok(end) => end,
        Err(e) => {
            return Err(e);
        },
    };
    let payload = vstd::slice::slice_to_vec(vstd::slice::slice_subrange(buf, 1, end));
    Ok((payload, end + 2))
}

/// An integer frame at the front of `buf`.
fn parse_integer_ex(buf: &[u8]) -> (r: Result<(i64, usize), RespError>)
    ensures
        match (r, parse_integer(buf@)) {
            (Ok((v, n)), Ok((sv, sn))) => v == sv && n as int == sn && n <= buf@.len(),
            (Err(e1), Err(e2)) => e1 == e2,
            _ => false,
        },
{
    // reading the length puts the slice's machine-size bound in scope
    let _buf_len = buf.len();
    let end = match extract_simple_frame_data(buf, COLON) {
        Ok(end) => end,
        Err(e) => {
            return Err(e);
        },
    };
    match parse_i64_in(buf, 1, end) {
        Some(v) => Ok((v, end + 2)),
        None => Err(RespError::ParseIntError),
    }
}

/// A double frame at the front of `buf`: the wire text is checked
/// against the float grammar and returned as the payload.
fn parse_double_ex(buf: &[u8]) -> (r: Result<(Vec<u8>, usize), RespError>)
    ensures
        match (r, parse_double(buf@)) {
            (Ok((v, n)), Ok((t, sn))) => v@ == t && n as int == sn && n <= buf@.len(),
            (Err(e1), Err(e2)) => e1 == e2,
            _ => false,
        },
{
    // reading the length puts the slice's machine-size bound in scope
    let _buf_len = buf.len();
    let end = match extract_simple_frame_data(buf, COMMA) {
        Ok(end) => end,
        Err(e) => {
            return Err(e);
        },
    };
    if crate::floattext::check_float_in(buf, 1, end) {
        let payload = vstd::slice::slice_to_vec(vstd::slice::slice_subrange(buf, 1, end));
        Ok((payload, end + 2))
    } else {
        Err(RespError::ParseFloatError)
    }
}

/// A boolean frame at the front of `buf`: one of the two fixed
/// tokens.
fn parse_boolean_ex(buf: &[u8]) -> (r: Result<(bool, usize), RespError>)
    ensures
        match (r, parse_boolean(buf@)) {
            (Ok((v, n)), Ok((sv, sn))) => v == sv && n as int == sn && n <= buf@.len(),
            (Err(e1), Err(e2)) => e1 == e2,
            _ => false,
        },
{
    if buf.len() < 4 {
        return Err(RespError::NotComplete);
    }
    let ghost head = buf@.subrange(0, 4);
    proof {
        assert(head[0] == buf@[0] && head[1] == buf@[1] && head[2] == buf@[2] && head[3]
            == buf@[3]);
    }
    if buf[0] == HASH && buf[1] == LOWER_T && buf[2] == CR && buf[3] == LF {
        proof {
            assert(head =~= bool_token(true));
        }
        Ok((true, 4))
    } else if buf[0] == HASH && buf[1] == LOWER_F && buf[2] == CR && buf[3] == LF {
        proof {
            assert(head =~= bool_token(false));
        }
        Ok((false, 4))
    } else {
        proof {
            assert(head != bool_token(true) && head != bool_token(false)) by {
                if head == bool_token(true) || head == bool_token(false) {
                    assert(head[0] == buf@[0] && head[1] == buf@[1] && head[2] == buf@[2]
                        && head[3] == buf@[3]);
                }
            }
        }
        Err(RespError::InvalidFrameType)
    }
}

/// The three-byte null token at the front of `buf`.
fn parse_null_ex(buf: &[u8]) -> (r: Result<(), RespError>)
    ensures
        r == parse_fixed(buf@, null_token()),
        r is Ok ==> buf@.len() >= 3,
{
    if buf.len() < 3 {
        return Err(RespError::NotComplete);
    }
    let ghost head = buf@.subrange(0, 3);
    proof {
        assert(head[0] == buf@[0] && head[1] == buf@[1] && head[2] == buf@[2]);
    }
    if buf[0] == UNDERSCORE && buf[1] == CR && buf[2] == LF {
        proof {
            assert(head =~= null_token());
        }
        Ok(())
    } else {
        Err(RespError::InvalidFrameType)
    }
}

/// A bulk string at the front of `buf`: length header, payload,
/// trailing CRLF. The declared length is trusted and the trailing
/// two bytes are consumed without being examined.
fn parse_bulk_ex(buf: &[u8]) -> (r: Result<(Vec<u8>, usize), RespError>)
    ensures
        match (r, parse_bulk(buf@)) {
            (Ok((v, n)), Ok((t, sn))) => v@ == t && n as int == sn && n <= buf@.len(),
            (Err(e1), Err(e2)) => e1 == e2,
            _ => false,
        },
{
    // reading the length puts the slice's machine-size bound in scope
    let _buf_len = buf.len();
    let (end, count) = match parse_length(buf, DOLLAR) {
        Ok(p) => p,
        Err(e) => {
            return Err(e);
        },
    };
    let hdr = end + 2;
    let remaining = buf.len() - hdr;
    if remaining < count || remaining - count < 2 {
        return Err(RespError::NotComplete);
    }
    let payload = vstd::slice::slice_to_vec(vstd::slice::slice_subrange(buf, hdr, hdr + count));
    Ok((payload, hdr + count + 2))
}

/// Parse `count` consecutive frames starting at `from`, in order.
fn decode_children(buf: &[u8], from: usize, count: usize) -> (r: Result<
    (Vec<RespFrame>, usize),
    RespError,
>)
    requires
        from <= buf@.len(),
    ensures
        ({
            let t0 = buf@.subrange(from as int, buf@.len() as int);
            match (r, parse_items(t0, count as int)) {
                (Ok((v, m)), Ok((fs, sm))) => frames_view(v@) == fs && m as int == sm && from + m
                    <= buf@.len(),
                (Err(e1), Err(e2)) => e1 == e2,
                _ => false,
            }
        }),
    decreases buf@.len() - from, 2int,
{
    let n = buf.len();
    let ghost t0 = buf@.subrange(from as int, n as int);
    let mut frames: Vec<RespFrame> = Vec::new();
    let mut pos = from;
    let mut i: usize = 0;
    proof {
        assert(frames_view(frames@) =~= Seq::<crate::model::FrameV>::empty());
    }
    #[verifier::loop_isolation(false)]
    while i < count
        invariant
            from <= pos <= n,
            i <= count,
            n == buf@.len(),
            t0 == buf@.subrange(from as int, n as int),
            match parse_items(buf@.subrange(pos as int, n as int), count - i) {
                Ok((fs, m)) => parse_items(t0, count as int) == Ok::<
                    (Seq<crate::model::FrameV>, int),
                    RespError,
                >((frames_view(frames@) + fs, pos - from + m)),
                Err(e) => parse_items(t0, count as int) == Err::<
                    (Seq<crate::model::FrameV>, int),
                    RespError,
                >(e),
            },
        decreases count - i,
    {
        let ghost cur = buf@.subrange(pos as int, n as int);
        let sub = vstd::slice::slice_subrange(buf, pos, n);
        let (f, cn) = match parse_frame_ex(sub) {
            Ok(p) => p,
            Err(e) => {
                return Err(e);
            },
        };
        if cn == 0 || cn > n - pos {
            return Err(RespError::NotComplete);
        }
        proof {
            assert(cur.subrange(cn as int, cur.len() as int) =~= buf@.subrange(
                pos + cn,
                n as int,
            ));
            lemma_frames_view_push(frames@, f);
        }
        let ghost frames0 = frames@;
        frames.push(f);
        proof {
            match parse_items(buf@.subrange(pos + cn, n as int), count - i - 1) {
                Ok((fs2, m2)) => {
                    assert(frames_view(frames0) + (seq![frame_view(f)] + fs2) =~= frames_view(
                        frames@,
                    ) + fs2);
                },
                Err(_) => {},
            }
        }
        pos = pos + cn;
        i = i + 1;
    }
    proof {
        match parse_items(t0, count as int) {
            Ok((fs, m)) => {
                assert(frames_view(frames@) + Seq::<crate::model::FrameV>::empty() =~= frames_view(
                    frames@,
                ));
            },
            Err(_) => {},
        }
    }
    Ok((frames, pos - from))
}

/// Parse `count` key/value pairs starting at `from` and fold them
/// into a map, later keys replacing earlier ones.
fn decode_entries(buf: &[u8], from: usize, count: usize) -> (r: Result<(RespMap, usize), RespError>)
    requires
        from <= buf@.len(),
    ensures
        ({
            let t0 = buf@.subrange(from as int, buf@.len() as int);
            match (r, parse_pairs(t0, count as int)) {
                (Ok((v, m)), Ok((ps, sm))) => v@ == build_map(ps) && m as int == sm && from + m
                    <= buf@.len(),
                (Err(e1), Err(e2)) => e1 == e2,
                _ => false,
            }
        }),
    decreases buf@.len() - from, 2int,
{
    let n = buf.len();
    let ghost t0 = buf@.subrange(from as int, n as int);
    let mut map = RespMap::new();
    let ghost acc = Seq::<(Seq<u8>, crate::model::FrameV)>::empty();
    let mut pos = from;
    let mut i: usize = 0;
    #[verifier::loop_isolation(false)]
    while i < count
        invariant
            from <= pos <= n,
            i <= count,
            n == buf@.len(),
            t0 == buf@.subrange(from as int, n as int),
            map@ == build_map(acc),
            match parse_pairs(buf@.subrange(pos as int, n as int), count - i) {
                Ok((ps, m)) => parse_pairs(t0, count as int) == Ok::<
                    (Seq<(Seq<u8>, crate::model::FrameV)>, int),
                    RespError,
                >((acc + ps, pos - from + m)),
                Err(e) => parse_pairs(t0, count as int) == Err::<
                    (Seq<(Seq<u8>, crate::model::FrameV)>, int),
                    RespError,
                >(e),
            },
        decreases count - i,
    {
        let ghost cur = buf@.subrange(pos as int, n as int);
        let sub = vstd::slice::slice_subrange(buf, pos, n);
        let (key, kn) = match take_line_payload(sub, PLUS) {
            Ok(p) => p,
            Err(e) => {
                return Err(e);
            },
        };
        proof {
            lemma_line_bounds(cur, PLUS);
            assert(cur.subrange(kn as int, cur.len() as int) =~= buf@.subrange(
                pos + kn,
                n as int,
            ));
        }
        let sub2 = vstd::slice::slice_subrange(buf, pos + kn, n);
        let (f, vn) = match parse_frame_ex(sub2) {
            Ok(p) => p,
            Err(e) => {
                return Err(e);
            },
        };
        if vn == 0 || vn > n - pos - kn {
            return Err(RespError::NotComplete);
        }
        proof {
            assert(cur.subrange(kn + vn, cur.len() as int) =~= buf@.subrange(
                pos + kn + vn,
                n as int,
            ));
        }
        let ghost key_v = key@;
        let ghost f_v = frame_view(f);
        let ghost acc2 = acc.push((key_v, f_v));
        proof {
            assert(acc2.drop_last() =~= acc);
            assert(build_map(acc2) == crate::model::sorted_insert(build_map(acc), key_v, f_v));
            match parse_pairs(buf@.subrange(pos + kn + vn, n as int), count - i - 1) {
                Ok((ps2, m2)) => {
                    assert(acc + (seq![(key_v, f_v)] + ps2) =~= acc2 + ps2);
                },
                Err(_) => {},
            }
        }
        map.insert(key, f);
        proof {
            acc = acc2;
        }
        pos = pos + kn + vn;
        i = i + 1;
    }
    proof {
        match parse_pairs(t0, count as int) {
            Ok((ps, m)) => {
                assert(acc + Seq::<(Seq<u8>, crate::model::FrameV)>::empty() =~= acc);
            },
            Err(_) => {},
        }
    }
    Ok((map, pos - from))
}

/// The general array form at the front of `buf` (the null form is
/// matched before this runs).
fn parse_array_ex(buf: &[u8]) -> (r: Result<(Vec<RespFrame>, usize), RespError>)
    ensures
        match (r, parse_array(buf@)) {
            (Ok((v, n)), Ok((fs, sn))) => frames_view(v@) == fs && n as int == sn && n
                <= buf@.len(),
            (Err(e1), Err(e2)) => e1 == e2,
            _ => false,
        },
    decreases buf@.len(), 0int,
{
    // reading the length puts the slice's machine-size bound in scope
    let _buf_len = buf.len();
    let (end, count) = match parse_length(buf, STAR) {
        Ok(p) => p,
        Err(e) => {
            return Err(e);
        },
    };
    match calc_total_length(buf, end, count, STAR) {
        Ok(_) => {},
        Err(e) => {
            return Err(e);
        },
    }
    let hdr = end + 2;
    match decode_children(buf, hdr, count) {
        Ok((v, m)) => Ok((v, hdr + m)),
        Err(e) => Err(e),
    }
}

/// The set form at the front of `buf`.
fn parse_set_ex(buf: &[u8]) -> (r: Result<(Vec<RespFrame>, usize), RespError>)
    ensures
        match (r, parse_set(buf@)) {
            (Ok((v, n)), Ok((fs, sn))) => frames_view(v@) == fs && n as int == sn && n
                <= buf@.len(),
            (Err(e1), Err(e2)) => e1 == e2,
            _ => false,
        },
    decreases buf@.len(), 0int,
{
    // reading the length puts the slice's machine-size bound in scope
    let _buf_len = buf.len();
    let (end, count) = match parse_length(buf, TILDE) {
        Ok(p) => p,
        Err(e) => {
            return Err(e);
        },
    };
    match calc_total_length(buf, end, count, TILDE) {
        Ok(_) => {},
        Err(e) => {
            return Err(e);
        },
    }
    let hdr = end + 2;
    match decode_children(buf, hdr, count) {
        Ok((v, m)) => Ok((v, hdr + m)),
        Err(e) => Err(e),
    }
}

/// The map form at the front of `buf`.
fn parse_map_ex(buf: &[u8]) -> (r: Result<(RespMap, usize), RespError>)
    ensures
        match (r, parse_map(buf@)) {
            (Ok((v, n)), Ok((ps, sn))) => v@ == ps && n as int == sn && n <= buf@.len(),
            (Err(e1), Err(e2)) => e1 == e2,
            _ => false,
        },
    decreases buf@.len(), 0int,
{
    // reading the length puts the slice's machine-size bound in scope
    let _buf_len = buf.len();
    let (end, count) = match parse_length(buf, PERCENT) {
        Ok(p) => p,
        Err(e) => {
            return Err(e);
        },
    };
    match calc_total_length(buf, end, count, PERCENT) {
        Ok(_) => {},
        Err(e) => {
            return Err(e);
        },
    }
    let hdr = end + 2;
    match decode_entries(buf, hdr, count) {
        Ok((m, mlen)) => Ok((m, hdr + mlen)),
        Err(e) => Err(e),
    }
}

/// Parse one frame at the front of `buf`: the tag dispatch, with the
/// null-form tokens tried before the general `$` and `*` forms.
#[verifier::rlimit(100)]
pub fn parse_frame_ex(buf: &[u8]) -> (r: Result<(RespFrame, usize), RespError>)
    ensures
        match (r, parse_frame(buf@)) {
            (Ok((f, n)), Ok((fv, sn))) => f@ == fv && n as int == sn && n <= buf@.len(),
            (Err(e1), Err(e2)) => e1 == e2,
            _ => false,
        },
    decreases buf@.len(), 1int,
{
    if buf.len() == 0 {
        return Err(RespError::NotComplete);
    }
    let tag = buf[0];
    if tag == PLUS {
        match take_line_payload(buf, PLUS) {
            Ok((v, n)) => Ok((RespFrame::SimpleString(SimpleString(v)), n)),
            Err(e) => Err(e),
        }
    } else if tag == MINUS {
        match take_line_payload(buf, MINUS) {
            Ok((v, n)) => Ok((RespFrame::Error(SimpleError(v)), n)),
            Err(e) => Err(e),
        }
    } else if tag == COLON {
        match parse_integer_ex(buf) {
            Ok((v, n)) => Ok((RespFrame::Integer(v), n)),
            Err(e) => Err(e),
        }
    } else if tag == HASH {
        match parse_boolean_ex(buf) {
            Ok((v, n)) => Ok((RespFrame::Boolean(v), n)),
            Err(e) => Err(e),
        }
    } else if tag == COMMA {
        match parse_double_ex(buf) {
            Ok((v, n)) => Ok((RespFrame::Double(RespDouble(v)), n)),
            Err(e) => Err(e),
        }
    } else if tag == UNDERSCORE {
        match parse_null_ex(buf) {
            Ok(()) => Ok((RespFrame::Null(RespNull), 3)),
            Err(e) => Err(e),
        }
    } else if tag == DOLLAR {
        match check_null_token(buf, DOLLAR) {
            Ok(()) => Ok((RespFrame::NullBulkString(RespNullBulkString), 5)),
            Err(RespError::NotComplete) => Err(RespError::NotComplete),
            Err(_) => match parse_bulk_ex(buf) {
                Ok((v, n)) => Ok((RespFrame::BulkString(BulkString(v)), n)),
                Err(e) => Err(e),
            },
        }
    } else if tag == STAR {
        match check_null_token(buf, STAR) {
            Ok(()) => Ok((RespFrame::NullArray(RespNullArray), 5)),
            Err(RespError::NotComplete) => Err(RespError::NotComplete),
            Err(_) => match parse_array_ex(buf) {
                Ok((v, n)) => Ok((RespFrame::Array(RespArray(v)), n)),
                Err(e) => Err(e),
            },
        }
    } else if tag == PERCENT {
        match parse_map_ex(buf) {
            Ok((m, n)) => Ok((RespFrame::Mapping(m), n)),
            Err(e) => Err(e),
        }
    } else if tag == TILDE {
        match parse_set_ex(buf) {
            Ok((v, n)) => Ok((RespFrame::Collection(RespSet(v)), n)),
            Err(e) => Err(e),
        }
    } else {
        Err(RespError::InvalidFrameType)
    }
}


impl RespFrame {
    /// Decode one frame from the front of the connection buffer. On
    /// success exactly the frame's probed byte span is consumed; on
    /// any error the buffer is left untouched, and `NotComplete`
    /// means more bytes must be read before retrying.
    pub fn decode(buf: &mut bytes::BytesMut) -> (r: Result<RespFrame, RespError>)
        ensures
            ({
                let pre = crate::bufio::bytes_view(*old(buf));
                let post = crate::bufio::bytes_view(*final(buf));
                match (r, parse_frame(pre)) {
                    (Ok(f), Ok((fv, n))) => f@ == fv && post == pre.skip(n),
                    (Err(e1), Err(e2)) => e1 == e2 && post == pre,
                    _ => false,
                }
            }),
    {
        let pr = {
            let s = crate::bufio::bytes_as_slice(buf);
            parse_frame_ex(s)
        };
        match pr {
            Ok((f, n)) => {
                crate::bufio::bytes_advance(buf, n);
                Ok(f)
            },
            Err(e) => Err(e),
        }
    }

    /// The byte length the next complete frame will occupy, without
    /// consuming anything: the length prober at the frame level.
    pub fn expected_length(buf: &[u8]) -> (r: Result<usize, RespError>)
        ensures
            match r {
                Ok(t) => probe_frame(buf@) == Ok::<int, RespError>(t as int),
                Err(e) => probe_frame(buf@) == Err::<int, RespError>(e),
            },
    {
        expected_length(buf)
    }
}

impl SimpleString {
    /// Decode a simple-string frame from the front of the buffer.
    pub fn decode(buf: &mut bytes::BytesMut) -> (r: Result<SimpleString, RespError>)
        ensures
            ({
                let pre = crate::bufio::bytes_view(*old(buf));
                let post = crate::bufio::bytes_view(*final(buf));
                match (r, parse_simple(pre, PLUS)) {
                    (Ok(v), Ok((t, n))) => v@ == t && post == pre.skip(n),
                    (Err(e1), Err(e2)) => e1 == e2 && post == pre,
                    _ => false,
                }
            }),
    {
        let pr = {
            let s = crate::bufio::bytes_as_slice(buf);
            take_line_payload(s, PLUS)
        };
        match pr {
            Ok((v, n)) => {
                crate::bufio::bytes_advance(buf, n);
                Ok(SimpleString(v))
            },
            Err(e) => Err(e),
        }
    }
}

impl SimpleError {
    /// Decode an error frame from the front of the buffer.
    pub fn decode(buf: &mut bytes::BytesMut) -> (r: Result<SimpleError, RespError>)
        ensures
            ({
                let pre = crate::bufio::bytes_view(*old(buf));
                let post = crate::bufio::bytes_view(*final(buf));
                match (r, parse_simple(pre, MINUS)) {
                    (Ok(v), Ok((t, n))) => v@ == t && post == pre.skip(n),
                    (Err(e1), Err(e2)) => e1 == e2 && post == pre,
                    _ => false,
                }
            }),
    {
        let pr = {
            let s = crate::bufio::bytes_as_slice(buf);
            take_line_payload(s, MINUS)
        };
        match pr {
            Ok((v, n)) => {
                crate::bufio::bytes_advance(buf, n);
                Ok(SimpleError(v))
            },
            Err(e) => Err(e),
        }
    }
}

impl BulkString {
    /// Decode a bulk-string frame from the front of the buffer. The
    /// null form is not accepted at this type; the frame-level
    /// decoder matches it first.
    pub fn decode(buf: &mut bytes::BytesMut) -> (r: Result<BulkString, RespError>)
        ensures
            ({
                let pre = crate::bufio::bytes_view(*old(buf));
                let post = crate::bufio::bytes_view(*final(buf));
                match (r, parse_bulk(pre)) {
                    (Ok(v), Ok((t, n))) => v@ == t && post == pre.skip(n),
                    (Err(e1), Err(e2)) => e1 == e2 && post == pre,
                    _ => false,
                }
            }),
    {
        let pr = {
            let s = crate::bufio::bytes_as_slice(buf);
            parse_bulk_ex(s)
        };
        match pr {
            Ok((v, n)) => {
                crate::bufio::bytes_advance(buf, n);
                Ok(BulkString(v))
            },
            Err(e) => Err(e),
        }
    }
}

/// Decode an integer frame from the front of the buffer.
pub fn decode_integer(buf: &mut bytes::BytesMut) -> (r: Result<i64, RespError>)
    ensures
        ({
            let pre = crate::bufio::bytes_view(*old(buf));
            let post = crate::bufio::bytes_view(*final(buf));
            match (r, parse_integer(pre)) {
                (Ok(v), Ok((sv, n))) => v == sv && post == pre.skip(n),
                (Err(e1), Err(e2)) => e1 == e2 && post == pre,
                _ => false,
            }
        }),
{
    let pr = {
        let s = crate::bufio::bytes_as_slice(buf);
        parse_integer_ex(s)
    };
    match pr {
        Ok((v, n)) => {
            crate::bufio::bytes_advance(buf, n);
            Ok(v)
        },
        Err(e) => Err(e),
    }
}

/// Decode a boolean frame from the front of the buffer.
pub fn decode_boolean(buf: &mut bytes::BytesMut) -> (r: Result<bool, RespError>)
    ensures
        ({
            let pre = crate::bufio::bytes_view(*old(buf));
            let post = crate::bufio::bytes_view(*final(buf));
            match (r, parse_boolean(pre)) {
                (Ok(v), Ok((sv, n))) => v == sv && post == pre.skip(n),
                (Err(e1), Err(e2)) => e1 == e2 && post == pre,
                _ => false,
            }
        }),
{
    let pr = {
        let s = crate::bufio::bytes_as_slice(buf);
        parse_boolean_ex(s)
    };
    match pr {
        Ok((v, n)) => {
            crate::bufio::bytes_advance(buf, n);
            Ok(v)
        },
        Err(e) => Err(e),
    }
}

/// Decode a double frame from the front of the buffer; the payload
/// is its validated wire text.
pub fn decode_double(buf: &mut bytes::BytesMut) -> (r: Result<RespDouble, RespError>)
    ensures
        ({
            let pre = crate::bufio::bytes_view(*old(buf));
            let post = crate::bufio::bytes_view(*final(buf));
            match (r, parse_double(pre)) {
                (Ok(v), Ok((t, n))) => v@ == t && post == pre.skip(n),
                (Err(e1), Err(e2)) => e1 == e2 && post == pre,
                _ => false,
            }
        }),
{
    let pr = {
        let s = crate::bufio::bytes_as_slice(buf);
        parse_double_ex(s)
    };
    match pr {
        Ok((v, n)) => {
            crate::bufio::bytes_advance(buf, n);
            Ok(RespDouble(v))
        },
        Err(e) => Err(e),
    }
}

impl RespNull {
    /// Decode the null token from the front of the buffer.
    pub fn decode(buf: &mut bytes::BytesMut) -> (r: Result<RespNull, RespError>)
        ensures
            ({
                let pre = crate::bufio::bytes_view(*old(buf));
                let post = crate::bufio::bytes_view(*final(buf));
                match (r, parse_fixed(pre, null_token())) {
                    (Ok(v), Ok(())) => post == pre.skip(3),
                    (Err(e1), Err(e2)) => e1 == e2 && post == pre,
                    _ => false,
                }
            }),
    {
        let pr = {
            let s = crate::bufio::bytes_as_slice(buf);
            parse_null_ex(s)
        };
        match pr {
            Ok(()) => {
                crate::bufio::bytes_advance(buf, 3);
                Ok(RespNull)
            },
            Err(e) => Err(e),
        }
    }
}

impl RespNullArray {
    /// Decode the null-array token from the front of the buffer.
    pub fn decode(buf: &mut bytes::BytesMut) -> (r: Result<RespNullArray, RespError>)
        ensures
            ({
                let pre = crate::bufio::bytes_view(*old(buf));
                let post = crate::bufio::bytes_view(*final(buf));
                match (r, parse_fixed(pre, null_composite_token(STAR))) {
                    (Ok(v), Ok(())) => post == pre.skip(5),
                    (Err(e1), Err(e2)) => e1 == e2 && post == pre,
                    _ => false,
                }
            }),
    {
        let pr = {
            let s = crate::bufio::bytes_as_slice(buf);
            check_null_token(s, STAR)
        };
        match pr {
            Ok(()) => {
                crate::bufio::bytes_advance(buf, 5);
                Ok(RespNullArray)
            },
            Err(e) => Err(e),
        }
    }
}

impl RespNullBulkString {
    /// Decode the null-bulk-string token from the front of the
    /// buffer.
    pub fn decode(buf: &mut bytes::BytesMut) -> (r: Result<RespNullBulkString, RespError>)
        ensures
            ({
                let pre = crate::bufio::bytes_view(*old(buf));
                let post = crate::bufio::bytes_view(*final(buf));
                match (r, parse_fixed(pre, null_composite_token(DOLLAR))) {
                    (Ok(v), Ok(())) => post == pre.skip(5),
                    (Err(e1), Err(e2)) => e1 == e2 && post == pre,
                    _ => false,
                }
            }),
    {
        let pr = {
            let s = crate::bufio::bytes_as_slice(buf);
            check_null_token(s, DOLLAR)
        };
        match pr {
            Ok(()) => {
                crate::bufio::bytes_advance(buf, 5);
                Ok(RespNullBulkString)
            },
            Err(e) => Err(e),
        }
    }
}

impl RespArray {
    /// Decode an array frame from the front of the buffer. The null
    /// token is accepted first and yields the empty array at this
    /// type; otherwise the general form is decoded.
    pub fn decode(buf: &mut bytes::BytesMut) -> (r: Result<RespArray, RespError>)
        ensures
            ({
                let pre = crate::bufio::bytes_view(*old(buf));
                let post = crate::bufio::bytes_view(*final(buf));
                match parse_fixed(pre, null_composite_token(STAR)) {
                    Ok(()) => r is Ok && r.unwrap()@ == Seq::<crate::model::FrameV>::empty()
                        && post == pre.skip(5),
                    Err(RespError::NotComplete) => r == Err::<RespArray, RespError>(
                        RespError::NotComplete,
                    ) && post == pre,
                    Err(_) => match (r, parse_array(pre)) {
                        (Ok(v), Ok((fs, n))) => v@ == fs && post == pre.skip(n),
                        (Err(e1), Err(e2)) => e1 == e2 && post == pre,
                        _ => false,
                    },
                }
            }),
    {
        let nr = {
            let s = crate::bufio::bytes_as_slice(buf);
            check_null_token(s, STAR)
        };
        match nr {
            Ok(()) => {
                crate::bufio::bytes_advance(buf, 5);
                proof {
                    assert(frames_view(Seq::<RespFrame>::empty()) =~= Seq::<
                        crate::model::FrameV,
                    >::empty());
                }
                return Ok(RespArray(Vec::new()));
            },
            Err(RespError::NotComplete) => {
                return Err(RespError::NotComplete);
            },
            Err(_) => {},
        }
        let pr = {
            let s = crate::bufio::bytes_as_slice(buf);
            parse_array_ex(s)
        };
        match pr {
            Ok((v, n)) => {
                crate::bufio::bytes_advance(buf, n);
                Ok(RespArray(v))
            },
            Err(e) => Err(e),
        }
    }
}

impl RespMap {
    /// Decode a map frame from the front of the buffer; the decoded
    /// pairs are folded into ascending key order, later occurrences
    /// of a key replacing earlier ones.
    pub fn decode(buf: &mut bytes::BytesMut) -> (r: Result<RespMap, RespError>)
        ensures
            ({
                let pre = crate::bufio::bytes_view(*old(buf));
                let post = crate::bufio::bytes_view(*final(buf));
                match (r, parse_map(pre)) {
                    (Ok(v), Ok((ps, n))) => v@ == ps && post == pre.skip(n),
                    (Err(e1), Err(e2)) => e1 == e2 && post == pre,
                    _ => false,
                }
            }),
    {
        let pr = {
            let s = crate::bufio::bytes_as_slice(buf);
            parse_map_ex(s)
        };
        match pr {
            Ok((v, n)) => {
                crate::bufio::bytes_advance(buf, n);
                Ok(v)
            },
            Err(e) => Err(e),
        }
    }
}

impl RespSet {
    /// Decode a set frame from the front of the buffer; members keep
    /// their wire order and are not de-duplicated.
    pub fn decode(buf: &mut bytes::BytesMut) -> (r: Result<RespSet, RespError>)
        ensures
            ({
                let pre = crate::bufio::bytes_view(*old(buf));
                let post = crate::bufio::bytes_view(*final(buf));
                match (r, parse_set(pre)) {
                    (Ok(v), Ok((fs, n))) => v@ == fs && post == pre.skip(n),
                    (Err(e1), Err(e2)) => e1 == e2 && post == pre,
                    _ => false,
                }
            }),
    {
        let pr = {
            let s = crate::bufio::bytes_as_slice(buf);
            parse_set_ex(s)
        };
        match pr {
            Ok((v, n)) => {
                crate::bufio::bytes_advance(buf, n);
                Ok(RespSet(v))
            },
            Err(e) => Err(e),
        }
    }
}

} // verus!
