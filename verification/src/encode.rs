//! The executable encoder: writes a frame's canonical byte form,
//! proved equal to the model's `encode_frame`.

use vstd::prelude::*;
use crate::frame::{
    frame_view, frames_view, lemma_frames_view, lemma_pairs_view, pairs_view, BulkString,
    RespArray, RespDouble, RespFrame, RespMap, RespNull, RespNullArray, RespNullBulkString,
    RespSet, SimpleError, SimpleString,
};
use crate::model::{
    bool_token, encode_frame, encode_items, encode_pairs, int_wire_text, null_composite_token,
    null_token, FrameV, COLON, COMMA, DOLLAR, HASH, LOWER_F, LOWER_T, ONE, PERCENT, STAR, TILDE,
    UNDERSCORE,
};
use crate::text::{crlf, dec_digits, format_u64, CR, LF, MINUS, PLUS};
use crate::RespError;

verus! {

/// Concatenation distributes over the encoding of a frame sequence.
pub proof fn lemma_encode_items_app(a: Seq<FrameV>, b: Seq<FrameV>)
    ensures
        encode_items(a + b) == encode_items(a) + encode_items(b),
    decreases a.len(),
{
    if a.len() == 0 {
        assert(a + b =~= b);
        assert(encode_items(a) + encode_items(b) =~= encode_items(b));
    } else {
        let ab = a + b;
        assert(ab[0] == a[0]);
        assert(ab.subrange(1, ab.len() as int) =~= a.subrange(1, a.len() as int) + b);
        lemma_encode_items_app(a.subrange(1, a.len() as int), b);
        assert(encode_items(a + b) =~= encode_items(a) + encode_items(b));
    }
}

/// Concatenation distributes over the encoding of map pairs.
pub proof fn lemma_encode_pairs_app(a: Seq<(Seq<u8>, FrameV)>, b: Seq<(Seq<u8>, FrameV)>)
    ensures
        encode_pairs(a + b) == encode_pairs(a) + encode_pairs(b),
    decreases a.len(),
{
    if a.len() == 0 {
        assert(a + b =~= b);
        assert(encode_pairs(a) + encode_pairs(b) =~= encode_pairs(b));
    } else {
        let ab = a + b;
        assert(ab[0] == a[0]);
        assert(ab.subrange(1, ab.len() as int) =~= a.subrange(1, a.len() as int) + b);
        lemma_encode_pairs_app(a.subrange(1, a.len() as int), b);
        assert(encode_pairs(a + b) =~= encode_pairs(a) + encode_pairs(b));
    }
}

/// Append a copy of `src` to `out`.
fn push_bytes(out: &mut Vec<u8>, src: &Vec<u8>)
    ensures
        final(out)@ == old(out)@ + src@,
{
    let ghost out0 = out@;
    let n = src.len();
    let mut i: usize = 0;
    #[verifier::loop_isolation(false)]
    while i < n
        invariant
            i <= n,
            out@ == out0 + src@.subrange(0, i as int),
        decreases n - i,
    {
        out.push(src[i]);
        proof {
            assert(out@ =~= out0 + src@.subrange(0, i as int + 1));
        }
        i = i + 1;
    }
    proof {
        assert(out@ =~= out0 + src@);
    }
}

/// Append the CRLF terminator to `out`.
fn push_crlf(out: &mut Vec<u8>)
    ensures
        final(out)@ == old(out)@ + crlf(),
{
    let ghost out0 = out@;
    out.push(CR);
    out.push(LF);
    proof {
        assert(out@ =~= out0 + crlf());
    }
}

/// Append the decimal digits of `n` to `out`.
fn push_u64_digits(out: &mut Vec<u8>, n: u64)
    ensures
        final(out)@ == old(out)@ + dec_digits(n as nat),
{
    let ghost out0 = out@;
    let digits = format_u64(n);
    push_bytes(out, &digits);
}

/// Append the wire text of an integer value: explicit sign, then the
/// magnitude's digits.
fn push_int_text(out: &mut Vec<u8>, v: i64)
    ensures
        final(out)@ == old(out)@ + int_wire_text(v as int),
{
    let ghost out0 = out@;
    if v < 0 {
        out.push(MINUS);
        let mag: u64 = if v == i64::MIN {
            9223372036854775808u64
        } else {
            (-v) as u64
        };
        push_u64_digits(out, mag);
        proof {
            assert(out@ =~= out0 + int_wire_text(v as int));
        }
    } else {
        out.push(PLUS);
        push_u64_digits(out, v as u64);
        proof {
            assert(out@ =~= out0 + int_wire_text(v as int));
        }
    }
}

/// Append the canonical encoding of `f` to `out`.
fn encode_into(f: &RespFrame, out: &mut Vec<u8>)
    ensures
        final(out)@ == old(out)@ + encode_frame(f@),
    decreases *f,
{
    let ghost out0 = out@;
    match f {
        RespFrame::SimpleString(s) => {
            out.push(PLUS);
            push_bytes(out, &s.0);
            push_crlf(out);
            proof {
                assert(out@ =~= out0 + encode_frame(f@));
            }
        },
        RespFrame::Error(s) => {
            out.push(MINUS);
            push_bytes(out, &s.0);
            push_crlf(out);
            proof {
                assert(out@ =~= out0 + encode_frame(f@));
            }
        },
        RespFrame::Integer(v) => {
            out.push(COLON);
            push_int_text(out, *v);
            push_crlf(out);
            proof {
                assert(out@ =~= out0 + encode_frame(f@));
            }
        },
        RespFrame::BulkString(s) => {
            out.push(DOLLAR);
            push_u64_digits(out, s.0.len() as u64);
            push_crlf(out);
            push_bytes(out, &s.0);
            push_crlf(out);
            proof {
                assert(out@ =~= out0 + encode_frame(f@));
            }
        },
        RespFrame::Null(_) => {
            out.push(UNDERSCORE);
            push_crlf(out);
            proof {
                assert(out@ =~= out0 + null_token());
            }
        },
        RespFrame::NullArray(_) => {
            push_null_composite(out, STAR);
        },
        RespFrame::NullBulkString(_) => {
            push_null_composite(out, DOLLAR);
        },
        RespFrame::Boolean(v) => {
            out.push(HASH);
            if *v {
                out.push(LOWER_T);
            } else {
                out.push(LOWER_F);
            }
            push_crlf(out);
            proof {
                assert(out@ =~= out0 + bool_token(v@));
            }
        },
        RespFrame::Double(d) => {
            out.push(COMMA);
            push_bytes(out, &d.0);
            push_crlf(out);
            proof {
                assert(out@ =~= out0 + encode_frame(f@));
            }
        },
        RespFrame::Array(a) => {
            let k = a.0.len();
            proof {
                lemma_frames_view(a.0@);
            }
            if k == 0 {
                push_null_composite(out, STAR);
                proof {
                    assert(out@ =~= out0 + encode_frame(f@));
                }
            } else {
                out.push(STAR);
                push_u64_digits(out, k as u64);
                push_crlf(out);
                encode_children(&a.0, out);
                proof {
                    assert(out@ =~= out0 + encode_frame(f@));
                }
            }
        },
        RespFrame::Collection(s) => {
            let k = s.0.len();
            proof {
                lemma_frames_view(s.0@);
            }
            out.push(TILDE);
            push_u64_digits(out, k as u64);
            push_crlf(out);
            encode_children(&s.0, out);
            proof {
                assert(out@ =~= out0 + encode_frame(f@));
            }
        },
        RespFrame::Mapping(m) => {
            let k = m.0.len();
            proof {
                lemma_pairs_view(m.0@);
            }
            out.push(PERCENT);
            push_u64_digits(out, k as u64);
            push_crlf(out);
            encode_entries(&m.0, out);
            proof {
                assert(out@ =~= out0 + encode_frame(f@));
            }
        },
    }
}

/// Append the five-byte null token of a composite tag.
fn push_null_composite(out: &mut Vec<u8>, tag: u8)
    ensures
        final(out)@ == old(out)@ + null_composite_token(tag),
{
    let ghost out0 = out@;
    out.push(tag);
    out.push(MINUS);
    out.push(ONE);
    push_crlf(out);
    proof {
        assert(out@ =~= out0 + null_composite_token(tag));
    }
}

/// Append the encodings of the frames of `v`, in order.
fn encode_children(v: &Vec<RespFrame>, out: &mut Vec<u8>)
    ensures
        final(out)@ == old(out)@ + encode_items(frames_view(v@)),
    decreases v@,
{
    let ghost out0 = out@;
    let ghost fs = frames_view(v@);
    proof {
        lemma_frames_view(v@);
    }
    let n = v.len();
    let mut i: usize = 0;
    #[verifier::loop_isolation(false)]
    while i < n
        invariant
            i <= n,
            out@ == out0 + encode_items(fs.subrange(0, i as int)),
        decreases n - i,
    {
        proof {
            assert(encode_items(fs.subrange(0, 0)) =~= Seq::<u8>::empty());
        }
        encode_into(&v[i], out);
        proof {
            assert(fs.subrange(0, i as int + 1) =~= fs.subrange(0, i as int) + seq![fs[i as int]]);
            lemma_encode_items_app(fs.subrange(0, i as int), seq![fs[i as int]]);
            assert(encode_items(seq![fs[i as int]]) =~= encode_frame(fs[i as int])) by {
                assert(seq![fs[i as int]].subrange(1, 1) =~= Seq::<FrameV>::empty());
                assert(encode_frame(fs[i as int]) + encode_items(
                    seq![fs[i as int]].subrange(1, 1),
                ) =~= encode_frame(fs[i as int]));
            }
            assert(out@ =~= out0 + encode_items(fs.subrange(0, i as int + 1)));
        }
        i = i + 1;
    }
    proof {
        assert(fs.subrange(0, n as int) =~= fs);
        if n == 0 {
            assert(encode_items(fs) =~= Seq::<u8>::empty());
            assert(out@ =~= out0 + encode_items(fs));
        }
    }
}

/// Append the encodings of a map's entries: each key as a simple
/// string, then its value.
fn encode_entries(v: &Vec<(Vec<u8>, RespFrame)>, out: &mut Vec<u8>)
    ensures
        final(out)@ == old(out)@ + encode_pairs(pairs_view(v@)),
    decreases v@,
{
    let ghost out0 = out@;
    let ghost ps = pairs_view(v@);
    proof {
        lemma_pairs_view(v@);
    }
    let n = v.len();
    let mut i: usize = 0;
    #[verifier::loop_isolation(false)]
    while i < n
        invariant
            i <= n,
            out@ == out0 + encode_pairs(ps.subrange(0, i as int)),
        decreases n - i,
    {
        proof {
            assert(encode_pairs(ps.subrange(0, 0)) =~= Seq::<u8>::empty());
        }
        let ghost stage0 = out@;
        out.push(PLUS);
        push_bytes(out, &v[i].0);
        push_crlf(out);
        encode_into(&v[i].1, out);
        proof {
            assert(out@ =~= stage0 + (seq![PLUS] + ps[i as int].0 + crlf() + encode_frame(
                ps[i as int].1,
            )));
            assert(ps.subrange(0, i as int + 1) =~= ps.subrange(0, i as int) + seq![ps[i as int]]);
            lemma_encode_pairs_app(ps.subrange(0, i as int), seq![ps[i as int]]);
            assert(encode_pairs(seq![ps[i as int]]) =~= seq![PLUS] + ps[i as int].0 + crlf()
                + encode_frame(ps[i as int].1)) by {
                assert(seq![ps[i as int]].subrange(1, 1) =~= Seq::<(Seq<u8>, FrameV)>::empty());
                assert(seq![PLUS] + ps[i as int].0 + crlf() + encode_frame(ps[i as int].1)
                    + encode_pairs(seq![ps[i as int]].subrange(1, 1)) =~= seq![PLUS]
                    + ps[i as int].0 + crlf() + encode_frame(ps[i as int].1));
            }
            assert(out@ =~= out0 + encode_pairs(ps.subrange(0, i as int + 1)));
        }
        i = i + 1;
    }
    proof {
        assert(ps.subrange(0, n as int) =~= ps);
        if n == 0 {
            assert(encode_pairs(ps) =~= Seq::<u8>::empty());
            assert(out@ =~= out0 + encode_pairs(ps));
        }
    }
}

impl RespFrame {
    /// The canonical byte encoding of this frame.
    pub fn encode(self) -> (r: Vec<u8>)
        ensures
            r@ == encode_frame(self@),
    {
        self.to_bytes()
    }

    /// The canonical byte encoding, leaving the frame in place.
    pub fn to_bytes(&self) -> (r: Vec<u8>)
        ensures
            r@ == encode_frame(self@),
    {
        let mut out: Vec<u8> = Vec::new();
        encode_into(self, &mut out);
        proof {
            assert(out@ =~= encode_frame(self@));
        }
        out
    }
}

impl SimpleString {
    /// Encode as `+<text>` and the line terminator.
    pub fn encode(self) -> (r: Vec<u8>)
        ensures
            r@ == encode_frame(FrameV::SimpleString(self@)),
    {
        RespFrame::SimpleString(self).encode()
    }
}

impl SimpleError {
    /// Encode as `-<text>` and the line terminator.
    pub fn encode(self) -> (r: Vec<u8>)
        ensures
            r@ == encode_frame(FrameV::Error(self@)),
    {
        RespFrame::Error(self).encode()
    }
}

impl BulkString {
    /// Encode as the byte length line, the raw payload and a closing
    /// line terminator.
    pub fn encode(self) -> (r: Vec<u8>)
        ensures
            r@ == encode_frame(FrameV::BulkString(self@)),
    {
        RespFrame::BulkString(self).encode()
    }
}

impl RespDouble {
    /// Encode as `,<text>` and the line terminator.
    pub fn encode(self) -> (r: Vec<u8>)
        ensures
            r@ == encode_frame(FrameV::Double(self@)),
    {
        RespFrame::Double(self).encode()
    }
}

impl RespArray {
    /// Encode as the member count line and the members' encodings;
    /// an empty array encodes as the null-array token.
    pub fn encode(self) -> (r: Vec<u8>)
        ensures
            r@ == encode_frame(FrameV::Array(self@)),
    {
        RespFrame::Array(self).encode()
    }
}

impl RespSet {
    /// Encode as the member count line and the members' encodings.
    pub fn encode(self) -> (r: Vec<u8>)
        ensures
            r@ == encode_frame(FrameV::Collection(self@)),
    {
        RespFrame::Collection(self).encode()
    }
}

impl RespMap {
    /// Encode as the pair count line and, in ascending key order,
    /// each key as a simple string followed by its value.
    pub fn encode(self) -> (r: Vec<u8>)
        ensures
            r@ == encode_frame(FrameV::Mapping(self@)),
    {
        RespFrame::Mapping(self).encode()
    }
}

impl RespNull {
    /// Encode as the null token.
    pub fn encode(self) -> (r: Vec<u8>)
        ensures
            r@ == encode_frame(FrameV::Null),
    {
        RespFrame::Null(self).encode()
    }
}

impl RespNullArray {
    /// Encode as the null-array token.
    pub fn encode(self) -> (r: Vec<u8>)
        ensures
            r@ == encode_frame(FrameV::NullArray),
    {
        RespFrame::NullArray(self).encode()
    }
}

impl RespNullBulkString {
    /// Encode as the null-bulk-string token.
    pub fn encode(self) -> (r: Vec<u8>)
        ensures
            r@ == encode_frame(FrameV::NullBulkString),
    {
        RespFrame::NullBulkString(self).encode()
    }
}

/// Encode an integer frame value.
pub fn encode_integer(v: i64) -> (r: Vec<u8>)
    ensures
        r@ == encode_frame(FrameV::Integer(v)),
{
    RespFrame::Integer(v).encode()
}

/// Encode a boolean frame value.
pub fn encode_boolean(v: bool) -> (r: Vec<u8>)
    ensures
        r@ == encode_frame(FrameV::Boolean(v)),
{
    RespFrame::Boolean(v).encode()
}

} // verus!
