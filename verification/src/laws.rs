//! The codec's laws: a frame's encoding probes to exactly its own
//! length, decodes back to the same frame, a successful decode
//! consumes exactly the probed length, and a strict prefix of an
//! encoding is never mistaken for a frame or a fatal error.

use vstd::prelude::*;
use crate::floattext::{is_float_text, lemma_float_text_chars};
use crate::model::{
    bool_token, composite_total, encode_frame, encode_items, encode_pairs, frame_codable,
    int_wire_text, items_codable, lex_lt, null_composite_token, null_token, pairs_codable,
    pairs_sorted, parse_array, parse_boolean, parse_bulk, parse_count, parse_double, parse_fixed,
    parse_frame, parse_integer, parse_items, parse_line, parse_map, parse_pairs, parse_set,
    parse_simple, probe_frame, probe_items, probe_pairs, sorted_insert, build_map, FrameV, COLON,
    COMMA, DOLLAR, HASH, LOWER_F, LOWER_T, ONE, PERCENT, STAR, TILDE, UNDERSCORE,
};
use crate::text::{
    all_digits, contains_crlf, crlf, crlf_at, dec_digits, first_crlf_from, is_digit,
    lemma_dec_digits_form, lemma_first_crlf_from, lemma_first_crlf_is, parse_int_text, CR, LF,
    MINUS, PLUS, NINE, ZERO,
};
use crate::RespError;

verus! {

/// Digit strings hold no CRLF pair.
proof fn lemma_digits_no_crlf(n: nat)
    ensures
        !contains_crlf(dec_digits(n)),
{
    lemma_dec_digits_form(n);
    if contains_crlf(dec_digits(n)) {
        let j = choose|j: int| crlf_at(dec_digits(n), j);
        assert(is_digit(dec_digits(n)[j]));
    }
}

/// The wire text of an integer holds no CRLF pair.
proof fn lemma_int_text_no_crlf(v: int)
    ensures
        !contains_crlf(int_wire_text(v)),
{
    let t = int_wire_text(v);
    let mag: nat = if v < 0 {
        (-v) as nat
    } else {
        v as nat
    };
    lemma_dec_digits_form(mag);
    if contains_crlf(t) {
        let j = choose|j: int| crlf_at(t, j);
        if j == 0 {
        } else {
            assert(t[j] == dec_digits(mag)[j - 1]);
            assert(is_digit(dec_digits(mag)[j - 1]));
        }
    }
}

/// A well-formed float payload holds no CRLF pair.
proof fn lemma_float_no_crlf(t: Seq<u8>)
    requires
        is_float_text(t),
    ensures
        !contains_crlf(t),
{
    if contains_crlf(t) {
        let j = choose|j: int| crlf_at(t, j);
        lemma_float_text_chars(t, j);
    }
}

/// Every frame's encoding takes at least three bytes.
proof fn lemma_enc_min(f: FrameV)
    ensures
        encode_frame(f).len() >= 3,
{
    match f {
        FrameV::Integer(v) => {
            lemma_dec_digits_form(if v < 0 {
                (-v) as nat
            } else {
                v as nat
            });
        },
        FrameV::BulkString(d) => {
            lemma_dec_digits_form(d.len());
        },
        FrameV::Array(items) => {
            if items.len() > 0 {
                lemma_dec_digits_form(items.len());
            }
        },
        FrameV::Mapping(pairs) => {
            lemma_dec_digits_form(pairs.len());
        },
        FrameV::Collection(items) => {
            lemma_dec_digits_form(items.len());
        },
        _ => {},
    }
}

/// A line of the shape `tag`, payload, CRLF at the front of `s`
/// scans to exactly the payload: the first CRLF at or after 1 is
/// the terminator.
proof fn lemma_parse_line_enc(s: Seq<u8>, tag: u8, payload: Seq<u8>)
    requires
        !contains_crlf(payload),
        1 + payload.len() as int + 2 <= s.len(),
        s.subrange(0, 1 + payload.len() as int + 2) == seq![tag] + payload + crlf(),
    ensures
        parse_line(s, tag) == Ok::<int, RespError>(1 + payload.len() as int),
        s.subrange(1, 1 + payload.len() as int) == payload,
{
    let pl = payload.len() as int;
    let ell = 1 + pl;
    let head = s.subrange(0, ell + 2);
    let tok = seq![tag] + payload + crlf();
    assert forall|j: int| 0 <= j < ell + 2 implies s[j] == tok[j] by {
        assert(head[j] == s[j]);
    }
    assert(tok[0] == tag);
    assert(tok[ell] == CR);
    assert(tok[ell + 1] == LF);
    assert(s[0] == tag);
    assert(crlf_at(s, ell));
    assert forall|j: int| 1 <= j < ell implies !crlf_at(s, j) by {
        if crlf_at(s, j) {
            if j + 1 < ell {
                assert(s[j] == tok[j] && tok[j] == payload[j - 1]);
                assert(s[j + 1] == tok[j + 1] && tok[j + 1] == payload[j]);
                assert(crlf_at(payload, j - 1));
            } else {
                assert(s[j + 1] == tok[ell]);
            }
        }
    }
    lemma_first_crlf_is(s, 1, ell);
    assert(s.subrange(1, ell) =~= payload);
}

/// The decimal digits of a count parse back to the count.
proof fn lemma_count_text_roundtrip(k: nat)
    ensures
        parse_int_text(dec_digits(k)) == Some(k as int),
{
    lemma_dec_digits_form(k);
    let t = dec_digits(k);
    assert(is_digit(t[0]));
    assert(t[0] != PLUS && t[0] != MINUS);
}

/// The signed wire text of an integer parses back to the value.
proof fn lemma_int_text_roundtrip(v: int)
    ensures
        parse_int_text(int_wire_text(v)) == Some(v),
{
    let t = int_wire_text(v);
    let mag: nat = if v < 0 {
        (-v) as nat
    } else {
        v as nat
    };
    lemma_dec_digits_form(mag);
    assert(t.subrange(1, t.len() as int) =~= dec_digits(mag));
    assert(t[0] == if v < 0 {
        MINUS
    } else {
        PLUS
    });
    assert(t.len() >= 2);
}

/// A probed frame whose whole encoding lies at the front of `s`
/// reports exactly the encoding's length.
#[verifier::rlimit(100)]
proof fn lemma_probe_enc(s: Seq<u8>, f: FrameV)
    requires
        frame_codable(f),
        encode_frame(f).len() <= s.len(),
        s.subrange(0, encode_frame(f).len() as int) == encode_frame(f),
    ensures
        probe_frame(s) == Ok::<int, RespError>(encode_frame(f).len() as int),
    decreases f, 0int,
{
    let enc = encode_frame(f);
    let big = enc.len() as int;
    assert forall|j: int| 0 <= j < big implies s[j] == enc[j] by {
        assert(s.subrange(0, big)[j] == s[j]);
    }
    lemma_enc_min(f);
    match f {
        FrameV::SimpleString(t) => {
            lemma_parse_line_enc(s, PLUS, t);
        },
        FrameV::Error(t) => {
            lemma_parse_line_enc(s, MINUS, t);
        },
        FrameV::Integer(v) => {
            lemma_int_text_no_crlf(v as int);
            assert(s.subrange(0, big) =~= seq![COLON] + int_wire_text(v as int) + crlf());
            lemma_parse_line_enc(s, COLON, int_wire_text(v as int));
        },
        FrameV::Double(t) => {
            lemma_float_no_crlf(t);
            lemma_parse_line_enc(s, COMMA, t);
        },
        FrameV::Boolean(v) => {
            assert(s.subrange(0, 4) =~= bool_token(v));
        },
        FrameV::Null => {
            assert(s[0] == UNDERSCORE);
        },
        FrameV::NullArray => {
            assert(s.subrange(0, 5) =~= null_composite_token(STAR));
            assert(s[0] == STAR);
            assert(parse_fixed(s, null_composite_token(STAR)) == Ok::<(), RespError>(()));
        },
        FrameV::NullBulkString => {
            assert(s.subrange(0, 5) =~= null_composite_token(DOLLAR));
            assert(s[0] == DOLLAR);
            assert(parse_fixed(s, null_composite_token(DOLLAR)) == Ok::<(), RespError>(()));
        },
        FrameV::BulkString(d) => {
            let digits = dec_digits(d.len());
            lemma_dec_digits_form(d.len());
            lemma_digits_no_crlf(d.len());
            let hdr = seq![DOLLAR] + digits + crlf();
            assert(s.subrange(0, hdr.len() as int) =~= hdr);
            lemma_parse_line_enc(s, DOLLAR, digits);
            lemma_count_text_roundtrip(d.len());
            let end = 1 + digits.len() as int;
            assert(parse_count(s, DOLLAR) == Ok::<(int, int), RespError>((end, d.len() as int)));
            assert(s.len() >= 5);
            assert(is_digit(digits[0]));
            assert(parse_fixed(s, null_composite_token(DOLLAR)) == Err::<(), RespError>(
                RespError::InvalidFrameType,
            )) by {
                if s.subrange(0, 5) == null_composite_token(DOLLAR) {
                    assert(s.subrange(0, 5)[1] == s[1]);
                    assert(s[1] == digits[0]);
                }
            }
            assert(end + 2 + d.len() + 2 == big);
        },
        FrameV::Array(items) => {
            let digits = dec_digits(items.len());
            lemma_dec_digits_form(items.len());
            lemma_digits_no_crlf(items.len());
            let hdr = seq![STAR] + digits + crlf();
            assert(s.subrange(0, hdr.len() as int) =~= hdr);
            lemma_parse_line_enc(s, STAR, digits);
            lemma_count_text_roundtrip(items.len());
            let end = 1 + digits.len() as int;
            let hn = end + 2;
            assert(parse_count(s, STAR) == Ok::<(int, int), RespError>((end, items.len() as int)));
            assert(is_digit(digits[0]));
            assert(encode_items(items).len() >= 3) by {
                lemma_enc_min(items[0]);
                assert(encode_items(items) == encode_frame(items[0]) + encode_items(
                    items.subrange(1, items.len() as int),
                ));
            }
            assert(s.len() >= 5);
            assert(parse_fixed(s, null_composite_token(STAR)) == Err::<(), RespError>(
                RespError::InvalidFrameType,
            )) by {
                if s.subrange(0, 5) == null_composite_token(STAR) {
                    assert(s.subrange(0, 5)[1] == s[1]);
                    assert(s[1] == digits[0]);
                }
            }
            let t = s.subrange(hn, s.len() as int);
            assert(t.subrange(0, encode_items(items).len() as int) =~= encode_items(items)) by {
                assert forall|j: int|
                    0 <= j < encode_items(items).len() implies t.subrange(
                    0,
                    encode_items(items).len() as int,
                )[j] == encode_items(items)[j] by {
                    assert(t[j] == s[hn + j]);
                    assert(enc[hn + j] == encode_items(items)[j]);
                }
            }
            lemma_probe_items_enc(t, items);
            assert(probe_items(t, items.len() as int) == Ok::<int, RespError>(
                encode_items(items).len() as int,
            ));
            assert(composite_total(s, end, items.len() as int, STAR) == Ok::<int, RespError>(big));
        },
        FrameV::Collection(items) => {
            let digits = dec_digits(items.len());
            lemma_dec_digits_form(items.len());
            lemma_digits_no_crlf(items.len());
            let hdr = seq![TILDE] + digits + crlf();
            assert(s.subrange(0, hdr.len() as int) =~= hdr);
            lemma_parse_line_enc(s, TILDE, digits);
            lemma_count_text_roundtrip(items.len());
            let end = 1 + digits.len() as int;
            let hn = end + 2;
            assert(parse_count(s, TILDE) == Ok::<(int, int), RespError>(
                (end, items.len() as int),
            ));
            let t = s.subrange(hn, s.len() as int);
            assert(t.subrange(0, encode_items(items).len() as int) =~= encode_items(items)) by {
                assert forall|j: int|
                    0 <= j < encode_items(items).len() implies t.subrange(
                    0,
                    encode_items(items).len() as int,
                )[j] == encode_items(items)[j] by {
                    assert(t[j] == s[hn + j]);
                    assert(enc[hn + j] == encode_items(items)[j]);
                }
            }
            lemma_probe_items_enc(t, items);
            assert(composite_total(s, end, items.len() as int, TILDE) == Ok::<int, RespError>(
                big,
            ));
        },
        FrameV::Mapping(pairs) => {
            let digits = dec_digits(pairs.len());
            lemma_dec_digits_form(pairs.len());
            lemma_digits_no_crlf(pairs.len());
            let hdr = seq![PERCENT] + digits + crlf();
            assert(s.subrange(0, hdr.len() as int) =~= hdr);
            lemma_parse_line_enc(s, PERCENT, digits);
            lemma_count_text_roundtrip(pairs.len());
            let end = 1 + digits.len() as int;
            let hn = end + 2;
            assert(parse_count(s, PERCENT) == Ok::<(int, int), RespError>(
                (end, pairs.len() as int),
            ));
            let t = s.subrange(hn, s.len() as int);
            assert(t.subrange(0, encode_pairs(pairs).len() as int) =~= encode_pairs(pairs)) by {
                assert forall|j: int|
                    0 <= j < encode_pairs(pairs).len() implies t.subrange(
                    0,
                    encode_pairs(pairs).len() as int,
                )[j] == encode_pairs(pairs)[j] by {
                    assert(t[j] == s[hn + j]);
                    assert(enc[hn + j] == encode_pairs(pairs)[j]);
                }
            }
            lemma_probe_pairs_enc(t, pairs);
            assert(composite_total(s, end, pairs.len() as int, PERCENT) == Ok::<int, RespError>(
                big,
            ));
        },
    }
}

/// Probing `k` frames whose concatenated encodings lie at the front
/// of `t` reports exactly the concatenation's length.
proof fn lemma_probe_items_enc(t: Seq<u8>, items: Seq<FrameV>)
    requires
        items_codable(items),
        encode_items(items).len() <= t.len(),
        t.subrange(0, encode_items(items).len() as int) == encode_items(items),
    ensures
        probe_items(t, items.len() as int) == Ok::<int, RespError>(
            encode_items(items).len() as int,
        ),
    decreases items, 1int,
{
    let whole = encode_items(items);
    let big = whole.len() as int;
    assert forall|j: int| 0 <= j < big implies t[j] == whole[j] by {
        assert(t.subrange(0, big)[j] == t[j]);
    }
    if items.len() == 0 {
    } else {
        let child = items[0];
        let rest = items.subrange(1, items.len() as int);
        let c = encode_frame(child);
        let cl = c.len() as int;
        assert(whole == c + encode_items(rest));
        assert(t.subrange(0, cl) =~= c) by {
            assert forall|j: int| 0 <= j < cl implies t.subrange(0, cl)[j] == c[j] by {
                assert(t.subrange(0, cl)[j] == t[j]);
                assert(whole[j] == c[j]);
            }
        }
        lemma_probe_enc(t, child);
        lemma_enc_min(child);
        let t2 = t.subrange(cl, t.len() as int);
        assert(t2.subrange(0, encode_items(rest).len() as int) =~= encode_items(rest)) by {
            assert forall|j: int|
                0 <= j < encode_items(rest).len() implies t2.subrange(
                0,
                encode_items(rest).len() as int,
            )[j] == encode_items(rest)[j] by {
                assert(t2[j] == t[cl + j]);
                assert(whole[cl + j] == encode_items(rest)[j]);
            }
        }
        lemma_probe_items_enc(t2, rest);
    }
}

/// Probing `k` key/value pairs whose concatenated encodings lie at
/// the front of `t` reports exactly the concatenation's length.
proof fn lemma_probe_pairs_enc(t: Seq<u8>, pairs: Seq<(Seq<u8>, FrameV)>)
    requires
        pairs_codable(pairs),
        forall|i: int| 0 <= i < pairs.len() ==> !contains_crlf((#[trigger] pairs[i]).0),
        encode_pairs(pairs).len() <= t.len(),
        t.subrange(0, encode_pairs(pairs).len() as int) == encode_pairs(pairs),
    ensures
        probe_pairs(t, pairs.len() as int) == Ok::<int, RespError>(
            encode_pairs(pairs).len() as int,
        ),
    decreases pairs, 1int,
{
    let whole = encode_pairs(pairs);
    let big = whole.len() as int;
    assert forall|j: int| 0 <= j < big implies t[j] == whole[j] by {
        assert(t.subrange(0, big)[j] == t[j]);
    }
    if pairs.len() == 0 {
    } else {
        let key = pairs[0].0;
        let value = pairs[0].1;
        let rest = pairs.subrange(1, pairs.len() as int);
        let khdr = seq![PLUS] + key + crlf();
        let v = encode_frame(value);
        assert(whole == khdr + v + encode_pairs(rest));
        let kl = khdr.len() as int;
        let vl = v.len() as int;
        assert(t.subrange(0, kl) =~= khdr) by {
            assert forall|j: int| 0 <= j < kl implies t.subrange(0, kl)[j] == khdr[j] by {
                assert(t.subrange(0, kl)[j] == t[j]);
                assert(whole[j] == khdr[j]);
            }
        }
        lemma_parse_line_enc(t, PLUS, key);
        let tv = t.subrange(kl, t.len() as int);
        assert(tv.subrange(0, vl) =~= v) by {
            assert forall|j: int| 0 <= j < vl implies tv.subrange(0, vl)[j] == v[j] by {
                assert(tv[j] == t[kl + j]);
                assert(whole[kl + j] == v[j]);
            }
        }
        lemma_probe_enc(tv, value);
        lemma_enc_min(value);
        let t2 = t.subrange(kl + vl, t.len() as int);
        assert(t2.subrange(0, encode_pairs(rest).len() as int) =~= encode_pairs(rest)) by {
            assert forall|j: int|
                0 <= j < encode_pairs(rest).len() implies t2.subrange(
                0,
                encode_pairs(rest).len() as int,
            )[j] == encode_pairs(rest)[j] by {
                assert(t2[j] == t[kl + vl + j]);
                assert(whole[kl + vl + j] == encode_pairs(rest)[j]);
            }
        }
        assert forall|i: int| 0 <= i < rest.len() implies !contains_crlf(
            (#[trigger] rest[i]).0,
        ) by {
            assert(rest[i] == pairs[i + 1]);
        }
        lemma_probe_pairs_enc(t2, rest);
        assert(probe_frame(tv) == Ok::<int, RespError>(vl));
        assert(tv =~= t.subrange(kl, t.len() as int));
    }
}


/// The lexicographic order is transitive.
proof fn lemma_lex_trans(a: Seq<u8>, b: Seq<u8>, c: Seq<u8>)
    requires
        lex_lt(a, b),
        lex_lt(b, c),
    ensures
        lex_lt(a, c),
    decreases a.len(),
{
    if c.len() == 0 {
    } else if b.len() == 0 {
    } else if a.len() == 0 {
    } else {
        if a[0] == b[0] && b[0] == c[0] {
            lemma_lex_trans(
                a.subrange(1, a.len() as int),
                b.subrange(1, b.len() as int),
                c.subrange(1, c.len() as int),
            );
        }
    }
}

/// Where the new key goes: behind the run of smaller keys.
spec fn insert_point(ps: Seq<(Seq<u8>, FrameV)>, key: Seq<u8>) -> int
    decreases ps.len(),
{
    if ps.len() == 0 {
        0
    } else if lex_lt(ps[0].0, key) {
        1 + insert_point(ps.subrange(1, ps.len() as int), key)
    } else {
        0
    }
}

proof fn lemma_insert_point(ps: Seq<(Seq<u8>, FrameV)>, key: Seq<u8>)
    ensures
        0 <= insert_point(ps, key) <= ps.len(),
        forall|j: int| 0 <= j < insert_point(ps, key) ==> lex_lt((#[trigger] ps[j]).0, key),
        insert_point(ps, key) < ps.len() ==> !lex_lt(ps[insert_point(ps, key)].0, key),
    decreases ps.len(),
{
    if ps.len() > 0 && lex_lt(ps[0].0, key) {
        let tail = ps.subrange(1, ps.len() as int);
        lemma_insert_point(tail, key);
        assert forall|j: int| 0 <= j < insert_point(ps, key) implies lex_lt(
            (#[trigger] ps[j]).0,
            key,
        ) by {
            if j > 0 {
                assert(tail[j - 1] == ps[j]);
            }
        }
        if insert_point(ps, key) < ps.len() {
            assert(tail[insert_point(tail, key)] == ps[insert_point(ps, key)]);
        }
    }
}

/// Inserting into a key-sorted pair sequence keeps it key-sorted;
/// with `RespMap::insert` and the decoder's fold both defined by
/// `sorted_insert`, a map's entries are always in strictly
/// ascending key order, and its keys unique.
pub proof fn lemma_sorted_insert_sorted(ps: Seq<(Seq<u8>, FrameV)>, key: Seq<u8>, value: FrameV)
    requires
        pairs_sorted(ps),
    ensures
        pairs_sorted(sorted_insert(ps, key, value)),
{
    let i = insert_point(ps, key);
    lemma_insert_point(ps, key);
    crate::frame::lemma_sorted_insert_at(ps, key, value, i);
    let r = sorted_insert(ps, key, value);
    if i < ps.len() && ps[i].0 == key {
        assert forall|x: int, y: int| 0 <= x < y < r.len() implies lex_lt(
            (#[trigger] r[x]).0,
            (#[trigger] r[y]).0,
        ) by {
            assert(r =~= ps.subrange(0, i) + seq![(key, value)] + ps.subrange(
                i + 1,
                ps.len() as int,
            ));
            let px = if x < i {
                ps[x].0
            } else if x == i {
                key
            } else {
                ps[x].0
            };
            assert(r[x].0 == px);
            let py = if y < i {
                ps[y].0
            } else if y == i {
                key
            } else {
                ps[y].0
            };
            assert(r[y].0 == py);
            if x == i {
                assert(lex_lt(ps[i].0, ps[y].0));
            } else if y == i {
                assert(lex_lt(ps[x].0, ps[i].0));
            }
        }
    } else {
        if i < ps.len() {
            crate::model::lemma_lex_total(ps[i as int].0, key);
        }
        assert forall|x: int, y: int| 0 <= x < y < r.len() implies lex_lt(
            (#[trigger] r[x]).0,
            (#[trigger] r[y]).0,
        ) by {
            assert(r =~= ps.subrange(0, i) + seq![(key, value)] + ps.subrange(
                i,
                ps.len() as int,
            ));
            if x < i && y == i {
                assert(lex_lt(ps[x].0, key));
            } else if x == i && y > i {
                assert(r[y].0 == ps[y - 1].0);
                if y - 1 == i {
                    assert(lex_lt(key, ps[i as int].0));
                } else {
                    assert(lex_lt(key, ps[i as int].0));
                    assert(lex_lt(ps[i as int].0, ps[y - 1].0));
                    lemma_lex_trans(key, ps[i as int].0, ps[y - 1].0);
                }
            } else if x < i && y > i {
                assert(r[x].0 == ps[x].0 && r[y].0 == ps[y - 1].0);
                if x == y - 1 {
                    assert(lex_lt(ps[x].0, key));
                    assert(lex_lt(key, ps[i as int].0));
                }
            } else if x > i && y > i {
                assert(r[x].0 == ps[x - 1].0 && r[y].0 == ps[y - 1].0);
            } else if x < i && y < i {
            }
        }
    }
}

/// Inserting a key greater than every key present appends the pair.
proof fn lemma_sorted_insert_append(ps: Seq<(Seq<u8>, FrameV)>, key: Seq<u8>, value: FrameV)
    requires
        forall|i: int| 0 <= i < ps.len() ==> lex_lt((#[trigger] ps[i]).0, key),
    ensures
        sorted_insert(ps, key, value) == ps.push((key, value)),
{
    crate::frame::lemma_sorted_insert_at(ps, key, value, ps.len() as int);
    assert(ps.subrange(0, ps.len() as int) =~= ps);
    assert(ps.subrange(ps.len() as int, ps.len() as int) =~= Seq::<(Seq<u8>, FrameV)>::empty());
    assert(ps + seq![(key, value)] + Seq::<(Seq<u8>, FrameV)>::empty() =~= ps.push((key, value)));
}

/// Folding pairs that are already in strictly ascending key order
/// reproduces them unchanged.
proof fn lemma_build_map_sorted(ps: Seq<(Seq<u8>, FrameV)>)
    requires
        pairs_sorted(ps),
    ensures
        build_map(ps) == ps,
    decreases ps.len(),
{
    if ps.len() > 0 {
        let dl = ps.drop_last();
        assert(pairs_sorted(dl)) by {
            assert(forall|i: int, j: int|
                0 <= i < j < dl.len() ==> lex_lt((#[trigger] dl[i]).0, (#[trigger] dl[j]).0));
        }
        lemma_build_map_sorted(dl);
        assert forall|i: int| 0 <= i < dl.len() implies lex_lt(
            (#[trigger] dl[i]).0,
            ps.last().0,
        ) by {
            assert(dl[i] == ps[i]);
        }
        lemma_sorted_insert_append(dl, ps.last().0, ps.last().1);
        assert(dl.push(ps.last()) =~= ps);
    }
}

/// Parsing a frame whose whole encoding lies at the front of `s`
/// yields that frame and consumes exactly its encoding.
proof fn lemma_parse_enc(s: Seq<u8>, f: FrameV)
    requires
        frame_codable(f),
        encode_frame(f).len() <= s.len(),
        s.subrange(0, encode_frame(f).len() as int) == encode_frame(f),
    ensures
        parse_frame(s) == Ok::<(FrameV, int), RespError>((f, encode_frame(f).len() as int)),
    decreases f, 1int,
{
    let enc = encode_frame(f);
    let big = enc.len() as int;
    assert forall|j: int| 0 <= j < big implies s[j] == enc[j] by {
        assert(s.subrange(0, big)[j] == s[j]);
    }
    lemma_enc_min(f);
    match f {
        FrameV::SimpleString(t) => {
            lemma_parse_line_enc(s, PLUS, t);
        },
        FrameV::Error(t) => {
            lemma_parse_line_enc(s, MINUS, t);
        },
        FrameV::Integer(v) => {
            lemma_int_text_no_crlf(v as int);
            assert(s.subrange(0, big) =~= seq![COLON] + int_wire_text(v as int) + crlf());
            lemma_parse_line_enc(s, COLON, int_wire_text(v as int));
            lemma_int_text_roundtrip(v as int);
        },
        FrameV::Double(t) => {
            lemma_float_no_crlf(t);
            lemma_parse_line_enc(s, COMMA, t);
        },
        FrameV::Boolean(v) => {
            assert(s.subrange(0, 4) =~= bool_token(v));
            if !v {
                assert(bool_token(false) != bool_token(true)) by {
                    assert(bool_token(false)[1] == LOWER_F);
                }
            }
        },
        FrameV::Null => {
            assert(s.subrange(0, 3) =~= null_token());
        },
        FrameV::NullArray => {
            assert(s.subrange(0, 5) =~= null_composite_token(STAR));
        },
        FrameV::NullBulkString => {
            assert(s.subrange(0, 5) =~= null_composite_token(DOLLAR));
        },
        FrameV::BulkString(d) => {
            lemma_parse_enc_bulk(s, d);
        },
        FrameV::Array(items) => {
            lemma_parse_enc_array(s, items);
        },
        FrameV::Collection(items) => {
            lemma_parse_enc_set(s, items);
        },
        FrameV::Mapping(pairs) => {
            lemma_parse_enc_map(s, pairs);
        },
    }
}

/// The BulkString case of the parse-of-encoding argument.
#[verifier::rlimit(100)]
proof fn lemma_parse_enc_bulk(s: Seq<u8>, d: Seq<u8>)
    requires
        frame_codable(FrameV::BulkString(d)),
        encode_frame(FrameV::BulkString(d)).len() <= s.len(),
        s.subrange(0, encode_frame(FrameV::BulkString(d)).len() as int) == encode_frame(
            FrameV::BulkString(d),
        ),
    ensures
        parse_frame(s) == Ok::<(FrameV, int), RespError>(
            (FrameV::BulkString(d), encode_frame(FrameV::BulkString(d)).len() as int),
        ),
    decreases FrameV::BulkString(d), 0int,
{
    let f = FrameV::BulkString(d);
    let enc = encode_frame(f);
    let big = enc.len() as int;
    assert forall|j: int| 0 <= j < big implies s[j] == enc[j] by {
        assert(s.subrange(0, big)[j] == s[j]);
    }
    lemma_enc_min(f);
    lemma_probe_enc(s, f);

            let digits = dec_digits(d.len());
            lemma_dec_digits_form(d.len());
            lemma_digits_no_crlf(d.len());
            let hdr = seq![DOLLAR] + digits + crlf();
            assert(s.subrange(0, hdr.len() as int) =~= hdr);
            lemma_parse_line_enc(s, DOLLAR, digits);
            lemma_count_text_roundtrip(d.len());
            let end = 1 + digits.len() as int;
            let hn = end + 2;
            assert(is_digit(digits[0]));
            assert(parse_fixed(s, null_composite_token(DOLLAR)) == Err::<(), RespError>(
                RespError::InvalidFrameType,
            )) by {
                if s.subrange(0, 5) == null_composite_token(DOLLAR) {
                    assert(s.subrange(0, 5)[1] == s[1]);
                    assert(s[1] == digits[0]);
                }
            }
            assert(s.subrange(hn, hn + d.len() as int) =~= d) by {
                assert forall|j: int|
                    0 <= j < d.len() implies s.subrange(hn, hn + d.len() as int)[j] == d[j] by {
                    assert(s[hn + j] == enc[hn + j]);
                    assert(enc[hn + j] == d[j]);
                }
            }
}

/// The Array case of the parse-of-encoding argument.
#[verifier::rlimit(100)]
proof fn lemma_parse_enc_array(s: Seq<u8>, items: Seq<FrameV>)
    requires
        frame_codable(FrameV::Array(items)),
        encode_frame(FrameV::Array(items)).len() <= s.len(),
        s.subrange(0, encode_frame(FrameV::Array(items)).len() as int) == encode_frame(
            FrameV::Array(items),
        ),
    ensures
        parse_frame(s) == Ok::<(FrameV, int), RespError>(
            (FrameV::Array(items), encode_frame(FrameV::Array(items)).len() as int),
        ),
    decreases FrameV::Array(items), 0int,
{
    let f = FrameV::Array(items);
    let enc = encode_frame(f);
    let big = enc.len() as int;
    assert forall|j: int| 0 <= j < big implies s[j] == enc[j] by {
        assert(s.subrange(0, big)[j] == s[j]);
    }
    lemma_enc_min(f);
    lemma_probe_enc(s, f);

            let digits = dec_digits(items.len());
            lemma_dec_digits_form(items.len());
            lemma_digits_no_crlf(items.len());
            let hdr = seq![STAR] + digits + crlf();
            assert(s.subrange(0, hdr.len() as int) =~= hdr);
            lemma_parse_line_enc(s, STAR, digits);
            lemma_count_text_roundtrip(items.len());
            let end = 1 + digits.len() as int;
            let hn = end + 2;
            assert(is_digit(digits[0]));
            assert(encode_items(items).len() >= 3) by {
                lemma_enc_min(items[0]);
                assert(encode_items(items) == encode_frame(items[0]) + encode_items(
                    items.subrange(1, items.len() as int),
                ));
            }
            assert(parse_fixed(s, null_composite_token(STAR)) == Err::<(), RespError>(
                RespError::InvalidFrameType,
            )) by {
                if s.subrange(0, 5) == null_composite_token(STAR) {
                    assert(s.subrange(0, 5)[1] == s[1]);
                    assert(s[1] == digits[0]);
                }
            }
            let t = s.subrange(hn, s.len() as int);
            assert(t.subrange(0, encode_items(items).len() as int) =~= encode_items(items)) by {
                assert forall|j: int|
                    0 <= j < encode_items(items).len() implies t.subrange(
                    0,
                    encode_items(items).len() as int,
                )[j] == encode_items(items)[j] by {
                    assert(t[j] == s[hn + j]);
                    assert(enc[hn + j] == encode_items(items)[j]);
                }
            }
            lemma_parse_items_enc(t, items);
}

/// The Collection case of the parse-of-encoding argument.
#[verifier::rlimit(100)]
proof fn lemma_parse_enc_set(s: Seq<u8>, items: Seq<FrameV>)
    requires
        frame_codable(FrameV::Collection(items)),
        encode_frame(FrameV::Collection(items)).len() <= s.len(),
        s.subrange(0, encode_frame(FrameV::Collection(items)).len() as int) == encode_frame(
            FrameV::Collection(items),
        ),
    ensures
        parse_frame(s) == Ok::<(FrameV, int), RespError>(
            (FrameV::Collection(items), encode_frame(FrameV::Collection(items)).len() as int),
        ),
    decreases FrameV::Collection(items), 0int,
{
    let f = FrameV::Collection(items);
    let enc = encode_frame(f);
    let big = enc.len() as int;
    assert forall|j: int| 0 <= j < big implies s[j] == enc[j] by {
        assert(s.subrange(0, big)[j] == s[j]);
    }
    lemma_enc_min(f);
    lemma_probe_enc(s, f);

            let digits = dec_digits(items.len());
            lemma_dec_digits_form(items.len());
            lemma_digits_no_crlf(items.len());
            let hdr = seq![TILDE] + digits + crlf();
            assert(s.subrange(0, hdr.len() as int) =~= hdr);
            lemma_parse_line_enc(s, TILDE, digits);
            lemma_count_text_roundtrip(items.len());
            let end = 1 + digits.len() as int;
            let hn = end + 2;
            let t = s.subrange(hn, s.len() as int);
            assert(t.subrange(0, encode_items(items).len() as int) =~= encode_items(items)) by {
                assert forall|j: int|
                    0 <= j < encode_items(items).len() implies t.subrange(
                    0,
                    encode_items(items).len() as int,
                )[j] == encode_items(items)[j] by {
                    assert(t[j] == s[hn + j]);
                    assert(enc[hn + j] == encode_items(items)[j]);
                }
            }
            lemma_parse_items_enc(t, items);
}

/// The Mapping case of the parse-of-encoding argument.
#[verifier::rlimit(100)]
proof fn lemma_parse_enc_map(s: Seq<u8>, pairs: Seq<(Seq<u8>, FrameV)>)
    requires
        frame_codable(FrameV::Mapping(pairs)),
        encode_frame(FrameV::Mapping(pairs)).len() <= s.len(),
        s.subrange(0, encode_frame(FrameV::Mapping(pairs)).len() as int) == encode_frame(
            FrameV::Mapping(pairs),
        ),
    ensures
        parse_frame(s) == Ok::<(FrameV, int), RespError>(
            (FrameV::Mapping(pairs), encode_frame(FrameV::Mapping(pairs)).len() as int),
        ),
    decreases FrameV::Mapping(pairs), 0int,
{
    let f = FrameV::Mapping(pairs);
    let enc = encode_frame(f);
    let big = enc.len() as int;
    assert forall|j: int| 0 <= j < big implies s[j] == enc[j] by {
        assert(s.subrange(0, big)[j] == s[j]);
    }
    lemma_enc_min(f);
    lemma_probe_enc(s, f);

            let digits = dec_digits(pairs.len());
            lemma_dec_digits_form(pairs.len());
            lemma_digits_no_crlf(pairs.len());
            let hdr = seq![PERCENT] + digits + crlf();
            assert(s.subrange(0, hdr.len() as int) =~= hdr);
            lemma_parse_line_enc(s, PERCENT, digits);
            lemma_count_text_roundtrip(pairs.len());
            let end = 1 + digits.len() as int;
            let hn = end + 2;
            let t = s.subrange(hn, s.len() as int);
            assert(t.subrange(0, encode_pairs(pairs).len() as int) =~= encode_pairs(pairs)) by {
                assert forall|j: int|
                    0 <= j < encode_pairs(pairs).len() implies t.subrange(
                    0,
                    encode_pairs(pairs).len() as int,
                )[j] == encode_pairs(pairs)[j] by {
                    assert(t[j] == s[hn + j]);
                    assert(enc[hn + j] == encode_pairs(pairs)[j]);
                }
            }
            lemma_parse_pairs_enc(t, pairs);
            lemma_build_map_sorted(pairs);
}

/// Parsing `k` frames whose concatenated encodings lie at the front
/// of `t` yields exactly those frames.
proof fn lemma_parse_items_enc(t: Seq<u8>, items: Seq<FrameV>)
    requires
        items_codable(items),
        encode_items(items).len() <= t.len(),
        t.subrange(0, encode_items(items).len() as int) == encode_items(items),
    ensures
        parse_items(t, items.len() as int) == Ok::<(Seq<FrameV>, int), RespError>(
            (items, encode_items(items).len() as int),
        ),
    decreases items, 1int,
{
    let whole = encode_items(items);
    let big = whole.len() as int;
    assert forall|j: int| 0 <= j < big implies t[j] == whole[j] by {
        assert(t.subrange(0, big)[j] == t[j]);
    }
    if items.len() == 0 {
        assert(items =~= Seq::<FrameV>::empty());
    } else {
        let child = items[0];
        let rest = items.subrange(1, items.len() as int);
        let c = encode_frame(child);
        let cl = c.len() as int;
        assert(whole == c + encode_items(rest));
        assert(t.subrange(0, cl) =~= c) by {
            assert forall|j: int| 0 <= j < cl implies t.subrange(0, cl)[j] == c[j] by {
                assert(t.subrange(0, cl)[j] == t[j]);
                assert(whole[j] == c[j]);
            }
        }
        lemma_parse_enc(t, child);
        lemma_enc_min(child);
        let t2 = t.subrange(cl, t.len() as int);
        assert(t2.subrange(0, encode_items(rest).len() as int) =~= encode_items(rest)) by {
            assert forall|j: int|
                0 <= j < encode_items(rest).len() implies t2.subrange(
                0,
                encode_items(rest).len() as int,
            )[j] == encode_items(rest)[j] by {
                assert(t2[j] == t[cl + j]);
                assert(whole[cl + j] == encode_items(rest)[j]);
            }
        }
        lemma_parse_items_enc(t2, rest);
        assert(seq![child] + rest =~= items);
    }
}

/// Parsing `k` pairs whose concatenated encodings lie at the front
/// of `t` yields exactly those pairs, in order.
proof fn lemma_parse_pairs_enc(t: Seq<u8>, pairs: Seq<(Seq<u8>, FrameV)>)
    requires
        pairs_codable(pairs),
        forall|i: int| 0 <= i < pairs.len() ==> !contains_crlf((#[trigger] pairs[i]).0),
        encode_pairs(pairs).len() <= t.len(),
        t.subrange(0, encode_pairs(pairs).len() as int) == encode_pairs(pairs),
    ensures
        parse_pairs(t, pairs.len() as int) == Ok::<(Seq<(Seq<u8>, FrameV)>, int), RespError>(
            (pairs, encode_pairs(pairs).len() as int),
        ),
    decreases pairs, 1int,
{
    let whole = encode_pairs(pairs);
    let big = whole.len() as int;
    assert forall|j: int| 0 <= j < big implies t[j] == whole[j] by {
        assert(t.subrange(0, big)[j] == t[j]);
    }
    if pairs.len() == 0 {
        assert(pairs =~= Seq::<(Seq<u8>, FrameV)>::empty());
    } else {
        let key = pairs[0].0;
        let value = pairs[0].1;
        let rest = pairs.subrange(1, pairs.len() as int);
        let khdr = seq![PLUS] + key + crlf();
        let v = encode_frame(value);
        assert(whole == khdr + v + encode_pairs(rest));
        let kl = khdr.len() as int;
        let vl = v.len() as int;
        assert(t.subrange(0, kl) =~= khdr) by {
            assert forall|j: int| 0 <= j < kl implies t.subrange(0, kl)[j] == khdr[j] by {
                assert(t.subrange(0, kl)[j] == t[j]);
                assert(whole[j] == khdr[j]);
            }
        }
        lemma_parse_line_enc(t, PLUS, key);
        let tv = t.subrange(kl, t.len() as int);
        assert(tv.subrange(0, vl) =~= v) by {
            assert forall|j: int| 0 <= j < vl implies tv.subrange(0, vl)[j] == v[j] by {
                assert(tv[j] == t[kl + j]);
                assert(whole[kl + j] == v[j]);
            }
        }
        lemma_parse_enc(tv, value);
        lemma_enc_min(value);
        let t2 = t.subrange(kl + vl, t.len() as int);
        assert(t2.subrange(0, encode_pairs(rest).len() as int) =~= encode_pairs(rest)) by {
            assert forall|j: int|
                0 <= j < encode_pairs(rest).len() implies t2.subrange(
                0,
                encode_pairs(rest).len() as int,
            )[j] == encode_pairs(rest)[j] by {
                assert(t2[j] == t[kl + vl + j]);
                assert(whole[kl + vl + j] == encode_pairs(rest)[j]);
            }
        }
        assert forall|i: int| 0 <= i < rest.len() implies !contains_crlf(
            (#[trigger] rest[i]).0,
        ) by {
            assert(rest[i] == pairs[i + 1]);
        }
        lemma_parse_pairs_enc(t2, rest);
        assert(seq![(key, value)] + rest =~= pairs);
    }
}

/// The one round-trip exception, made explicit: an empty array and
/// the null array share the same token on the wire, and the
/// frame-level decoder reads that token back as the null array.
pub proof fn lemma_empty_array_merges_with_null_array()
    ensures
        encode_frame(FrameV::Array(Seq::empty())) == encode_frame(FrameV::NullArray),
        parse_frame(encode_frame(FrameV::Array(Seq::empty()))) == Ok::<(FrameV, int), RespError>(
            (FrameV::NullArray, 5),
        ),
{
    let tok = null_composite_token(STAR);
    assert(tok[0] == STAR);
    assert(tok.subrange(0, 5) =~= tok);
}

/// Round trip: decoding the encoding of any well-formed,
/// unambiguous frame gives the same frame back, consuming exactly
/// the encoding. (An empty array is left out of `frame_codable`: it
/// shares its token with the null array, which is what the token
/// decodes to at the frame level.)
pub proof fn lemma_round_trip(f: FrameV)
    requires
        frame_codable(f),
    ensures
        parse_frame(encode_frame(f)) == Ok::<(FrameV, int), RespError>(
            (f, encode_frame(f).len() as int),
        ),
{
    let enc = encode_frame(f);
    assert(enc.subrange(0, enc.len() as int) =~= enc);
    lemma_parse_enc(enc, f);
}


/// A frame parse and a probe of the same buffer agree on the byte
/// span whenever the parse succeeds.
#[verifier::rlimit(100)]
proof fn lemma_parse_probe(s: Seq<u8>)
    requires
        s.len() <= usize::MAX,
    ensures
        match parse_frame(s) {
            Ok((f, n)) => probe_frame(s) == Ok::<int, RespError>(n),
            Err(_) => true,
        },
    decreases s.len(), 1int,
{
    if s.len() == 0 {
        return ;
    }
    let tag = s[0];
    if tag == STAR || tag == TILDE {
        if tag == TILDE || parse_fixed(s, null_composite_token(STAR)) is Err {
            match parse_count(s, tag) {
                Ok((end, k)) => {
                    let hdr = end + 2;
                    if 3 <= hdr <= s.len() {
                        lemma_parse_probe_items(s.subrange(hdr, s.len() as int), k);
                    }
                },
                Err(_) => {},
            }
        }
    } else if tag == PERCENT {
        match parse_count(s, PERCENT) {
            Ok((end, k)) => {
                let hdr = end + 2;
                if 3 <= hdr <= s.len() {
                    lemma_parse_probe_pairs(s.subrange(hdr, s.len() as int), k);
                }
            },
            Err(_) => {},
        }
    }
}

/// Parsing and probing `k` frames at the front of `t` agree on the
/// total span whenever both succeed.
proof fn lemma_parse_probe_items(t: Seq<u8>, k: int)
    requires
        t.len() <= usize::MAX,
    ensures
        match (parse_items(t, k), probe_items(t, k)) {
            (Ok((_, m)), Ok(mp)) => m == mp,
            _ => true,
        },
    decreases t.len(), 2int,
{
    if k <= 0 {
        return ;
    }
    lemma_parse_probe(t);
    match parse_frame(t) {
        Ok((f, n)) => {
            if 1 <= n <= t.len() {
                lemma_parse_probe_items(t.subrange(n, t.len() as int), k - 1);
            }
        },
        Err(_) => {},
    }
}

/// Parsing and probing `k` key/value pairs at the front of `t`
/// agree on the total span whenever both succeed.
proof fn lemma_parse_probe_pairs(t: Seq<u8>, k: int)
    requires
        t.len() <= usize::MAX,
    ensures
        match (parse_pairs(t, k), probe_pairs(t, k)) {
            (Ok((_, m)), Ok(mp)) => m == mp,
            _ => true,
        },
    decreases t.len(), 2int,
{
    if k <= 0 {
        return ;
    }
    match parse_simple(t, PLUS) {
        Ok((_, kn)) => {
            if 3 <= kn <= t.len() {
                let tv = t.subrange(kn, t.len() as int);
                lemma_parse_probe(tv);
                match parse_frame(tv) {
                    Ok((_, n)) => {
                        if 1 <= n <= t.len() - kn {
                            lemma_parse_probe_pairs(t.subrange(kn + n, t.len() as int), k - 1);
                        }
                    },
                    Err(_) => {},
                }
            }
        },
        Err(_) => {},
    }
}

/// Exactness: a successful decode consumes exactly the span the
/// length prober reports for the same buffer. (The premise only
/// keeps the buffer within addressable size.)
pub proof fn lemma_decode_consumes_probed_length(s: Seq<u8>)
    requires
        s.len() <= usize::MAX,
    ensures
        match parse_frame(s) {
            Ok((f, n)) => probe_frame(s) == Ok::<int, RespError>(n),
            Err(_) => true,
        },
{
    lemma_parse_probe(s);
}


/// A cut-off line never scans: the terminator's CRLF is not yet in
/// the buffer, and nothing before it forms one.
proof fn lemma_line_scan_prefix(s: Seq<u8>, tag: u8, payload: Seq<u8>)
    requires
        !contains_crlf(payload),
        s.len() < 1 + payload.len() as int + 2,
        forall|j: int| 0 <= j < s.len() ==> s[j] == (seq![tag] + payload + crlf())[j],
    ensures
        parse_line(s, tag) == Err::<int, RespError>(RespError::NotComplete),
{
    let pl = payload.len() as int;
    let tok = seq![tag] + payload + crlf();
    if s.len() < 3 {
    } else {
        assert(s[0] == tok[0]);
        lemma_first_crlf_from(s, 1);
        match first_crlf_from(s, 1) {
            Some(i) => {
                assert(crlf_at(s, i));
                assert(1 <= i && i + 2 <= s.len());
                assert(i <= pl);
                if i + 1 <= pl {
                    assert(s[i] == tok[i] && tok[i] == payload[i - 1]);
                    assert(s[i + 1] == tok[i + 1] && tok[i + 1] == payload[i]);
                    assert(crlf_at(payload, i - 1));
                } else {
                    assert(s[i + 1] == tok[pl + 1]);
                }
            },
            None => {},
        }
    }
}

/// Probing a strict prefix of a frame's encoding either asks for
/// more bytes or already reports the full frame's length.
#[verifier::rlimit(100)]
proof fn lemma_probe_prefix(s: Seq<u8>, f: FrameV)
    requires
        frame_codable(f),
        s.len() < encode_frame(f).len(),
        s == encode_frame(f).subrange(0, s.len() as int),
    ensures
        probe_frame(s) == Err::<int, RespError>(RespError::NotComplete) || probe_frame(s) == Ok::<
            int,
            RespError,
        >(encode_frame(f).len() as int),
    decreases f, 1int,
{
    let enc = encode_frame(f);
    let big = enc.len() as int;
    assert forall|j: int| 0 <= j < s.len() implies s[j] == enc[j] by {
        assert(enc.subrange(0, s.len() as int)[j] == enc[j]);
    }
    lemma_enc_min(f);
    if s.len() == 0 {
        return ;
    }
    match f {
        FrameV::SimpleString(t) => {
            lemma_line_scan_prefix(s, PLUS, t);
        },
        FrameV::Error(t) => {
            lemma_line_scan_prefix(s, MINUS, t);
        },
        FrameV::Integer(v) => {
            lemma_int_text_no_crlf(v as int);
            assert forall|j: int|
                0 <= j < s.len() implies s[j] == (seq![COLON] + int_wire_text(v as int)
                + crlf())[j] by {
                assert(s[j] == enc[j]);
            }
            lemma_line_scan_prefix(s, COLON, int_wire_text(v as int));
        },
        FrameV::Double(t) => {
            lemma_float_no_crlf(t);
            lemma_line_scan_prefix(s, COMMA, t);
        },
        FrameV::Boolean(_) => {},
        FrameV::Null => {},
        FrameV::NullArray => {},
        FrameV::NullBulkString => {},
        FrameV::BulkString(d) => {
            let digits = dec_digits(d.len());
            lemma_dec_digits_form(d.len());
            lemma_digits_no_crlf(d.len());
            if s.len() >= 5 {
                assert(parse_fixed(s, null_composite_token(DOLLAR)) == Err::<(), RespError>(
                    RespError::InvalidFrameType,
                )) by {
                    if s.subrange(0, 5) == null_composite_token(DOLLAR) {
                        assert(s.subrange(0, 5)[1] == s[1]);
                        assert(s[1] == digits[0]);
                        assert(is_digit(digits[0]));
                    }
                }
                let hn = 1 + digits.len() as int + 2;
                if s.len() < hn {
                    lemma_line_scan_prefix(s, DOLLAR, digits);
                } else {
                    assert(s.subrange(0, hn) =~= seq![DOLLAR] + digits + crlf());
                    lemma_parse_line_enc(s, DOLLAR, digits);
                    lemma_count_text_roundtrip(d.len());
                }
            }
        },
        FrameV::Array(items) => {
            let digits = dec_digits(items.len());
            lemma_dec_digits_form(items.len());
            lemma_digits_no_crlf(items.len());
            assert(encode_items(items).len() >= 3) by {
                lemma_enc_min(items[0]);
                assert(encode_items(items) == encode_frame(items[0]) + encode_items(
                    items.subrange(1, items.len() as int),
                ));
            }
            if s.len() >= 5 {
                assert(parse_fixed(s, null_composite_token(STAR)) == Err::<(), RespError>(
                    RespError::InvalidFrameType,
                )) by {
                    if s.subrange(0, 5) == null_composite_token(STAR) {
                        assert(s.subrange(0, 5)[1] == s[1]);
                        assert(s[1] == digits[0]);
                        assert(is_digit(digits[0]));
                    }
                }
                let hn = 1 + digits.len() as int + 2;
                if s.len() < hn {
                    lemma_line_scan_prefix(s, STAR, digits);
                } else {
                    assert(s.subrange(0, hn) =~= seq![STAR] + digits + crlf());
                    lemma_parse_line_enc(s, STAR, digits);
                    lemma_count_text_roundtrip(items.len());
                    let t = s.subrange(hn, s.len() as int);
                    assert(t =~= encode_items(items).subrange(0, t.len() as int)) by {
                        assert forall|j: int| 0 <= j < t.len() implies t[j] == encode_items(
                            items,
                        )[j] by {
                            assert(t[j] == s[hn + j]);
                            assert(enc[hn + j] == encode_items(items)[j]);
                        }
                    }
                    lemma_probe_items_prefix(t, items);
                }
            }
        },
        FrameV::Collection(items) => {
            let digits = dec_digits(items.len());
            lemma_dec_digits_form(items.len());
            lemma_digits_no_crlf(items.len());
            let hn = 1 + digits.len() as int + 2;
            if s.len() < hn {
                lemma_line_scan_prefix(s, TILDE, digits);
            } else {
                assert(s.subrange(0, hn) =~= seq![TILDE] + digits + crlf());
                lemma_parse_line_enc(s, TILDE, digits);
                lemma_count_text_roundtrip(items.len());
                let t = s.subrange(hn, s.len() as int);
                assert(t =~= encode_items(items).subrange(0, t.len() as int)) by {
                    assert forall|j: int| 0 <= j < t.len() implies t[j] == encode_items(
                        items,
                    )[j] by {
                        assert(t[j] == s[hn + j]);
                        assert(enc[hn + j] == encode_items(items)[j]);
                    }
                }
                lemma_probe_items_prefix(t, items);
            }
        },
        FrameV::Mapping(pairs) => {
            let digits = dec_digits(pairs.len());
            lemma_dec_digits_form(pairs.len());
            lemma_digits_no_crlf(pairs.len());
            let hn = 1 + digits.len() as int + 2;
            if s.len() < hn {
                lemma_line_scan_prefix(s, PERCENT, digits);
            } else {
                assert(s.subrange(0, hn) =~= seq![PERCENT] + digits + crlf());
                lemma_parse_line_enc(s, PERCENT, digits);
                lemma_count_text_roundtrip(pairs.len());
                let t = s.subrange(hn, s.len() as int);
                assert(t =~= encode_pairs(pairs).subrange(0, t.len() as int)) by {
                    assert forall|j: int| 0 <= j < t.len() implies t[j] == encode_pairs(
                        pairs,
                    )[j] by {
                        assert(t[j] == s[hn + j]);
                        assert(enc[hn + j] == encode_pairs(pairs)[j]);
                    }
                }
                lemma_probe_pairs_prefix(t, pairs);
            }
        },
    }
}

/// Probing frames against a strict prefix of their concatenated
/// encodings always asks for more bytes.
proof fn lemma_probe_items_prefix(t: Seq<u8>, items: Seq<FrameV>)
    requires
        items_codable(items),
        t.len() < encode_items(items).len(),
        t == encode_items(items).subrange(0, t.len() as int),
    ensures
        probe_items(t, items.len() as int) == Err::<int, RespError>(RespError::NotComplete),
    decreases items, 2int,
{
    let whole = encode_items(items);
    assert forall|j: int| 0 <= j < t.len() implies t[j] == whole[j] by {
        assert(whole.subrange(0, t.len() as int)[j] == whole[j]);
    }
    if items.len() == 0 {
        assert(false);
    } else {
        let child = items[0];
        let rest = items.subrange(1, items.len() as int);
        let c = encode_frame(child);
        let cl = c.len() as int;
        assert(whole == c + encode_items(rest));
        lemma_enc_min(child);
        if t.len() < cl {
            assert(t =~= c.subrange(0, t.len() as int)) by {
                assert forall|j: int| 0 <= j < t.len() implies t[j] == c[j] by {
                    assert(whole[j] == c[j]);
                }
            }
            lemma_probe_prefix(t, child);
        } else {
            assert(t.subrange(0, cl) =~= c) by {
                assert forall|j: int| 0 <= j < cl implies t.subrange(0, cl)[j] == c[j] by {
                    assert(t.subrange(0, cl)[j] == t[j]);
                    assert(whole[j] == c[j]);
                }
            }
            lemma_probe_enc(t, child);
            if rest.len() == 0 {
                assert(whole.len() == cl + encode_items(rest).len());
                assert(false);
            } else {
                let t2 = t.subrange(cl, t.len() as int);
                assert(t2 =~= encode_items(rest).subrange(0, t2.len() as int)) by {
                    assert forall|j: int| 0 <= j < t2.len() implies t2[j] == encode_items(
                        rest,
                    )[j] by {
                        assert(t2[j] == t[cl + j]);
                        assert(whole[cl + j] == encode_items(rest)[j]);
                    }
                }
                lemma_probe_items_prefix(t2, rest);
            }
        }
    }
}

/// Probing pairs against a strict prefix of their concatenated
/// encodings always asks for more bytes.
proof fn lemma_probe_pairs_prefix(t: Seq<u8>, pairs: Seq<(Seq<u8>, FrameV)>)
    requires
        pairs_codable(pairs),
        forall|i: int| 0 <= i < pairs.len() ==> !contains_crlf((#[trigger] pairs[i]).0),
        t.len() < encode_pairs(pairs).len(),
        t == encode_pairs(pairs).subrange(0, t.len() as int),
    ensures
        probe_pairs(t, pairs.len() as int) == Err::<int, RespError>(RespError::NotComplete),
    decreases pairs, 2int,
{
    let whole = encode_pairs(pairs);
    assert forall|j: int| 0 <= j < t.len() implies t[j] == whole[j] by {
        assert(whole.subrange(0, t.len() as int)[j] == whole[j]);
    }
    if pairs.len() == 0 {
        assert(false);
    } else {
        let key = pairs[0].0;
        let value = pairs[0].1;
        let rest = pairs.subrange(1, pairs.len() as int);
        let khdr = seq![PLUS] + key + crlf();
        let v = encode_frame(value);
        assert(whole == khdr + v + encode_pairs(rest));
        let kl = khdr.len() as int;
        let vl = v.len() as int;
        lemma_enc_min(value);
        if t.len() < kl {
            assert forall|j: int| 0 <= j < t.len() implies t[j] == khdr[j] by {
                assert(whole[j] == khdr[j]);
            }
            lemma_line_scan_prefix(t, PLUS, key);
        } else {
            assert(t.subrange(0, kl) =~= khdr) by {
                assert forall|j: int| 0 <= j < kl implies t.subrange(0, kl)[j] == khdr[j] by {
                    assert(t.subrange(0, kl)[j] == t[j]);
                    assert(whole[j] == khdr[j]);
                }
            }
            lemma_parse_line_enc(t, PLUS, key);
            let tv = t.subrange(kl, t.len() as int);
            if t.len() < kl + vl {
                assert(tv =~= v.subrange(0, tv.len() as int)) by {
                    assert forall|j: int| 0 <= j < tv.len() implies tv[j] == v[j] by {
                        assert(tv[j] == t[kl + j]);
                        assert(whole[kl + j] == v[j]);
                    }
                }
                lemma_probe_prefix(tv, value);
            } else {
                assert(tv.subrange(0, vl) =~= v) by {
                    assert forall|j: int| 0 <= j < vl implies tv.subrange(0, vl)[j] == v[j] by {
                        assert(tv[j] == t[kl + j]);
                        assert(whole[kl + j] == v[j]);
                    }
                }
                lemma_probe_enc(tv, value);
                if rest.len() == 0 {
                    assert(whole.len() == kl + vl + encode_pairs(rest).len());
                    assert(false);
                } else {
                    let t2 = t.subrange(kl + vl, t.len() as int);
                    assert(t2 =~= encode_pairs(rest).subrange(0, t2.len() as int)) by {
                        assert forall|j: int| 0 <= j < t2.len() implies t2[j] == encode_pairs(
                            rest,
                        )[j] by {
                            assert(t2[j] == t[kl + vl + j]);
                            assert(whole[kl + vl + j] == encode_pairs(rest)[j]);
                        }
                    }
                    assert forall|i: int| 0 <= i < rest.len() implies !contains_crlf(
                        (#[trigger] rest[i]).0,
                    ) by {
                        assert(rest[i] == pairs[i + 1]);
                    }
                    lemma_probe_pairs_prefix(t2, rest);
                }
            }
        }
    }
}

/// Parsing a strict prefix of a frame's encoding always asks for
/// more bytes, never reporting a frame or a fatal error.
proof fn lemma_parse_prefix(s: Seq<u8>, f: FrameV)
    requires
        frame_codable(f),
        s.len() < encode_frame(f).len(),
        s == encode_frame(f).subrange(0, s.len() as int),
    ensures
        parse_frame(s) == Err::<(FrameV, int), RespError>(RespError::NotComplete),
    decreases f, 3int,
{
    let enc = encode_frame(f);
    let big = enc.len() as int;
    assert forall|j: int| 0 <= j < s.len() implies s[j] == enc[j] by {
        assert(enc.subrange(0, s.len() as int)[j] == enc[j]);
    }
    lemma_enc_min(f);
    lemma_probe_prefix(s, f);
    if s.len() == 0 {
        return ;
    }
    match f {
        FrameV::SimpleString(t) => {
            lemma_line_scan_prefix(s, PLUS, t);
        },
        FrameV::Error(t) => {
            lemma_line_scan_prefix(s, MINUS, t);
        },
        FrameV::Integer(v) => {
            lemma_int_text_no_crlf(v as int);
            assert forall|j: int|
                0 <= j < s.len() implies s[j] == (seq![COLON] + int_wire_text(v as int)
                + crlf())[j] by {
                assert(s[j] == enc[j]);
            }
            lemma_line_scan_prefix(s, COLON, int_wire_text(v as int));
        },
        FrameV::Double(t) => {
            lemma_float_no_crlf(t);
            lemma_line_scan_prefix(s, COMMA, t);
        },
        FrameV::Boolean(_) => {},
        FrameV::Null => {},
        FrameV::NullArray => {},
        FrameV::NullBulkString => {},
        FrameV::BulkString(d) => {
            lemma_parse_prefix_bulk(s, d);
        },
        FrameV::Array(items) => {
            lemma_parse_prefix_array(s, items);
        },
        FrameV::Collection(items) => {
            lemma_parse_prefix_set(s, items);
        },
        FrameV::Mapping(pairs) => {
            lemma_parse_prefix_map(s, pairs);
        },
    }
}

/// The BulkString case of the prefix-incompleteness argument.
#[verifier::rlimit(100)]
proof fn lemma_parse_prefix_bulk(s: Seq<u8>, d: Seq<u8>)
    requires
        frame_codable(FrameV::BulkString(d)),
        s.len() < encode_frame(FrameV::BulkString(d)).len(),
        s == encode_frame(FrameV::BulkString(d)).subrange(0, s.len() as int),
        s.len() >= 1,
    ensures
        parse_frame(s) == Err::<(FrameV, int), RespError>(RespError::NotComplete),
    decreases FrameV::BulkString(d), 2int,
{
    let f = FrameV::BulkString(d);
    let enc = encode_frame(f);
    let big = enc.len() as int;
    assert forall|j: int| 0 <= j < s.len() implies s[j] == enc[j] by {
        assert(enc.subrange(0, s.len() as int)[j] == enc[j]);
    }
    lemma_enc_min(f);
    lemma_probe_prefix(s, f);

            let digits = dec_digits(d.len());
            lemma_dec_digits_form(d.len());
            lemma_digits_no_crlf(d.len());
            if s.len() >= 5 {
                assert(parse_fixed(s, null_composite_token(DOLLAR)) == Err::<(), RespError>(
                    RespError::InvalidFrameType,
                )) by {
                    if s.subrange(0, 5) == null_composite_token(DOLLAR) {
                        assert(s.subrange(0, 5)[1] == s[1]);
                        assert(s[1] == digits[0]);
                        assert(is_digit(digits[0]));
                    }
                }
                let hn = 1 + digits.len() as int + 2;
                if s.len() < hn {
                    lemma_line_scan_prefix(s, DOLLAR, digits);
                } else {
                    assert(s.subrange(0, hn) =~= seq![DOLLAR] + digits + crlf());
                    lemma_parse_line_enc(s, DOLLAR, digits);
                    lemma_count_text_roundtrip(d.len());
                }
            }
}

/// The Array case of the prefix-incompleteness argument.
#[verifier::rlimit(100)]
proof fn lemma_parse_prefix_array(s: Seq<u8>, items: Seq<FrameV>)
    requires
        frame_codable(FrameV::Array(items)),
        s.len() < encode_frame(FrameV::Array(items)).len(),
        s == encode_frame(FrameV::Array(items)).subrange(0, s.len() as int),
        s.len() >= 1,
    ensures
        parse_frame(s) == Err::<(FrameV, int), RespError>(RespError::NotComplete),
    decreases FrameV::Array(items), 2int,
{
    let f = FrameV::Array(items);
    let enc = encode_frame(f);
    let big = enc.len() as int;
    assert forall|j: int| 0 <= j < s.len() implies s[j] == enc[j] by {
        assert(enc.subrange(0, s.len() as int)[j] == enc[j]);
    }
    lemma_enc_min(f);
    lemma_probe_prefix(s, f);

            let digits = dec_digits(items.len());
            lemma_dec_digits_form(items.len());
            lemma_digits_no_crlf(items.len());
            assert(encode_items(items).len() >= 3) by {
                lemma_enc_min(items[0]);
                assert(encode_items(items) == encode_frame(items[0]) + encode_items(
                    items.subrange(1, items.len() as int),
                ));
            }
            if s.len() >= 5 {
                assert(parse_fixed(s, null_composite_token(STAR)) == Err::<(), RespError>(
                    RespError::InvalidFrameType,
                )) by {
                    if s.subrange(0, 5) == null_composite_token(STAR) {
                        assert(s.subrange(0, 5)[1] == s[1]);
                        assert(s[1] == digits[0]);
                        assert(is_digit(digits[0]));
                    }
                }
                let hn = 1 + digits.len() as int + 2;
                if s.len() < hn {
                    lemma_line_scan_prefix(s, STAR, digits);
                } else {
                    assert(s.subrange(0, hn) =~= seq![STAR] + digits + crlf());
                    lemma_parse_line_enc(s, STAR, digits);
                    lemma_count_text_roundtrip(items.len());
                    let t = s.subrange(hn, s.len() as int);
                    assert(t =~= encode_items(items).subrange(0, t.len() as int)) by {
                        assert forall|j: int| 0 <= j < t.len() implies t[j] == encode_items(
                            items,
                        )[j] by {
                            assert(t[j] == s[hn + j]);
                            assert(enc[hn + j] == encode_items(items)[j]);
                        }
                    }
                    lemma_probe_items_prefix(t, items);
                }
            }
}

/// The Collection case of the prefix-incompleteness argument.
#[verifier::rlimit(100)]
proof fn lemma_parse_prefix_set(s: Seq<u8>, items: Seq<FrameV>)
    requires
        frame_codable(FrameV::Collection(items)),
        s.len() < encode_frame(FrameV::Collection(items)).len(),
        s == encode_frame(FrameV::Collection(items)).subrange(0, s.len() as int),
        s.len() >= 1,
    ensures
        parse_frame(s) == Err::<(FrameV, int), RespError>(RespError::NotComplete),
    decreases FrameV::Collection(items), 2int,
{
    let f = FrameV::Collection(items);
    let enc = encode_frame(f);
    let big = enc.len() as int;
    assert forall|j: int| 0 <= j < s.len() implies s[j] == enc[j] by {
        assert(enc.subrange(0, s.len() as int)[j] == enc[j]);
    }
    lemma_enc_min(f);
    lemma_probe_prefix(s, f);

            let digits = dec_digits(items.len());
            lemma_dec_digits_form(items.len());
            lemma_digits_no_crlf(items.len());
            let hn = 1 + digits.len() as int + 2;
            if s.len() < hn {
                lemma_line_scan_prefix(s, TILDE, digits);
            } else {
                assert(s.subrange(0, hn) =~= seq![TILDE] + digits + crlf());
                lemma_parse_line_enc(s, TILDE, digits);
                lemma_count_text_roundtrip(items.len());
                let t = s.subrange(hn, s.len() as int);
                assert(t =~= encode_items(items).subrange(0, t.len() as int)) by {
                    assert forall|j: int| 0 <= j < t.len() implies t[j] == encode_items(
                        items,
                    )[j] by {
                        assert(t[j] == s[hn + j]);
                        assert(enc[hn + j] == encode_items(items)[j]);
                    }
                }
                lemma_probe_items_prefix(t, items);
            }
}

/// The Mapping case of the prefix-incompleteness argument.
#[verifier::rlimit(100)]
proof fn lemma_parse_prefix_map(s: Seq<u8>, pairs: Seq<(Seq<u8>, FrameV)>)
    requires
        frame_codable(FrameV::Mapping(pairs)),
        s.len() < encode_frame(FrameV::Mapping(pairs)).len(),
        s == encode_frame(FrameV::Mapping(pairs)).subrange(0, s.len() as int),
        s.len() >= 1,
    ensures
        parse_frame(s) == Err::<(FrameV, int), RespError>(RespError::NotComplete),
    decreases FrameV::Mapping(pairs), 2int,
{
    let f = FrameV::Mapping(pairs);
    let enc = encode_frame(f);
    let big = enc.len() as int;
    assert forall|j: int| 0 <= j < s.len() implies s[j] == enc[j] by {
        assert(enc.subrange(0, s.len() as int)[j] == enc[j]);
    }
    lemma_enc_min(f);
    lemma_probe_prefix(s, f);

            let digits = dec_digits(pairs.len());
            lemma_dec_digits_form(pairs.len());
            lemma_digits_no_crlf(pairs.len());
            let hn = 1 + digits.len() as int + 2;
            if s.len() < hn {
                lemma_line_scan_prefix(s, PERCENT, digits);
            } else {
                assert(s.subrange(0, hn) =~= seq![PERCENT] + digits + crlf());
                lemma_parse_line_enc(s, PERCENT, digits);
                lemma_count_text_roundtrip(pairs.len());
                let t = s.subrange(hn, s.len() as int);
                assert(t =~= encode_pairs(pairs).subrange(0, t.len() as int)) by {
                    assert forall|j: int| 0 <= j < t.len() implies t[j] == encode_pairs(
                        pairs,
                    )[j] by {
                        assert(t[j] == s[hn + j]);
                        assert(enc[hn + j] == encode_pairs(pairs)[j]);
                    }
                }
                lemma_probe_pairs_prefix(t, pairs);
            }
}

/// Incomplete-safety: feeding any strict byte-prefix of a
/// well-formed frame's encoding to the decoder asks for more bytes;
/// it never yields a spurious frame or a fatal error.
pub proof fn lemma_prefix_incomplete(f: FrameV, n: int)
    requires
        frame_codable(f),
        0 <= n < encode_frame(f).len(),
    ensures
        parse_frame(encode_frame(f).subrange(0, n)) == Err::<(FrameV, int), RespError>(
            RespError::NotComplete,
        ),
{
    let s = encode_frame(f).subrange(0, n);
    lemma_parse_prefix(s, f);
}

} // verus!
