//! The executable frame types. Each type's view is its abstract
//! counterpart in the model, and every codec contract is stated over
//! those views.

use vstd::prelude::*;
use crate::model::{lex_lt, sorted_insert, FrameV};

verus! {

/// A line-terminated text frame.
#[derive(Debug, Clone, PartialEq, Eq, Hash, PartialOrd, Ord)]
pub struct SimpleString(pub Vec<u8>);

/// A line-terminated error-message frame.
#[derive(Debug, Clone, PartialEq, Eq, Hash, PartialOrd, Ord)]
pub struct SimpleError(pub Vec<u8>);

/// A length-prefixed raw byte-string frame.
#[derive(Debug, Clone, PartialEq, Eq, Hash, PartialOrd, Ord)]
pub struct BulkString(pub Vec<u8>);

/// An ordered sequence of frames.
#[derive(Debug, PartialEq, Eq, Hash, PartialOrd, Ord)]
pub struct RespArray(pub Vec<RespFrame>);

/// The protocol's dedicated no-value marker.
#[derive(Debug, Clone, PartialEq, Eq, Hash, PartialOrd, Ord)]
pub struct RespNull;

/// The legacy no-array marker.
#[derive(Debug, Clone, PartialEq, Eq, Hash, PartialOrd, Ord)]
pub struct RespNullArray;

/// The legacy no-bulk-string marker.
#[derive(Debug, Clone, PartialEq, Eq, Hash, PartialOrd, Ord)]
pub struct RespNullBulkString;

/// A double frame; the payload is its wire text, a well-formed float
/// literal, kept as received or as given by the caller.
#[derive(Debug, Clone, PartialEq, Eq, Hash, PartialOrd, Ord)]
pub struct RespDouble(pub Vec<u8>);

/// A mapping from text keys to frames, kept in strictly ascending key
/// order; keys are unique.
#[derive(Debug, PartialEq, Eq, Hash, PartialOrd, Ord)]
pub struct RespMap(pub Vec<(Vec<u8>, RespFrame)>);

/// An order-preserving collection frame; the codec does not
/// de-duplicate members.
#[derive(Debug, PartialEq, Eq, Hash, PartialOrd, Ord)]
pub struct RespSet(pub Vec<RespFrame>);

/// One wire value: the closed set of frame variants, dispatched on
/// the one-byte wire tag.
#[derive(Debug, PartialEq, Eq, Hash, PartialOrd, Ord)]
pub enum RespFrame {
    SimpleString(SimpleString),
    Error(SimpleError),
    Integer(i64),
    BulkString(BulkString),
    Array(RespArray),
    Null(RespNull),
    NullArray(RespNullArray),
    NullBulkString(RespNullBulkString),
    Boolean(bool),
    Double(RespDouble),
    Mapping(RespMap),
    Collection(RespSet),
}

/// The abstract value of an executable frame.
pub open spec fn frame_view(f: RespFrame) -> FrameV
    decreases f, 0int,
{
    match f {
        RespFrame::SimpleString(s) => FrameV::SimpleString(s.0@),
        RespFrame::Error(s) => FrameV::Error(s.0@),
        RespFrame::Integer(v) => FrameV::Integer(v),
        RespFrame::BulkString(s) => FrameV::BulkString(s.0@),
        RespFrame::Array(a) => FrameV::Array(frames_view(a.0@)),
        RespFrame::Null(_) => FrameV::Null,
        RespFrame::NullArray(_) => FrameV::NullArray,
        RespFrame::NullBulkString(_) => FrameV::NullBulkString,
        RespFrame::Boolean(v) => FrameV::Boolean(v),
        RespFrame::Double(d) => FrameV::Double(d.0@),
        RespFrame::Mapping(m) => FrameV::Mapping(pairs_view(m.0@)),
        RespFrame::Collection(s) => FrameV::Collection(frames_view(s.0@)),
    }
}

pub open spec fn frames_view(s: Seq<RespFrame>) -> Seq<FrameV>
    decreases s, 1int,
{
    if s.len() == 0 {
        Seq::empty()
    } else {
        seq![frame_view(s[0])] + frames_view(s.subrange(1, s.len() as int))
    }
}

pub open spec fn pairs_view(s: Seq<(Vec<u8>, RespFrame)>) -> Seq<(Seq<u8>, FrameV)>
    decreases s, 1int,
{
    if s.len() == 0 {
        Seq::empty()
    } else {
        seq![(s[0].0@, frame_view(s[0].1))] + pairs_view(s.subrange(1, s.len() as int))
    }
}

pub proof fn lemma_frames_view(s: Seq<RespFrame>)
    ensures
        frames_view(s).len() == s.len(),
        forall|i: int| 0 <= i < s.len() ==> frames_view(s)[i] == frame_view(#[trigger] s[i]),
    decreases s.len(),
{
    if s.len() > 0 {
        lemma_frames_view(s.subrange(1, s.len() as int));
        assert forall|i: int| 0 <= i < s.len() implies frames_view(s)[i] == frame_view(
            #[trigger] s[i],
        ) by {
            if i > 0 {
                assert(s.subrange(1, s.len() as int)[i - 1] == s[i]);
            }
        }
    }
}

pub proof fn lemma_frames_view_push(s: Seq<RespFrame>, f: RespFrame)
    ensures
        frames_view(s.push(f)) == frames_view(s).push(frame_view(f)),
    decreases s.len(),
{
    let p = s.push(f);
    lemma_frames_view(p);
    lemma_frames_view(s);
    assert forall|i: int| 0 <= i < p.len() implies frames_view(p)[i] == frames_view(s).push(
        frame_view(f),
    )[i] by {
        assert(frames_view(p)[i] == frame_view(p[i]));
        if i < s.len() {
            assert(p[i] == s[i]);
        } else {
            assert(p[i] == f);
        }
    }
    assert(frames_view(p) =~= frames_view(s).push(frame_view(f)));
}

pub proof fn lemma_pairs_view(s: Seq<(Vec<u8>, RespFrame)>)
    ensures
        pairs_view(s).len() == s.len(),
        forall|i: int|
            0 <= i < s.len() ==> pairs_view(s)[i] == ((#[trigger] s[i]).0@, frame_view(s[i].1)),
    decreases s.len(),
{
    if s.len() > 0 {
        lemma_pairs_view(s.subrange(1, s.len() as int));
        assert forall|i: int| 0 <= i < s.len() implies pairs_view(s)[i] == (
            (#[trigger] s[i]).0@,
            frame_view(s[i].1),
        ) by {
            if i > 0 {
                assert(s.subrange(1, s.len() as int)[i - 1] == s[i]);
            }
        }
    }
}

impl View for RespFrame {
    type V = FrameV;

    open spec fn view(&self) -> FrameV {
        frame_view(*self)
    }
}

impl View for SimpleString {
    type V = Seq<u8>;

    open spec fn view(&self) -> Seq<u8> {
        self.0@
    }
}

impl View for SimpleError {
    type V = Seq<u8>;

    open spec fn view(&self) -> Seq<u8> {
        self.0@
    }
}

impl View for BulkString {
    type V = Seq<u8>;

    open spec fn view(&self) -> Seq<u8> {
        self.0@
    }
}

impl View for RespDouble {
    type V = Seq<u8>;

    open spec fn view(&self) -> Seq<u8> {
        self.0@
    }
}

impl View for RespArray {
    type V = Seq<FrameV>;

    open spec fn view(&self) -> Seq<FrameV> {
        frames_view(self.0@)
    }
}

impl View for RespSet {
    type V = Seq<FrameV>;

    open spec fn view(&self) -> Seq<FrameV> {
        frames_view(self.0@)
    }
}

impl View for RespMap {
    type V = Seq<(Seq<u8>, FrameV)>;

    open spec fn view(&self) -> Seq<(Seq<u8>, FrameV)> {
        pairs_view(self.0@)
    }
}

impl SimpleString {
    pub fn new(s: Vec<u8>) -> (r: SimpleString)
        ensures
            r@ == s@,
    {
        SimpleString(s)
    }

    /// The payload bytes.
    pub fn bytes(&self) -> (r: &Vec<u8>)
        ensures
            r@ == self@,
    {
        &self.0
    }
}

impl SimpleError {
    pub fn new(s: Vec<u8>) -> (r: SimpleError)
        ensures
            r@ == s@,
    {
        SimpleError(s)
    }

    /// The payload bytes.
    pub fn bytes(&self) -> (r: &Vec<u8>)
        ensures
            r@ == self@,
    {
        &self.0
    }
}

impl BulkString {
    pub fn new(s: Vec<u8>) -> (r: BulkString)
        ensures
            r@ == s@,
    {
        BulkString(s)
    }

    /// The payload bytes.
    pub fn bytes(&self) -> (r: &Vec<u8>)
        ensures
            r@ == self@,
    {
        &self.0
    }
}

impl RespDouble {
    /// A double frame from its wire text; the text must be a
    /// well-formed float literal, as `is_float_text` says.
    pub fn new(text: Vec<u8>) -> (r: RespDouble)
        requires
            crate::floattext::is_float_text(text@),
        ensures
            r@ == text@,
    {
        RespDouble(text)
    }

    /// The wire text of the value.
    pub fn bytes(&self) -> (r: &Vec<u8>)
        ensures
            r@ == self@,
    {
        &self.0
    }
}

impl RespArray {
    pub fn new(arr: Vec<RespFrame>) -> (r: RespArray)
        ensures
            r@ == frames_view(arr@),
    {
        RespArray(arr)
    }

    /// The empty array, which is also what the null-array token
    /// decodes to at this type.
    pub fn null() -> (r: RespArray)
        ensures
            r@ == Seq::<FrameV>::empty(),
    {
        RespArray(Vec::new())
    }

    /// The members, in order.
    pub fn items(&self) -> (r: &Vec<RespFrame>)
        ensures
            r@ == self.0@,
            frames_view(r@) == self@,
    {
        &self.0
    }

    pub fn len(&self) -> (r: usize)
        ensures
            r == self@.len(),
    {
        proof {
            lemma_frames_view(self.0@);
        }
        self.0.len()
    }
}

impl RespSet {
    pub fn new(set: Vec<RespFrame>) -> (r: RespSet)
        ensures
            r@ == frames_view(set@),
    {
        RespSet(set)
    }

    /// The members, in order.
    pub fn items(&self) -> (r: &Vec<RespFrame>)
        ensures
            r@ == self.0@,
            frames_view(r@) == self@,
    {
        &self.0
    }

    pub fn len(&self) -> (r: usize)
        ensures
            r == self@.len(),
    {
        proof {
            lemma_frames_view(self.0@);
        }
        self.0.len()
    }
}

impl RespNull {
    pub fn new() -> (r: RespNull) {
        RespNull
    }
}

impl RespNullArray {
    pub fn new() -> (r: RespNullArray) {
        RespNullArray
    }
}

impl RespNullBulkString {
    pub fn new() -> (r: RespNullBulkString) {
        RespNullBulkString
    }
}

/// Key order of the executable map: strictly ascending, so keys are
/// unique and iteration order is sorted key order.
pub open spec fn map_entries_sorted(s: Seq<(Seq<u8>, FrameV)>) -> bool {
    crate::model::pairs_sorted(s)
}

impl RespMap {
    pub fn new() -> (r: RespMap)
        ensures
            r@ == Seq::<(Seq<u8>, FrameV)>::empty(),
    {
        RespMap(Vec::new())
    }

    pub fn len(&self) -> (r: usize)
        ensures
            r == self@.len(),
    {
        proof {
            lemma_pairs_view(self.0@);
        }
        self.0.len()
    }

    /// The entries in ascending key order.
    pub fn entries(&self) -> (r: &Vec<(Vec<u8>, RespFrame)>)
        ensures
            r@ == self.0@,
            pairs_view(r@) == self@,
    {
        &self.0
    }

    /// Put `value` under `key`, keeping ascending key order; an entry
    /// already under `key` is replaced.
    pub fn insert(&mut self, key: Vec<u8>, value: RespFrame)
        ensures
            final(self)@ == sorted_insert(old(self)@, key@, value@),
    {
        let ghost ps = pairs_view(self.0@);
        proof {
            lemma_pairs_view(self.0@);
        }
        let n = self.0.len();
        let mut i: usize = 0;
        loop
            invariant
                0 <= i <= n,
                self == old(self),
                n == self.0@.len(),
                ps == pairs_view(self.0@),
                ps.len() == n,
                forall|j: int| 0 <= j < ps.len() ==> ps[j] == ((#[trigger] self.0@[j]).0@, frame_view(self.0@[j].1)),
                forall|j: int| 0 <= j < i ==> lex_lt(#[trigger] ps[j].0, key@),
            ensures
                0 <= i <= n,
                self == old(self),
                forall|j: int| 0 <= j < i ==> lex_lt(#[trigger] ps[j].0, key@),
                i < n ==> !lex_lt(ps[i as int].0, key@),
            decreases n - i,
        {
            if i >= n {
                break;
            }
            if !vec_lex_lt(&self.0[i].0, &key) {
                break;
            }
            i = i + 1;
        }
        if i < n && vec_lex_eq(&self.0[i].0, &key) {
            proof {
                lemma_sorted_insert_at(ps, key@, value@, i as int);
            }
            self.0.remove(i);
            self.0.insert(i, (key, value));
            proof {
                lemma_pairs_view_parts(old(self).0@, self.0@, i as int, true);
            }
        } else {
            proof {
                if i < n {
                    crate::model::lemma_lex_total(ps[i as int].0, key@);
                }
                lemma_sorted_insert_at(ps, key@, value@, i as int);
            }
            self.0.insert(i, (key, value));
            proof {
                lemma_pairs_view_parts(old(self).0@, self.0@, i as int, false);
            }
        }
    }
}

/// Strict lexicographic comparison of two byte vectors.
pub fn vec_lex_lt(a: &Vec<u8>, b: &Vec<u8>) -> (r: bool)
    ensures
        r == lex_lt(a@, b@),
{
    let an = a.len();
    let bn = b.len();
    let n = if an < bn {
        an
    } else {
        bn
    };
    proof {
        assert(a@.subrange(0, an as int) =~= a@);
        assert(b@.subrange(0, bn as int) =~= b@);
    }
    let mut i: usize = 0;
    #[verifier::loop_isolation(false)]
    while i < n
        invariant
            0 <= i <= n,
            lex_lt(a@, b@) == lex_lt(a@.subrange(i as int, an as int), b@.subrange(
                i as int,
                bn as int,
            )),
        decreases n - i,
    {
        let ghost ai = a@.subrange(i as int, an as int);
        let ghost bi = b@.subrange(i as int, bn as int);
        if a[i] < b[i] {
            proof {
                assert(ai[0] == a@[i as int]);
                assert(bi[0] == b@[i as int]);
            }
            return true;
        }
        if a[i] > b[i] {
            proof {
                assert(ai[0] == a@[i as int]);
                assert(bi[0] == b@[i as int]);
            }
            return false;
        }
        proof {
            assert(ai[0] == a@[i as int]);
            assert(bi[0] == b@[i as int]);
            assert(ai.subrange(1, ai.len() as int) =~= a@.subrange(i as int + 1, an as int));
            assert(bi.subrange(1, bi.len() as int) =~= b@.subrange(i as int + 1, bn as int));
        }
        i = i + 1;
    }
    proof {
        let ai = a@.subrange(i as int, an as int);
        let bi = b@.subrange(i as int, bn as int);
        if an < bn {
            assert(ai.len() == 0 && bi.len() > 0);
        } else {
            assert(bi.len() == bn - i);
        }
    }
    an < bn
}

/// Byte-for-byte equality of two byte vectors.
pub fn vec_lex_eq(a: &Vec<u8>, b: &Vec<u8>) -> (r: bool)
    ensures
        r == (a@ == b@),
{
    if a.len() != b.len() {
        return false;
    }
    let n = a.len();
    let mut i: usize = 0;
    #[verifier::loop_isolation(false)]
    while i < n
        invariant
            0 <= i <= n,
            forall|j: int| 0 <= j < i ==> a@[j] == b@[j],
        decreases n - i,
    {
        if a[i] != b[i] {
            return false;
        }
        i = i + 1;
    }
    proof {
        assert(a@ =~= b@);
    }
    true
}

/// Where `sorted_insert` puts the new pair: behind the `i` leading
/// entries whose keys come before the new key.
pub proof fn lemma_sorted_insert_at(
    ps: Seq<(Seq<u8>, FrameV)>,
    key: Seq<u8>,
    value: FrameV,
    i: int,
)
    requires
        0 <= i <= ps.len(),
        forall|j: int| 0 <= j < i ==> lex_lt((#[trigger] ps[j]).0, key),
        i < ps.len() ==> !lex_lt(ps[i].0, key),
    ensures
        i < ps.len() && ps[i].0 == key ==> sorted_insert(ps, key, value) == ps.subrange(0, i)
            + seq![(key, value)] + ps.subrange(i + 1, ps.len() as int),
        !(i < ps.len() && ps[i].0 == key) ==> sorted_insert(ps, key, value) == ps.subrange(0, i)
            + seq![(key, value)] + ps.subrange(i, ps.len() as int),
    decreases ps.len(),
{
    if ps.len() == 0 {
        assert(sorted_insert(ps, key, value) =~= ps.subrange(0, 0) + seq![(key, value)]
            + ps.subrange(0, 0));
    } else if i == 0 {
        if !lex_lt(ps[0].0, key) && ps[0].0 != key {
            crate::model::lemma_lex_total(ps[0].0, key);
            assert(lex_lt(key, ps[0].0));
            assert(sorted_insert(ps, key, value) =~= ps.subrange(0, 0) + seq![(key, value)]
                + ps.subrange(0, ps.len() as int));
        } else {
            assert(sorted_insert(ps, key, value) =~= ps.subrange(0, 0) + seq![(key, value)]
                + ps.subrange(1, ps.len() as int));
        }
    } else {
        let tail = ps.subrange(1, ps.len() as int);
        assert(lex_lt(ps[0].0, key));
        crate::model::lemma_lex_asym(ps[0].0, key);
        assert forall|j: int| 0 <= j < i - 1 implies lex_lt((#[trigger] tail[j]).0, key) by {
            assert(tail[j] == ps[j + 1]);
        }
        assert(i - 1 < tail.len() ==> tail[i - 1] == ps[i]);
        lemma_sorted_insert_at(tail, key, value, i - 1);
        if i < ps.len() && ps[i].0 == key {
            assert(sorted_insert(ps, key, value) =~= ps.subrange(0, i) + seq![(key, value)]
                + ps.subrange(i + 1, ps.len() as int)) by {
                assert(tail.subrange(0, i - 1) =~= ps.subrange(1, i));
                assert(tail.subrange(i, tail.len() as int) =~= ps.subrange(i + 1, ps.len() as int));
            }
        } else {
            assert(sorted_insert(ps, key, value) =~= ps.subrange(0, i) + seq![(key, value)]
                + ps.subrange(i, ps.len() as int)) by {
                assert(tail.subrange(0, i - 1) =~= ps.subrange(1, i));
                assert(tail.subrange(i - 1, tail.len() as int) =~= ps.subrange(
                    i,
                    ps.len() as int,
                ));
            }
        }
    }
}

/// How the view of the entry vector changes when a pair is put in at
/// `i`, with (`replaced`) or without a removal of the old entry.
proof fn lemma_pairs_view_parts(
    pre: Seq<(Vec<u8>, RespFrame)>,
    post: Seq<(Vec<u8>, RespFrame)>,
    i: int,
    replaced: bool,
)
    requires
        0 <= i <= pre.len(),
        replaced ==> i < pre.len() && post.len() == pre.len() && (forall|j: int|
            0 <= j < pre.len() && j != i ==> post[j] == pre[j]),
        !replaced ==> post.len() == pre.len() + 1 && (forall|j: int| 0 <= j < i ==> post[j] == pre[j])
            && (forall|j: int| i < j < post.len() ==> post[j] == pre[j - 1]),
    ensures
        replaced ==> pairs_view(post) == pairs_view(pre).subrange(0, i) + seq![
            (post[i].0@, frame_view(post[i].1)),
        ] + pairs_view(pre).subrange(i + 1, pre.len() as int),
        !replaced ==> pairs_view(post) == pairs_view(pre).subrange(0, i) + seq![
            (post[i].0@, frame_view(post[i].1)),
        ] + pairs_view(pre).subrange(i, pre.len() as int),
{
    lemma_pairs_view(pre);
    lemma_pairs_view(post);
    if replaced {
        let rhs = pairs_view(pre).subrange(0, i) + seq![(post[i].0@, frame_view(post[i].1))]
            + pairs_view(pre).subrange(i + 1, pre.len() as int);
        assert forall|j: int| 0 <= j < post.len() implies pairs_view(post)[j] == rhs[j] by {
            assert(pairs_view(post)[j] == ((post[j]).0@, frame_view(post[j].1)));
            if j != i {
                assert(post[j] == pre[j]);
                assert(pairs_view(pre)[j] == ((pre[j]).0@, frame_view(pre[j].1)));
            }
        }
        assert(pairs_view(post) =~= rhs);
    } else {
        let rhs = pairs_view(pre).subrange(0, i) + seq![(post[i].0@, frame_view(post[i].1))]
            + pairs_view(pre).subrange(i, pre.len() as int);
        assert forall|j: int| 0 <= j < post.len() implies pairs_view(post)[j] == rhs[j] by {
            assert(pairs_view(post)[j] == ((post[j]).0@, frame_view(post[j].1)));
            if j < i {
                assert(post[j] == pre[j]);
                assert(pairs_view(pre)[j] == ((pre[j]).0@, frame_view(pre[j].1)));
            } else if j > i {
                assert(post[j] == pre[j - 1]);
                assert(pairs_view(pre)[j - 1] == ((pre[j - 1]).0@, frame_view(pre[j - 1].1)));
            }
        }
        assert(pairs_view(post) =~= rhs);
    }
}

} // verus!
