//! The URI value type and its mathematical model, the well-formedness
//! predicate that parsing establishes, and dot-segment collapsing.

use vstd::prelude::*;
use crate::text::{valid_scheme, lower_bytes};

verus! {

// ---------------------------------------------------------------------------
// Data model
// ---------------------------------------------------------------------------

/// Mathematical model of a URI. The path is a rooted flag plus the sequence
/// of its segments: `"/a/b/"` is rooted `["a", "b", ""]`, `"a"` is unrooted
/// `["a"]`, and the empty path has no segments.
#[verifier::ext_equal]
pub struct UriModel {
    pub scheme: Seq<u8>,
    pub host: Option<Seq<u8>>,
    pub port: Option<u16>,
    pub rooted: bool,
    pub segments: Seq<Seq<u8>>,
    pub query: Option<Seq<u8>>,
    pub fragment: Option<Seq<u8>>,
}

/// A URI as a plain immutable value. `host` distinguishes the empty string
/// from absence; `port` is present only when written in the source text.
#[derive(Clone, Debug, PartialEq, Eq)]
pub struct Uri {
    pub scheme: Vec<u8>,
    pub host: Option<Vec<u8>>,
    pub port: Option<u16>,
    pub rooted: bool,
    pub segments: Vec<Vec<u8>>,
    pub query: Option<Vec<u8>>,
    pub fragment: Option<Vec<u8>>,
}

impl View for Uri {
    type V = UriModel;

    open spec fn view(&self) -> UriModel {
        UriModel {
            scheme: self.scheme@,
            host: self.host.deep_view(),
            port: self.port,
            rooted: self.rooted,
            segments: self.segments.deep_view(),
            query: self.query.deep_view(),
            fragment: self.fragment.deep_view(),
        }
    }
}

/// For byte vectors the deep view and the view agree.
pub broadcast proof fn lemma_vec_u8_deep_view(v: Vec<u8>)
    ensures
        #[trigger] v.deep_view() == v@,
{
    assert(v.deep_view() =~= v@);
}

// ---------------------------------------------------------------------------
// Well-formedness
// ---------------------------------------------------------------------------

/// A path segment never holds a path, query or fragment delimiter.
pub open spec fn seg_ok(s: Seq<u8>) -> bool {
    forall|i: int| 0 <= i < s.len() ==> (#[trigger] s[i]) != 47 && s[i] != 63 && s[i] != 35
}

/// A host never holds an authority, path, query or fragment delimiter.
pub open spec fn host_ok(h: Seq<u8>) -> bool {
    forall|i: int|
        0 <= i < h.len() ==> (#[trigger] h[i]) != 47 && h[i] != 63 && h[i] != 35 && h[i] != 58
}

/// A query never holds a fragment delimiter.
pub open spec fn query_ok(q: Seq<u8>) -> bool {
    forall|i: int| 0 <= i < q.len() ==> (#[trigger] q[i]) != 35
}

/// The shape every URI built by the engine has: a lower-case well-formed
/// scheme, components free of the delimiters that would make the textual
/// form ambiguous, and an authority-style path (empty or rooted) whenever a
/// host is present.
pub open spec fn wf(u: UriModel) -> bool {
    &&& valid_scheme(u.scheme)
    &&& lower_bytes(u.scheme) == u.scheme
    &&& match u.host {
        Some(h) => host_ok(h),
        None => true,
    }
    &&& (u.host is None ==> u.port is None)
    &&& (u.rooted ==> u.segments.len() >= 1)
    &&& (u.host is Some ==> u.segments.len() == 0 || u.rooted)
    &&& (!u.rooted && u.segments.len() > 0 ==> u.segments[0].len() > 0)
    &&& (u.host is None && u.rooted && u.segments.len() >= 2 ==> u.segments[0].len() > 0)
    &&& (forall|k: int| 0 <= k < u.segments.len() ==> seg_ok(#[trigger] u.segments[k]))
    &&& match u.query {
        Some(q) => query_ok(q) && q.len() > 0,
        None => true,
    }
    &&& match u.fragment {
        Some(f) => f.len() > 0,
        None => true,
    }
}

// ---------------------------------------------------------------------------
// Dot-segment collapsing
// ---------------------------------------------------------------------------

pub open spec fn dot_seg() -> Seq<u8> {
    seq![46u8]
}

pub open spec fn dotdot_seg() -> Seq<u8> {
    seq![46u8, 46u8]
}

/// Collapse dot segments left to right: `.` disappears, `..` removes the
/// segment collected before it, and a `..` with nothing before it is dropped
/// silently rather than escaping above the root.
pub open spec fn collapse_from(acc: Seq<Seq<u8>>, rest: Seq<Seq<u8>>) -> Seq<Seq<u8>>
    decreases rest.len(),
{
    if rest.len() == 0 {
        acc
    } else if rest[0] == dot_seg() {
        collapse_from(acc, rest.skip(1))
    } else if rest[0] == dotdot_seg() {
        collapse_from(if acc.len() > 0 { acc.drop_last() } else { acc }, rest.skip(1))
    } else {
        collapse_from(acc.push(rest[0]), rest.skip(1))
    }
}

pub open spec fn collapse(segs: Seq<Seq<u8>>) -> Seq<Seq<u8>> {
    collapse_from(Seq::empty(), segs)
}

pub open spec fn no_dots(segs: Seq<Seq<u8>>) -> bool {
    forall|k: int|
        0 <= k < segs.len() ==> (#[trigger] segs[k]) != dot_seg() && segs[k] != dotdot_seg()
}

/// Collapsing never emits a dot segment.
pub proof fn lemma_collapse_no_dots(acc: Seq<Seq<u8>>, rest: Seq<Seq<u8>>)
    requires
        no_dots(acc),
    ensures
        no_dots(collapse_from(acc, rest)),
    decreases rest.len(),
{
    if rest.len() > 0 {
        if rest[0] == dot_seg() {
            lemma_collapse_no_dots(acc, rest.skip(1));
        } else if rest[0] == dotdot_seg() {
            let acc2 = if acc.len() > 0 {
                acc.drop_last()
            } else {
                acc
            };
            assert(no_dots(acc2)) by {
                assert(forall|k: int| 0 <= k < acc2.len() ==> acc2[k] == acc[k]);
            }
            lemma_collapse_no_dots(acc2, rest.skip(1));
        } else {
            assert(no_dots(acc.push(rest[0]))) by {
                assert(forall|k: int| 0 <= k < acc.len() ==> acc.push(rest[0])[k] == acc[k]);
                assert(acc.push(rest[0])[acc.len() as int] == rest[0]);
            }
            lemma_collapse_no_dots(acc.push(rest[0]), rest.skip(1));
        }
    }
}

/// On a sequence without dot segments, collapsing just appends.
pub proof fn lemma_collapse_id(acc: Seq<Seq<u8>>, rest: Seq<Seq<u8>>)
    requires
        no_dots(rest),
    ensures
        collapse_from(acc, rest) == acc + rest,
    decreases rest.len(),
{
    if rest.len() == 0 {
        assert(collapse_from(acc, rest) =~= acc + rest);
    } else {
        assert(rest[0] != dot_seg() && rest[0] != dotdot_seg());
        assert(no_dots(rest.skip(1))) by {
            assert(forall|k: int| 0 <= k < rest.len() - 1 ==> rest.skip(1)[k] == rest[k + 1]);
        }
        lemma_collapse_id(acc.push(rest[0]), rest.skip(1));
        assert(acc.push(rest[0]) + rest.skip(1) =~= acc + rest);
    }
}

/// Every segment collapsing returns was in the accumulator or the input, so
/// any per-segment property carries through.
pub proof fn lemma_collapse_segs(acc: Seq<Seq<u8>>, rest: Seq<Seq<u8>>, p: spec_fn(Seq<u8>) -> bool)
    requires
        forall|k: int| 0 <= k < acc.len() ==> p(#[trigger] acc[k]),
        forall|k: int| 0 <= k < rest.len() ==> p(#[trigger] rest[k]),
    ensures
        forall|k: int|
            0 <= k < collapse_from(acc, rest).len() ==> p(#[trigger] collapse_from(acc, rest)[k]),
    decreases rest.len(),
{
    if rest.len() == 0 {
        assert(collapse_from(acc, rest) == acc);
        assert(forall|k: int|
            0 <= k < collapse_from(acc, rest).len() ==> p(#[trigger] collapse_from(acc, rest)[k]))
            by {
            assert(forall|k: int| 0 <= k < acc.len() ==> p(#[trigger] acc[k]));
        }
    } else {
        assert(forall|k: int| 0 <= k < rest.skip(1).len() ==> p(#[trigger] rest.skip(1)[k])) by {
            assert(forall|k: int| 0 <= k < rest.len() - 1 ==> rest.skip(1)[k] == rest[k + 1]);
        }
        if rest[0] == dot_seg() {
            lemma_collapse_segs(acc, rest.skip(1), p);
            assert(collapse_from(acc, rest) == collapse_from(acc, rest.skip(1)));
        } else if rest[0] == dotdot_seg() {
            let acc2 = if acc.len() > 0 {
                acc.drop_last()
            } else {
                acc
            };
            assert(forall|k: int| 0 <= k < acc2.len() ==> p(#[trigger] acc2[k])) by {
                assert(forall|k: int| 0 <= k < acc2.len() ==> acc2[k] == acc[k]);
            }
            lemma_collapse_segs(acc2, rest.skip(1), p);
            assert(collapse_from(acc, rest) == collapse_from(acc2, rest.skip(1)));
        } else {
            assert(forall|k: int| 0 <= k < acc.push(rest[0]).len() ==> p(
                #[trigger] acc.push(rest[0])[k],
            )) by {
                assert(forall|k: int| 0 <= k < acc.len() ==> acc.push(rest[0])[k] == acc[k]);
                assert(acc.push(rest[0])[acc.len() as int] == rest[0]);
            }
            lemma_collapse_segs(acc.push(rest[0]), rest.skip(1), p);
            assert(collapse_from(acc, rest) == collapse_from(acc.push(rest[0]), rest.skip(1)));
        }
    }
}

/// Executable copy of a byte vector.
pub fn copy_vec(v: &Vec<u8>) -> (r: Vec<u8>)
    ensures
        r@ == v@,
{
    let r = crate::text::subrange_vec(v, 0, v.len());
    proof {
        assert(v@.subrange(0, v@.len() as int) =~= v@);
    }
    r
}

/// Executable dot-segment collapsing.
pub fn collapse_vec(segs: &Vec<Vec<u8>>) -> (r: Vec<Vec<u8>>)
    ensures
        r.deep_view() == collapse(segs.deep_view()),
{
    let mut acc: Vec<Vec<u8>> = Vec::new();
    let mut i: usize = 0;
    proof {
        assert(acc.deep_view() =~= Seq::<Seq<u8>>::empty());
        assert(segs.deep_view().skip(0) =~= segs.deep_view());
    }
    while i < segs.len()
        invariant
            i <= segs@.len(),
            segs.deep_view().len() == segs@.len(),
            collapse(segs.deep_view()) == collapse_from(
                acc.deep_view(),
                segs.deep_view().skip(i as int),
            ),
        decreases segs@.len() - i,
    {
        let ghost rest = segs.deep_view().skip(i as int);
        proof {
            assert(rest[0] == segs.deep_view()[i as int]);
            assert(segs.deep_view()[i as int] == segs@[i as int]@);
            assert(rest.skip(1) =~= segs.deep_view().skip(i as int + 1));
        }
        let seg = &segs[i];
        if seg.len() == 1 && seg[0] == 46 {
            proof {
                assert(seg@ =~= dot_seg());
            }
        } else if seg.len() == 2 && seg[0] == 46 && seg[1] == 46 {
            proof {
                assert(seg@ =~= dotdot_seg());
            }
            let ghost accv = acc.deep_view();
            if acc.len() > 0 {
                let _ = acc.pop();
                proof {
                    assert(acc.deep_view() =~= accv.drop_last());
                }
            }
        } else {
            proof {
                assert(seg@ != dot_seg() && seg@ != dotdot_seg());
            }
            let ghost accv = acc.deep_view();
            acc.push(copy_vec(seg));
            proof {
                assert(acc.deep_view() =~= accv.push(seg@));
            }
        }
        i += 1;
    }
    proof {
        assert(segs.deep_view().skip(i as int) =~= Seq::<Seq<u8>>::empty());
    }
    acc
}

} // verus!
