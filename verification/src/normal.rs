//! The normalizer: case folding, default-port dropping, canonical
//! percent-encoding and dot-segment collapsing. Its central law is
//! idempotence: normalizing twice changes nothing more than once.

use vstd::prelude::*;
use crate::registry::{lookup, SchemeInfoModel, SchemeRegistry};
use crate::text::{
    canon_bytes, canon_vec, is_unreserved, lemma_canon_idem, lemma_canon_shape,
    lemma_host_fold_stable, lemma_lower_idem, lower_bytes, lower_vec,
};
use crate::uri::{
    collapse, collapse_vec, dot_seg, dotdot_seg, host_ok, lemma_collapse_id,
    lemma_collapse_no_dots, lemma_collapse_segs, no_dots, query_ok, seg_ok, wf, Uri, UriModel,
};

verus! {

pub open spec fn canon_opt(o: Option<Seq<u8>>) -> Option<Seq<u8>> {
    match o {
        Some(x) => Some(canon_bytes(x)),
        None => None,
    }
}

/// An explicit port is dropped exactly when the registry marks the scheme
/// special and the port equals that scheme's default.
pub open spec fn normalize_port_model(
    scheme: Seq<u8>,
    port: Option<u16>,
    reg: Seq<SchemeInfoModel>,
) -> Option<u16> {
    match port {
        None => None,
        Some(p) => match lookup(reg, scheme) {
            Some(e) => if e.special && e.default_port == Some(p) {
                None
            } else {
                Some(p)
            },
            None => Some(p),
        },
    }
}

/// Segments are percent-canonicalized; for authority-style rooted paths the
/// dot segments are then collapsed, and a path collapsed away entirely
/// becomes the root path `/`.
pub open spec fn normalize_segments(u: UriModel) -> Seq<Seq<u8>> {
    let segs = u.segments.map_values(|s: Seq<u8>| canon_bytes(s));
    if u.host is Some && u.rooted {
        let c = collapse(segs);
        if c.len() == 0 {
            seq![Seq::<u8>::empty()]
        } else {
            c
        }
    } else {
        segs
    }
}

/// The canonical form of a URI: lower-case scheme; host decoded,
/// re-encoded and case-folded; default port dropped for special schemes;
/// path, query and fragment percent-canonicalized; dot segments collapsed
/// for authority-style paths.
pub open spec fn normalize_model(u: UriModel, reg: Seq<SchemeInfoModel>) -> UriModel {
    let scheme = lower_bytes(u.scheme);
    UriModel {
        scheme,
        host: match u.host {
            Some(h) => Some(lower_bytes(canon_bytes(h))),
            None => None,
        },
        port: normalize_port_model(scheme, u.port, reg),
        rooted: u.rooted,
        segments: normalize_segments(u),
        query: canon_opt(u.query),
        fragment: canon_opt(u.fragment),
    }
}

/// A URI is canonical when normalizing it changes nothing.
pub open spec fn canonical(u: UriModel, reg: Seq<SchemeInfoModel>) -> bool {
    normalize_model(u, reg) == u
}

/// Normalization is idempotent: the canonical form of a canonical form is
/// itself, for every URI value and every registry.
pub proof fn lemma_normalize_idempotent(u: UriModel, reg: Seq<SchemeInfoModel>)
    ensures
        normalize_model(normalize_model(u, reg), reg) == normalize_model(u, reg),
{
    let n = normalize_model(u, reg);
    let n2 = normalize_model(n, reg);
    lemma_lower_idem(u.scheme);
    match u.host {
        Some(h) => {
            lemma_host_fold_stable(h);
        },
        None => {},
    }
    // The port rule keys on the already-folded scheme, so it sees the same
    // registry row both times.
    assert(n2.port == n.port);
    // Segments: everything the first pass emits is already canonical.
    let segs1 = u.segments.map_values(|s: Seq<u8>| canon_bytes(s));
    assert(forall|k: int| 0 <= k < segs1.len() ==> canon_bytes(#[trigger] segs1[k]) == segs1[k])
        by {
        assert forall|k: int| 0 <= k < segs1.len() implies canon_bytes(#[trigger] segs1[k])
            == segs1[k] by {
            assert(segs1[k] == canon_bytes(u.segments[k]));
            lemma_canon_idem(u.segments[k]);
        }
    }
    if u.host is Some && u.rooted {
        lemma_collapse_segs(Seq::empty(), segs1, |s: Seq<u8>| canon_bytes(s) == s);
        lemma_collapse_no_dots(Seq::empty(), segs1);
        let c = collapse(segs1);
        let segsn = n.segments;
        assert(segsn == (if c.len() == 0 {
            seq![Seq::<u8>::empty()]
        } else {
            c
        }));
        assert(forall|k: int| 0 <= k < segsn.len() ==> canon_bytes(#[trigger] segsn[k])
            == segsn[k]) by {
            if c.len() == 0 {
                assert(segsn[0] == Seq::<u8>::empty());
                assert(canon_bytes(Seq::<u8>::empty()) == Seq::<u8>::empty());
            }
        }
        assert(no_dots(segsn)) by {
            if c.len() == 0 {
                assert(segsn[0] == Seq::<u8>::empty());
                assert(Seq::<u8>::empty() != dot_seg() && Seq::<u8>::empty() != dotdot_seg());
            }
        }
        let segs2 = segsn.map_values(|s: Seq<u8>| canon_bytes(s));
        assert(segs2 =~= segsn);
        lemma_collapse_id(Seq::empty(), segsn);
        assert(collapse(segsn) =~= segsn);
        assert(segsn.len() >= 1);
        assert(n2.segments == segsn);
    } else {
        let segs2 = segs1.map_values(|s: Seq<u8>| canon_bytes(s));
        assert(segs2 =~= segs1);
        assert(n2.segments == n.segments);
    }
    match u.query {
        Some(q) => {
            lemma_canon_idem(q);
        },
        None => {},
    }
    match u.fragment {
        Some(f) => {
            lemma_canon_idem(f);
        },
        None => {},
    }
    assert(n2 =~~= n);
}

/// Normalization preserves well-formedness.
pub proof fn lemma_normalize_wf(u: UriModel, reg: Seq<SchemeInfoModel>)
    requires
        wf(u),
    ensures
        wf(normalize_model(u, reg)),
{
    let n = normalize_model(u, reg);
    crate::parser::lemma_lower_scheme(u.scheme);
    match u.host {
        Some(h) => {
            let h2 = lower_bytes(canon_bytes(h));
            lemma_canon_shape(h);
            assert(host_ok(h2)) by {
                assert forall|i: int| 0 <= i < h2.len() implies (#[trigger] h2[i]) != 47 && h2[i]
                    != 63 && h2[i] != 35 && h2[i] != 58 by {
                    let cb = canon_bytes(h)[i];
                    assert(h2[i] == crate::text::lower_byte(cb));
                    assert(is_unreserved(cb) || cb == 37);
                }
            }
        },
        None => {},
    }
    let segs1 = u.segments.map_values(|s: Seq<u8>| canon_bytes(s));
    assert(forall|k: int|
        0 <= k < segs1.len() ==> seg_ok(#[trigger] segs1[k]) && ((segs1[k].len() == 0) <==> (
        u.segments[k].len() == 0))) by {
        assert forall|k: int|
            0 <= k < segs1.len() implies seg_ok(#[trigger] segs1[k]) && ((segs1[k].len() == 0)
            <==> (u.segments[k].len() == 0)) by {
            assert(segs1[k] == canon_bytes(u.segments[k]));
            lemma_canon_shape(u.segments[k]);
            assert forall|i: int| 0 <= i < segs1[k].len() implies (#[trigger] segs1[k][i]) != 47
                && segs1[k][i] != 63 && segs1[k][i] != 35 by {
                assert(is_unreserved(segs1[k][i]) || segs1[k][i] == 37);
            }
        }
    }
    if u.host is Some && u.rooted {
        lemma_collapse_segs(Seq::empty(), segs1, |s: Seq<u8>| seg_ok(s));
        let c = collapse(segs1);
        assert(forall|k: int| 0 <= k < n.segments.len() ==> seg_ok(#[trigger] n.segments[k])) by {
            if c.len() == 0 {
                assert(n.segments[0] == Seq::<u8>::empty());
            } else {
                assert(forall|k: int| 0 <= k < c.len() ==> seg_ok(#[trigger] c[k]));
            }
        }
        assert(n.segments.len() >= 1);
    } else {
        assert(n.segments == segs1);
    }
    match u.query {
        Some(q) => {
            lemma_canon_shape(q);
            assert(query_ok(canon_bytes(q))) by {
                assert forall|i: int| 0 <= i < canon_bytes(q).len() implies (
                #[trigger] canon_bytes(q)[i]) != 35 by {
                    assert(is_unreserved(canon_bytes(q)[i]) || canon_bytes(q)[i] == 37);
                }
            }
        },
        None => {},
    }
    match u.fragment {
        Some(f) => {
            lemma_canon_shape(f);
        },
        None => {},
    }
}

impl Uri {
    /// The canonical form of this URI under the given registry. Normalizing
    /// the result again returns it unchanged.
    pub fn normalize(&self, reg: &SchemeRegistry) -> (r: Uri)
        ensures
            r@ == normalize_model(self@, reg@),
            wf(self@) ==> wf(r@),
            canonical(r@, reg@),
    {
        proof {
            if wf(self@) {
                lemma_normalize_wf(self@, reg@);
            }
            lemma_normalize_idempotent(self@, reg@);
        }
        let scheme = lower_vec(&self.scheme);
        let host: Option<Vec<u8>> = match &self.host {
            Some(h) => {
                let c = canon_vec(h);
                Some(lower_vec(&c))
            },
            None => None,
        };
        let port: Option<u16> = match self.port {
            None => None,
            Some(p) => {
                match reg.find(&scheme) {
                    Some(e) => {
                        let is_default = match e.default_port {
                            Some(d) => d == p,
                            None => false,
                        };
                        if e.special && is_default {
                            None
                        } else {
                            Some(p)
                        }
                    },
                    None => Some(p),
                }
            },
        };
        let mut segs0: Vec<Vec<u8>> = Vec::new();
        let ghost target = self@.segments.map_values(|s: Seq<u8>| canon_bytes(s));
        let mut i: usize = 0;
        while i < self.segments.len()
            invariant
                i <= self.segments@.len(),
                target == self@.segments.map_values(|s: Seq<u8>| canon_bytes(s)),
                target.len() == self.segments@.len(),
                segs0.deep_view().len() == i,
                forall|k: int| 0 <= k < i ==> #[trigger] segs0.deep_view()[k] == target[k],
            decreases self.segments@.len() - i,
        {
            let ghost pre = segs0.deep_view();
            segs0.push(canon_vec(&self.segments[i]));
            proof {
                assert(self@.segments[i as int] == self.segments@[i as int]@);
                assert(segs0.deep_view() =~~= pre.push(canon_bytes(self@.segments[i as int])));
            }
            i += 1;
        }
        proof {
            assert(segs0.deep_view() =~~= target);
        }
        let segments: Vec<Vec<u8>> = if self.host.is_some() && self.rooted {
            let mut c = collapse_vec(&segs0);
            if c.len() == 0 {
                c.push(Vec::new());
                proof {
                    assert(c.deep_view() =~~= seq![Seq::<u8>::empty()]);
                }
            }
            c
        } else {
            segs0
        };
        let query: Option<Vec<u8>> = match &self.query {
            Some(q) => Some(canon_vec(q)),
            None => None,
        };
        let fragment: Option<Vec<u8>> = match &self.fragment {
            Some(f) => Some(canon_vec(f)),
            None => None,
        };
        let r = Uri { scheme, host, port, rooted: self.rooted, segments, query, fragment };
        proof {
            broadcast use crate::uri::lemma_vec_u8_deep_view;

            assert(r@ =~~= normalize_model(self@, reg@));
        }
        r
    }
}

} // verus!
