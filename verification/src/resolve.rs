//! The resolver: combining a base URI with a relative reference. This is not
//! string concatenation; merged paths have their dot segments collapsed by
//! normalization, so `../c` against `/a/b/` yields `/a/c`.

use vstd::prelude::*;
use vstd::string::*;
use crate::normal::{normalize_model, lemma_normalize_wf};
use crate::parser::{
    lemma_parse_tail_wf, parse_bytes, parse_model, parse_tail_model, parse_tail_vec, ParseError,
};
use crate::registry::{SchemeInfoModel, SchemeRegistry};
use crate::uri::{copy_vec, wf, Uri, UriModel};

verus! {

#[derive(Clone, Copy, Debug, PartialEq, Eq, Structural)]
pub enum ResolveError {
    /// The reference is an authority-relative form (`//...`) this engine
    /// does not take, or an absolute form with an invalid port.
    InvalidReference,
    /// The base URI has no authority to resolve against.
    NoBaseAuthority,
}

/// Merge a relative path/query/fragment triple into the base, before
/// normalization: an empty path inherits the base path (and, when the
/// reference has none of its own, the base query and fragment); a rooted
/// path replaces the base path; any other path is appended to the base
/// path's directory prefix.
pub open spec fn merge_model(
    base: UriModel,
    rooted: bool,
    segs: Seq<Seq<u8>>,
    q: Option<Seq<u8>>,
    f: Option<Seq<u8>>,
) -> UriModel {
    let path_empty = !rooted && segs.len() == 0;
    UriModel {
        scheme: base.scheme,
        host: base.host,
        port: base.port,
        rooted: if path_empty {
            base.rooted
        } else {
            true
        },
        segments: if path_empty {
            base.segments
        } else if rooted {
            segs
        } else {
            (if base.segments.len() > 0 {
                base.segments.drop_last()
            } else {
                Seq::empty()
            }) + segs
        },
        query: if q is Some {
            q
        } else if path_empty {
            base.query
        } else {
            None
        },
        fragment: if f is Some {
            f
        } else if path_empty {
            base.fragment
        } else {
            None
        },
    }
}

/// Resolution: a reference that parses as an absolute URI stands on its own
/// and the base is ignored; otherwise the reference is read as a relative
/// triple and merged into the base. Either way the result is normalized.
pub open spec fn resolve_model(base: UriModel, r: Seq<u8>, reg: Seq<SchemeInfoModel>) -> Result<
    UriModel,
    ResolveError,
> {
    match parse_model(r) {
        Ok(m) => Ok(normalize_model(m, reg)),
        Err(e) => if e == ParseError::InvalidPort {
            Err(ResolveError::InvalidReference)
        } else if base.host is None {
            Err(ResolveError::NoBaseAuthority)
        } else if r.len() >= 2 && r[0] == 47 && r[1] == 47 {
            Err(ResolveError::InvalidReference)
        } else {
            let (rooted, segs, q, f) = parse_tail_model(r);
            Ok(normalize_model(merge_model(base, rooted, segs, q, f), reg))
        },
    }
}

pub open spec fn resolve_result_model(r: Result<Uri, ResolveError>) -> Result<
    UriModel,
    ResolveError,
> {
    match r {
        Ok(u) => Ok(u@),
        Err(e) => Err(e),
    }
}

/// Merging into a well-formed base with an authority keeps the URI
/// well-formed.
proof fn lemma_merge_wf(base: UriModel, r: Seq<u8>)
    requires
        wf(base),
        base.host is Some,
    ensures
        ({
            let (rooted, segs, q, f) = parse_tail_model(r);
            wf(merge_model(base, rooted, segs, q, f))
        }),
{
    lemma_parse_tail_wf(r);
    let (rooted, segs, q, f) = parse_tail_model(r);
    let m = merge_model(base, rooted, segs, q, f);
    let path_empty = !rooted && segs.len() == 0;
    if !path_empty && !rooted {
        let prefix = if base.segments.len() > 0 {
            base.segments.drop_last()
        } else {
            Seq::<Seq<u8>>::empty()
        };
        assert(forall|k: int| 0 <= k < m.segments.len() ==> crate::uri::seg_ok(
            #[trigger] m.segments[k],
        )) by {
            assert forall|k: int| 0 <= k < m.segments.len() implies crate::uri::seg_ok(
                #[trigger] m.segments[k],
            ) by {
                if k < prefix.len() {
                    assert(m.segments[k] == base.segments[k]);
                } else {
                    assert(m.segments[k] == segs[k - prefix.len()]);
                }
            }
        }
        assert(m.segments.len() >= 1);
    }
}

/// Copy of a segment list.
pub fn copy_segs(v: &Vec<Vec<u8>>) -> (r: Vec<Vec<u8>>)
    ensures
        r.deep_view() == v.deep_view(),
{
    let mut out: Vec<Vec<u8>> = Vec::new();
    let mut i: usize = 0;
    while i < v.len()
        invariant
            i <= v@.len(),
            out.deep_view().len() == i,
            v.deep_view().len() == v@.len(),
            forall|k: int| 0 <= k < i ==> #[trigger] out.deep_view()[k] == v.deep_view()[k],
        decreases v@.len() - i,
    {
        let ghost pre = out.deep_view();
        out.push(copy_vec(&v[i]));
        proof {
            assert(out.deep_view() =~~= pre.push(v@[i as int]@));
            assert(v.deep_view()[i as int] =~~= v@[i as int]@);
        }
        i += 1;
    }
    proof {
        assert(out.deep_view() =~~= v.deep_view());
    }
    out
}

fn copy_opt(o: &Option<Vec<u8>>) -> (r: Option<Vec<u8>>)
    ensures
        r.deep_view() == o.deep_view(),
{
    match o {
        Some(x) => Some(copy_vec(x)),
        None => None,
    }
}

impl Uri {
    /// Resolve `reference` against this base URI under the given registry.
    /// The result is normalized; errors tell an unusable reference apart
    /// from a base without authority.
    pub fn resolve(&self, reference: &str, reg: &SchemeRegistry) -> (r: Result<Uri, ResolveError>)
        requires
            wf(self@),
        ensures
            resolve_result_model(r) == resolve_model(self@, reference.spec_bytes(), reg@),
            r matches Ok(u) ==> wf(u@),
    {
        let v = reference.as_bytes_vec();
        match parse_bytes(&v) {
            Ok(m) => {
                proof {
                    lemma_normalize_wf(m@, reg@);
                }
                Ok(m.normalize(reg))
            },
            Err(e) => {
                if matches!(e, ParseError::InvalidPort) {
                    return Err(ResolveError::InvalidReference);
                }
                if self.host.is_none() {
                    return Err(ResolveError::NoBaseAuthority);
                }
                if v.len() >= 2 && v[0] == 47 && v[1] == 47 {
                    return Err(ResolveError::InvalidReference);
                }
                let (rooted, segs, q, f) = parse_tail_vec(&v);
                let path_empty = !rooted && segs.len() == 0;
                let merged_rooted = if path_empty {
                    self.rooted
                } else {
                    true
                };
                let merged_segments: Vec<Vec<u8>> = if path_empty {
                    copy_segs(&self.segments)
                } else if rooted {
                    segs
                } else {
                    let mut prefix: Vec<Vec<u8>> = copy_segs(&self.segments);
                    if prefix.len() > 0 {
                        let ghost pre = prefix.deep_view();
                        let _ = prefix.pop();
                        proof {
                            assert(prefix.deep_view() =~~= pre.drop_last());
                        }
                    }
                    let ghost pd = prefix.deep_view();
                    let mut segs2 = segs;
                    let ghost sd = segs2.deep_view();
                    prefix.append(&mut segs2);
                    proof {
                        assert(prefix.deep_view() =~~= pd + sd);
                    }
                    prefix
                };
                let merged_query: Option<Vec<u8>> = if q.is_some() {
                    q
                } else if path_empty {
                    copy_opt(&self.query)
                } else {
                    None
                };
                let merged_fragment: Option<Vec<u8>> = if f.is_some() {
                    f
                } else if path_empty {
                    copy_opt(&self.fragment)
                } else {
                    None
                };
                let merged = Uri {
                    scheme: copy_vec(&self.scheme),
                    host: copy_opt(&self.host),
                    port: self.port,
                    rooted: merged_rooted,
                    segments: merged_segments,
                    query: merged_query,
                    fragment: merged_fragment,
                };
                proof {
                    broadcast use crate::uri::lemma_vec_u8_deep_view;

                    let (rooted_m, segs_m, q_m, f_m) = parse_tail_model(v@);
                    assert(merged@ =~~= merge_model(self@, rooted_m, segs_m, q_m, f_m));
                    lemma_merge_wf(self@, v@);
                }
                Ok(merged.normalize(reg))
            },
        }
    }
}

} // verus!
