//! The round-trip law: the canonical text the engine produces parses back to
//! exactly the URI it came from, so printing and re-parsing is stable.

use vstd::prelude::*;
use crate::normal::{
    lemma_normalize_idempotent, lemma_normalize_wf, normalize_model, normalize_segments,
};
use crate::parser::{parse_model, parse_path_model, parse_tail_model, ParseError};
use crate::registry::SchemeInfoModel;
use crate::render::{ascii_seq, opt_part, render_authority, render_model, render_path};
use crate::text::{
    canon_bytes, dec_rep, dec_val, find_in, is_digit, is_scheme_byte, is_unreserved, join_slash,
    lemma_canon_shape, lemma_dec_rep, lemma_find_in_is, lemma_split_join, lower_byte, lower_bytes,
    valid_scheme,
};
use crate::uri::{host_ok, query_ok, seg_ok, wf, UriModel};

verus! {

/// Every byte of a joined path satisfies any property that holds of the
/// separator and of every segment byte.
proof fn lemma_join_bytes(segs: Seq<Seq<u8>>, p: spec_fn(u8) -> bool)
    requires
        p(47),
        forall|k: int, i: int|
            0 <= k < segs.len() && 0 <= i < segs[k].len() ==> p(#[trigger] segs[k][i]),
    ensures
        forall|i: int| 0 <= i < join_slash(segs).len() ==> p(#[trigger] join_slash(segs)[i]),
    decreases segs.len(),
{
    if segs.len() <= 1 {
    } else {
        assert(forall|k: int, i: int|
            0 <= k < segs.skip(1).len() && 0 <= i < segs.skip(1)[k].len() ==> p(
                #[trigger] segs.skip(1)[k][i],
            )) by {
            assert(forall|k: int| 0 <= k < segs.len() - 1 ==> segs.skip(1)[k] == segs[k + 1]);
        }
        lemma_join_bytes(segs.skip(1), p);
        let j = join_slash(segs);
        assert(j == segs[0] + seq![47u8] + join_slash(segs.skip(1)));
        assert forall|i: int| 0 <= i < j.len() implies p(#[trigger] j[i]) by {
            if i < segs[0].len() {
                assert(j[i] == segs[0][i]);
            } else if i == segs[0].len() {
                assert(j[i] == 47);
            } else {
                assert(j[i] == join_slash(segs.skip(1))[i - segs[0].len() - 1]);
            }
        }
    }
}

proof fn lemma_join_head(segs: Seq<Seq<u8>>)
    requires
        segs.len() >= 1,
        segs[0].len() > 0,
    ensures
        join_slash(segs).len() > 0,
        join_slash(segs)[0] == segs[0][0],
{
    if segs.len() == 1 {
    } else {
        assert(join_slash(segs) == segs[0] + seq![47u8] + join_slash(segs.skip(1)));
    }
}

/// Splitting the rendered tail of a well-formed URI recovers its path,
/// query and fragment exactly.
proof fn lemma_tail_render(u: UriModel)
    requires
        wf(u),
    ensures
        parse_tail_model(
            render_path(u) + opt_part(63u8, u.query) + opt_part(35u8, u.fragment),
        ) == (u.rooted, u.segments, u.query, u.fragment),
{
    let p = render_path(u);
    let qp = opt_part(63u8, u.query);
    let fp = opt_part(35u8, u.fragment);
    let t = p + qp + fp;
    let nomark = |b: u8| b != 63 && b != 35;
    assert(forall|k: int, i: int|
        0 <= k < u.segments.len() && 0 <= i < u.segments[k].len() ==> nomark(
            #[trigger] u.segments[k][i],
        )) by {
        assert(forall|k: int| 0 <= k < u.segments.len() ==> seg_ok(#[trigger] u.segments[k]));
    }
    lemma_join_bytes(u.segments, nomark);
    assert(forall|i: int| 0 <= i < p.len() ==> nomark(#[trigger] p[i])) by {
        let j = join_slash(u.segments);
        if u.rooted {
            assert(forall|i: int| 1 <= i < p.len() ==> p[i] == j[i - 1]);
            assert(p[0] == 47);
        }
    }
    // The first marker stands right after the path text.
    assert(forall|i: int| 0 <= i < p.len() ==> !set![63u8, 35u8].contains(#[trigger] t[i])) by {
        assert(forall|i: int| 0 <= i < p.len() ==> t[i] == p[i]);
    }
    if qp.len() > 0 || fp.len() > 0 {
        assert(t[p.len() as int] == 63 || t[p.len() as int] == 35);
    }
    lemma_find_in_is(t, 0, set![63u8, 35u8], p.len() as int);
    let pe = find_in(t, 0, set![63u8, 35u8]);
    assert(pe == p.len());
    assert(t.subrange(0, pe) =~= p);
    // The fragment marker: skip the query if there is one.
    let hi = find_in(t, pe, set![35u8]);
    match u.query {
        Some(q) => {
            assert(t[pe] == 63);
            let qe = pe + 1 + q.len();
            assert(forall|j: int| pe <= j < qe ==> !set![35u8].contains(#[trigger] t[j])) by {
                assert(query_ok(q));
                assert(forall|j: int| pe + 1 <= j < qe ==> t[j] == q[j - pe - 1]);
            }
            match u.fragment {
                Some(f) => {
                    assert(t[qe] == 35);
                    lemma_find_in_is(t, pe, set![35u8], qe);
                    assert(t.subrange(hi + 1, t.len() as int) =~= f);
                },
                None => {
                    assert(qe == t.len());
                    lemma_find_in_is(t, pe, set![35u8], t.len() as int);
                },
            }
            assert(t.subrange(pe + 1, hi) =~= q);
        },
        None => {
            match u.fragment {
                Some(f) => {
                    assert(t[pe] == 35);
                    lemma_find_in_is(t, pe, set![35u8], pe);
                    assert(t.subrange(hi + 1, t.len() as int) =~= f);
                },
                None => {
                    assert(pe == t.len());
                    lemma_find_in_is(t, pe, set![35u8], t.len() as int);
                },
            }
        },
    }
    // The path text itself.
    let (rooted, segs) = parse_path_model(p);
    if u.segments.len() == 0 {
        assert(!u.rooted);
        assert(p =~= Seq::<u8>::empty());
        assert(!rooted && segs =~= Seq::<Seq<u8>>::empty());
    } else if u.rooted {
        assert(p[0] == 47);
        assert(p.skip(1) =~= join_slash(u.segments));
        assert(forall|k: int, i: int|
            0 <= k < u.segments.len() && 0 <= i < u.segments[k].len()
                ==> #[trigger] u.segments[k][i] != 47) by {
            assert(forall|k: int| 0 <= k < u.segments.len() ==> seg_ok(#[trigger] u.segments[k]));
        }
        lemma_split_join(u.segments);
        assert(rooted && segs == u.segments);
    } else {
        assert(u.segments[0].len() > 0);
        lemma_join_head(u.segments);
        assert(p[0] == u.segments[0][0]);
        assert(p[0] != 47) by {
            assert(seg_ok(u.segments[0]));
        }
        assert(forall|k: int, i: int|
            0 <= k < u.segments.len() && 0 <= i < u.segments[k].len()
                ==> #[trigger] u.segments[k][i] != 47) by {
            assert(forall|k: int| 0 <= k < u.segments.len() ==> seg_ok(#[trigger] u.segments[k]));
        }
        lemma_split_join(u.segments);
        assert(!rooted && segs == u.segments);
    }
}

/// Parsing inverts rendering on every well-formed URI.
#[verifier::rlimit(100)]
pub proof fn lemma_parse_render(u: UriModel)
    requires
        wf(u),
    ensures
        parse_model(render_model(u)) == Ok::<UriModel, ParseError>(u),
{
    let s = render_model(u);
    let a = render_authority(u);
    let p = render_path(u);
    let qp = opt_part(63u8, u.query);
    let fp = opt_part(35u8, u.fragment);
    let tail_all = p + qp + fp;
    assert(s =~= u.scheme + seq![58u8] + (a + tail_all));
    let sl = u.scheme.len() as int;
    assert(s.len() > 0);
    assert(forall|j: int| 0 <= j < sl ==> !set![58u8].contains(#[trigger] s[j])) by {
        assert(forall|j: int| 0 <= j < sl ==> s[j] == u.scheme[j]);
        assert(forall|j: int| 0 <= j < sl ==> is_scheme_byte(#[trigger] u.scheme[j]));
    }
    assert(s[sl] == 58);
    lemma_find_in_is(s, 0, set![58u8], sl);
    assert(s.subrange(0, sl) =~= u.scheme);
    assert(valid_scheme(u.scheme));
    let rest = s.subrange(sl + 1, s.len() as int);
    assert(rest =~= a + tail_all);
    lemma_tail_render(u);
    match u.host {
        Some(h) => {
            let pp: Seq<u8> = match u.port {
                Some(prt) => seq![58u8] + dec_rep(prt as int),
                None => Seq::empty(),
            };
            assert(a == seq![47u8, 47u8] + h + pp);
            assert(rest.len() >= 2 && rest[0] == 47 && rest[1] == 47);
            let aa = rest.subrange(2, rest.len() as int);
            assert(aa =~= h + pp + tail_all);
            let k = h.len() as int + pp.len() as int;
            assert(forall|j: int| 0 <= j < k ==> !set![47u8, 63u8, 35u8].contains(
                #[trigger] aa[j],
            )) by {
                assert(host_ok(h));
                assert(forall|j: int| 0 <= j < h.len() ==> aa[j] == h[j]);
                match u.port {
                    Some(prt) => {
                        lemma_dec_rep(prt as int);
                        assert(aa[h.len() as int] == 58);
                        assert(forall|j: int|
                            h.len() + 1 <= j < k ==> aa[j] == dec_rep(prt as int)[j - h.len()
                                - 1]);
                        assert(forall|j: int|
                            h.len() + 1 <= j < k ==> is_digit(#[trigger] aa[j]));
                    },
                    None => {},
                }
            }
            if tail_all.len() > 0 {
                assert(aa[k] == tail_all[0]);
                assert(tail_all[0] == 47 || tail_all[0] == 63 || tail_all[0] == 35) by {
                    if p.len() > 0 {
                        assert(tail_all[0] == p[0]);
                        if u.rooted {
                            assert(p[0] == 47);
                        } else {
                            assert(u.segments.len() > 0);
                            assert(false);
                        }
                    } else {
                        assert(u.segments.len() == 0 && !u.rooted);
                        if qp.len() > 0 {
                            assert(tail_all[0] == 63);
                        } else {
                            assert(tail_all[0] == 35);
                        }
                    }
                }
            }
            lemma_find_in_is(aa, 0, set![47u8, 63u8, 35u8], k);
            let auth = aa.subrange(0, k);
            assert(auth =~= h + pp);
            let tail = aa.subrange(k, aa.len() as int);
            assert(tail =~= tail_all);
            assert(forall|j: int| 0 <= j < h.len() ==> !set![58u8].contains(#[trigger] auth[j]))
                by {
                assert(host_ok(h));
                assert(forall|j: int| 0 <= j < h.len() ==> auth[j] == h[j]);
            }
            match u.port {
                Some(prt) => {
                    assert(auth[h.len() as int] == 58);
                    lemma_find_in_is(auth, 0, set![58u8], h.len() as int);
                    assert(auth.subrange(0, h.len() as int) =~= h);
                    let ptext = auth.subrange(h.len() as int + 1, auth.len() as int);
                    assert(ptext =~= dec_rep(prt as int));
                    lemma_dec_rep(prt as int);
                    assert(dec_val(dec_rep(prt as int)) == prt as int);
                },
                None => {
                    assert(auth =~= h);
                    lemma_find_in_is(auth, 0, set![58u8], auth.len() as int);
                },
            }
            assert(parse_model(s) is Ok);
            assert(parse_model(s)->Ok_0 =~~= u);
        },
        None => {
            assert(rest =~= tail_all);
            // The rendered text of a host-less URI never starts with `//`.
            if rest.len() >= 2 && rest[0] == 47 && rest[1] == 47 {
                assert(p.len() > 0 && p[0] == 47) by {
                    if p.len() == 0 {
                        if qp.len() > 0 {
                            assert(rest[0] == 63);
                        } else {
                            assert(rest[0] == 35);
                        }
                        assert(false);
                    }
                    if p[0] != 47 {
                        assert(false);
                    }
                }
                assert(u.rooted);
                let j = join_slash(u.segments);
                if j.len() == 0 {
                    assert(rest[1] == (qp + fp)[0]);
                    assert(rest[1] == 63 || rest[1] == 35);
                    assert(false);
                } else {
                    assert(rest[1] == j[0]);
                    if u.segments.len() >= 2 {
                        assert(u.segments[0].len() > 0);
                        lemma_join_head(u.segments);
                        assert(seg_ok(u.segments[0]));
                        assert(false);
                    } else {
                        assert(u.segments.len() == 1);
                        assert(j == u.segments[0]);
                        if u.segments[0].len() > 0 {
                            lemma_join_head(u.segments);
                            assert(seg_ok(u.segments[0]));
                            assert(false);
                        } else {
                            assert(false);
                        }
                    }
                }
            }
            assert(parse_model(s) is Ok);
            assert(parse_model(s)->Ok_0 =~~= u);
        },
    }
}

/// Everything canonicalization emits is an ASCII byte.
proof fn lemma_canon_ascii(s: Seq<u8>)
    ensures
        ascii_seq(canon_bytes(s)),
        ascii_seq(lower_bytes(canon_bytes(s))),
{
    lemma_canon_shape(s);
    assert forall|i: int| 0 <= i < canon_bytes(s).len() implies (#[trigger] canon_bytes(s)[i])
        < 128 by {
        assert(is_unreserved(canon_bytes(s)[i]) || canon_bytes(s)[i] == 37);
    }
    assert forall|i: int|
        0 <= i < lower_bytes(canon_bytes(s)).len() implies (#[trigger] lower_bytes(
        canon_bytes(s),
    )[i]) < 128 by {
        assert(lower_bytes(canon_bytes(s))[i] == lower_byte(canon_bytes(s)[i]));
        assert(is_unreserved(canon_bytes(s)[i]) || canon_bytes(s)[i] == 37);
    }
}

/// The canonical form of a well-formed URI renders as pure ASCII, so its
/// text holds exactly one character per byte.
#[verifier::rlimit(100)]
proof fn lemma_render_ascii(u: UriModel, reg: Seq<SchemeInfoModel>)
    requires
        wf(u),
    ensures
        ascii_seq(render_model(normalize_model(u, reg))),
{
    let c = normalize_model(u, reg);
    lemma_normalize_wf(u, reg);
    let ascii = |b: u8| b < 128;
    // Scheme bytes satisfy the scheme grammar, which is ASCII.
    assert(forall|i: int| 0 <= i < c.scheme.len() ==> is_scheme_byte(#[trigger] c.scheme[i]));
    // Host, query and fragment are canonicalized, hence ASCII.
    match u.host {
        Some(h) => {
            lemma_canon_ascii(h);
        },
        None => {},
    }
    match u.query {
        Some(q) => {
            lemma_canon_ascii(q);
        },
        None => {},
    }
    match u.fragment {
        Some(f) => {
            lemma_canon_ascii(f);
        },
        None => {},
    }
    // Segments come out of canonicalization (possibly collapsed, possibly
    // the root fix-up), so they are ASCII as well.
    let segs1 = u.segments.map_values(|s: Seq<u8>| canon_bytes(s));
    assert(forall|k: int| 0 <= k < segs1.len() ==> ascii_seq(#[trigger] segs1[k])) by {
        assert forall|k: int| 0 <= k < segs1.len() implies ascii_seq(#[trigger] segs1[k]) by {
            assert(segs1[k] == canon_bytes(u.segments[k]));
            lemma_canon_ascii(u.segments[k]);
        }
    }
    assert(forall|k: int| 0 <= k < c.segments.len() ==> ascii_seq(#[trigger] c.segments[k])) by {
        if u.host is Some && u.rooted {
            crate::uri::lemma_collapse_segs(
                Seq::empty(),
                segs1,
                |s: Seq<u8>| ascii_seq(s),
            );
            assert(c.segments == normalize_segments(u));
            if crate::uri::collapse(segs1).len() == 0 {
                assert(c.segments[0] == Seq::<u8>::empty());
            }
        } else {
            assert(c.segments == segs1);
        }
    }
    assert(forall|k: int, i: int|
        0 <= k < c.segments.len() && 0 <= i < c.segments[k].len() ==> ascii(
            #[trigger] c.segments[k][i],
        )) by {
        assert(forall|k: int| 0 <= k < c.segments.len() ==> ascii_seq(#[trigger] c.segments[k]));
    }
    lemma_join_bytes(c.segments, ascii);
    match c.port {
        Some(p) => {
            lemma_dec_rep(p as int);
        },
        None => {},
    }
    let s = render_model(c);
    let a = render_authority(c);
    let p = render_path(c);
    let qp = opt_part(63u8, c.query);
    let fp = opt_part(35u8, c.fragment);
    assert forall|i: int| 0 <= i < s.len() implies (#[trigger] s[i]) < 128 by {
        let i1 = i - c.scheme.len() - 1;
        let i2 = i1 - a.len();
        let i3 = i2 - p.len();
        let i4 = i3 - qp.len();
        if i < c.scheme.len() {
            assert(s[i] == c.scheme[i]);
        } else if i1 < 0 {
        } else if i1 < a.len() {
            assert(s[i] == a[i1]);
            match c.host {
                Some(h) => {
                    let j = i1 - 2;
                    if j >= 0 && j < h.len() {
                        assert(a[i1] == h[j]);
                    } else if j >= h.len() {
                        match c.port {
                            Some(prt) => {
                                let d = j - h.len() - 1;
                                if d >= 0 {
                                    assert(a[i1] == dec_rep(prt as int)[d]);
                                    assert(is_digit(dec_rep(prt as int)[d]));
                                }
                            },
                            None => {},
                        }
                    }
                },
                None => {},
            }
        } else if i2 < p.len() {
            assert(s[i] == p[i2]);
            if c.rooted {
                if i2 > 0 {
                    assert(p[i2] == join_slash(c.segments)[i2 - 1]);
                }
            } else {
                assert(p[i2] == join_slash(c.segments)[i2]);
            }
        } else if i3 < qp.len() {
            assert(s[i] == qp[i3]);
            match c.query {
                Some(q) => {
                    if i3 > 0 {
                        assert(qp[i3] == q[i3 - 1]);
                    }
                },
                None => {},
            }
        } else {
            assert(s[i] == fp[i4]);
            match c.fragment {
                Some(f) => {
                    if i4 > 0 {
                        assert(fp[i4] == f[i4 - 1]);
                    }
                },
                None => {},
            }
        }
    }
}

/// The round-trip law: for any canonical form `c` the engine produces,
/// parsing `c`'s text gives back `c`, `c` normalizes to itself, and `c`
/// renders as ASCII — so the canonical text of `normalize(parse(text(c)))`
/// is the text of `c` again, character for character.
pub proof fn lemma_round_trip(u: UriModel, reg: Seq<SchemeInfoModel>)
    requires
        wf(u),
    ensures
        ({
            let c = normalize_model(u, reg);
            &&& wf(c)
            &&& normalize_model(c, reg) == c
            &&& parse_model(render_model(c)) == Ok::<UriModel, ParseError>(c)
            &&& ascii_seq(render_model(c))
        }),
{
    lemma_normalize_wf(u, reg);
    lemma_normalize_idempotent(u, reg);
    lemma_parse_render(normalize_model(u, reg));
    lemma_render_ascii(u, reg);
}

} // verus!
