//! The parser: from raw text to a structured URI. Parsing never fills in a
//! default port and never resolves relative references; a text without a
//! scheme is rejected.

use vstd::prelude::*;
use vstd::string::*;
use crate::text::{
    all_digits, dec_val, find_colon, find_hash, find_in, find_path_query_or_hash,
    find_query_or_hash, find_slash, is_alpha, is_alpha_x, is_digit, is_digit_x, is_scheme_byte,
    is_scheme_byte_x, lemma_dec_val_prefix, lemma_find_in, lemma_lower_idem,
    lemma_split_slash_bytes, lower_bytes, lower_vec, split_slash, subrange_vec, valid_scheme,
};
use crate::uri::{copy_vec, host_ok, query_ok, seg_ok, wf, Uri, UriModel};

verus! {

#[derive(Clone, Copy, Debug, PartialEq, Eq, Structural)]
pub enum ParseError {
    /// The input was empty.
    Empty,
    /// The text before the first `:` does not match the scheme grammar.
    InvalidScheme,
    /// The authority has a port part that is not all digits or is above 65535.
    InvalidPort,
    /// The text has no `:` at all, so it is a relative reference, which
    /// plain parsing rejects; resolving against a base is a separate step.
    RelativeNotAllowed,
}

// ---------------------------------------------------------------------------
// Functional model of parsing
// ---------------------------------------------------------------------------

/// Path text to (rooted, segments): the empty text is the zero-segment path,
/// a leading `/` makes the path rooted.
pub open spec fn parse_path_model(p: Seq<u8>) -> (bool, Seq<Seq<u8>>) {
    if p.len() == 0 {
        (false, Seq::empty())
    } else if p[0] == 47 {
        (true, split_slash(p.skip(1)))
    } else {
        (false, split_slash(p))
    }
}

/// Splits everything after the authority into path, query (up to the first
/// `#`) and fragment (the rest). An empty query or fragment is represented
/// as absent, not as an empty string.
pub open spec fn parse_tail_model(t: Seq<u8>) -> (bool, Seq<Seq<u8>>, Option<Seq<u8>>, Option<
    Seq<u8>,
>) {
    let pe = find_in(t, 0, set![63u8, 35u8]);
    let hi = find_in(t, pe, set![35u8]);
    let ptext = t.subrange(0, pe);
    let query = if pe < t.len() && t[pe] == 63 && pe + 1 < hi {
        Some(t.subrange(pe + 1, hi))
    } else {
        None
    };
    let fragment = if hi + 1 < t.len() {
        Some(t.subrange(hi + 1, t.len() as int))
    } else {
        None
    };
    let (rooted, segs) = parse_path_model(ptext);
    (rooted, segs, query, fragment)
}

/// An explicitly written port must be all digits and at most 65535; an empty
/// port part (a trailing `:`) counts as no port.
pub open spec fn parse_port_model(t: Seq<u8>) -> Result<Option<u16>, ParseError> {
    if t.len() == 0 {
        Ok(None)
    } else if !all_digits(t) {
        Err(ParseError::InvalidPort)
    } else if dec_val(t) > 65535 {
        Err(ParseError::InvalidPort)
    } else {
        Ok(Some(dec_val(t) as u16))
    }
}

/// The parse function as a mathematical map from byte sequences to URIs or
/// errors. The scheme is the text before the first `:`, stored folded to
/// lower case; `//` introduces an authority of host and optional port; the
/// rest splits into path, query and fragment.
pub open spec fn parse_model(s: Seq<u8>) -> Result<UriModel, ParseError> {
    if s.len() == 0 {
        Err(ParseError::Empty)
    } else {
        let c = find_in(s, 0, set![58u8]);
        if c >= s.len() {
            Err(ParseError::RelativeNotAllowed)
        } else if !valid_scheme(s.subrange(0, c)) {
            Err(ParseError::InvalidScheme)
        } else {
            let scheme = lower_bytes(s.subrange(0, c));
            let rest = s.subrange(c + 1, s.len() as int);
            if rest.len() >= 2 && rest[0] == 47 && rest[1] == 47 {
                let a = rest.subrange(2, rest.len() as int);
                let ae = find_in(a, 0, set![47u8, 63u8, 35u8]);
                let auth = a.subrange(0, ae);
                let tail = a.subrange(ae, a.len() as int);
                let ci = find_in(auth, 0, set![58u8]);
                let host = auth.subrange(0, ci);
                let ptext = if ci >= auth.len() {
                    Seq::<u8>::empty()
                } else {
                    auth.subrange(ci + 1, auth.len() as int)
                };
                match parse_port_model(ptext) {
                    Err(e) => Err(e),
                    Ok(port) => {
                        let (rooted, segs, query, fragment) = parse_tail_model(tail);
                        Ok(
                            UriModel {
                                scheme,
                                host: Some(host),
                                port,
                                rooted,
                                segments: segs,
                                query,
                                fragment,
                            },
                        )
                    },
                }
            } else {
                let (rooted, segs, query, fragment) = parse_tail_model(rest);
                Ok(
                    UriModel {
                        scheme,
                        host: None,
                        port: None,
                        rooted,
                        segments: segs,
                        query,
                        fragment,
                    },
                )
            }
        }
    }
}

pub open spec fn parse_result_model(r: Result<Uri, ParseError>) -> Result<UriModel, ParseError> {
    match r {
        Ok(u) => Ok(u@),
        Err(e) => Err(e),
    }
}

// ---------------------------------------------------------------------------
// Well-formedness of what parsing builds
// ---------------------------------------------------------------------------

proof fn lemma_split_slash_head(s: Seq<u8>)
    ensures
        split_slash(s).len() >= 1,
        s.len() > 0 && s[0] != 47 ==> split_slash(s)[0].len() > 0,
{
    lemma_find_in(s, 0, set![47u8]);
    let f = find_in(s, 0, set![47u8]);
    if f >= s.len() {
        assert(split_slash(s) == seq![s]);
    } else {
        assert(split_slash(s) == seq![s.subrange(0, f)] + split_slash(s.skip(f + 1)));
        if s.len() > 0 && s[0] != 47 && f == 0 {
            assert(set![47u8].contains(s[0]));
            assert(false);
        }
    }
}

/// What the tail split guarantees: delimiter-free segments, a rooted path
/// exactly when the path text starts with `/`, and a query without `#`.
pub proof fn lemma_parse_tail_wf(t: Seq<u8>)
    ensures
        ({
            let (rooted, segs, query, fragment) = parse_tail_model(t);
            &&& forall|k: int| 0 <= k < segs.len() ==> seg_ok(#[trigger] segs[k])
            &&& (rooted ==> segs.len() >= 1)
            &&& (rooted ==> t.len() > 0 && t[0] == 47)
            &&& (t.len() > 0 && t[0] == 47 ==> rooted)
            &&& (t.len() == 0 || t[0] == 63 || t[0] == 35 ==> !rooted && segs.len() == 0)
            &&& (!rooted && segs.len() > 0 ==> segs[0].len() > 0)
            &&& (rooted && segs.len() >= 2 && (t.len() < 2 || t[1] != 47) ==> segs[0].len() > 0)
            &&& match query {
                Some(q) => query_ok(q) && q.len() > 0,
                None => true,
            }
            &&& match fragment {
                Some(f) => f.len() > 0,
                None => true,
            }
        }),
{
    let pe = find_in(t, 0, set![63u8, 35u8]);
    let hi = find_in(t, pe, set![35u8]);
    lemma_find_in(t, 0, set![63u8, 35u8]);
    lemma_find_in(t, pe, set![35u8]);
    let ptext = t.subrange(0, pe);
    let (rooted, segs) = parse_path_model(ptext);
    assert(forall|i: int| 0 <= i < ptext.len() ==> (#[trigger] ptext[i]) != 63 && ptext[i] != 35);
    if t.len() > 0 && t[0] == 47 {
        assert(pe != 0) by {
            if pe == 0 {
                assert(set![63u8, 35u8].contains(t[0]));
            }
        }
        assert(ptext[0] == 47);
    }
    if ptext.len() == 0 {
    } else if ptext[0] == 47 {
        let body = ptext.skip(1);
        assert(forall|i: int| 0 <= i < body.len() ==> (#[trigger] body[i]) != 63 && body[i] != 35);
        lemma_split_slash_bytes(body, |b: u8| b != 63 && b != 35);
        lemma_split_slash_head(body);
        assert(forall|k: int| 0 <= k < segs.len() ==> seg_ok(#[trigger] segs[k])) by {
            assert(forall|k: int, i: int|
                0 <= k < segs.len() && 0 <= i < segs[k].len() ==> (#[trigger] segs[k][i]) != 47
                    && segs[k][i] != 63 && segs[k][i] != 35);
        }
        if segs.len() >= 2 && (t.len() < 2 || t[1] != 47) {
            // With a single piece the whole body has no slash; two pieces
            // force one, so the body is non-empty and starts at t[1].
            if body.len() == 0 {
                assert(body =~= Seq::<u8>::empty());
                lemma_find_in(body, 0, set![47u8]);
                assert(split_slash(body) == seq![body]);
                assert(false);
            }
            assert(body[0] == t[1]);
            assert(pe >= 2);
        }
    } else {
        lemma_split_slash_bytes(ptext, |b: u8| b != 63 && b != 35);
        lemma_split_slash_head(ptext);
        assert(forall|k: int| 0 <= k < segs.len() ==> seg_ok(#[trigger] segs[k])) by {
            assert(forall|k: int, i: int|
                0 <= k < segs.len() && 0 <= i < segs[k].len() ==> (#[trigger] segs[k][i]) != 47
                    && segs[k][i] != 63 && segs[k][i] != 35);
        }
    }
    if pe < t.len() && t[pe] == 63 && pe + 1 < hi {
        let q = t.subrange(pe + 1, hi);
        assert(query_ok(q)) by {
            assert(forall|i: int| 0 <= i < q.len() ==> q[i] == t[pe + 1 + i]);
        }
    }
}

pub proof fn lemma_lower_scheme(s: Seq<u8>)
    requires
        valid_scheme(s),
    ensures
        valid_scheme(lower_bytes(s)),
        lower_bytes(lower_bytes(s)) == lower_bytes(s),
{
    lemma_lower_idem(s);
    assert(lower_bytes(s).len() == s.len());
    assert(is_alpha(lower_bytes(s)[0]));
    assert(forall|i: int| 0 <= i < s.len() ==> is_scheme_byte(#[trigger] lower_bytes(s)[i]));
}

/// Everything `parse_model` accepts is a well-formed URI.
pub proof fn lemma_parse_wf(s: Seq<u8>)
    ensures
        parse_model(s) matches Ok(u) ==> wf(u),
{
    if s.len() > 0 {
        let c = find_in(s, 0, set![58u8]);
        lemma_find_in(s, 0, set![58u8]);
        if c < s.len() && valid_scheme(s.subrange(0, c)) {
            lemma_lower_scheme(s.subrange(0, c));
            let rest = s.subrange(c + 1, s.len() as int);
            if rest.len() >= 2 && rest[0] == 47 && rest[1] == 47 {
                let a = rest.subrange(2, rest.len() as int);
                let ae = find_in(a, 0, set![47u8, 63u8, 35u8]);
                lemma_find_in(a, 0, set![47u8, 63u8, 35u8]);
                let auth = a.subrange(0, ae);
                let tail = a.subrange(ae, a.len() as int);
                let ci = find_in(auth, 0, set![58u8]);
                lemma_find_in(auth, 0, set![58u8]);
                let host = auth.subrange(0, ci);
                assert(host_ok(host)) by {
                    assert(forall|i: int| 0 <= i < host.len() ==> host[i] == auth[i] && auth[i]
                        == a[i]);
                }
                lemma_parse_tail_wf(tail);
                assert(tail.len() > 0 ==> (tail[0] == 47 || tail[0] == 63 || tail[0] == 35)) by {
                    if tail.len() > 0 {
                        assert(tail[0] == a[ae]);
                        assert(set![47u8, 63u8, 35u8].contains(a[ae]));
                    }
                }
            } else {
                lemma_parse_tail_wf(rest);
                let (rooted, segs, query, fragment) = parse_tail_model(rest);
                if rooted && segs.len() >= 2 {
                    assert(rest.len() > 0 && rest[0] == 47);
                    assert(rest.len() < 2 || rest[1] != 47);
                }
            }
        }
    }
}

// ---------------------------------------------------------------------------
// Executable parsing
// ---------------------------------------------------------------------------

/// Executable path splitting.
pub fn split_slash_vec(v: &Vec<u8>) -> (r: Vec<Vec<u8>>)
    ensures
        r.deep_view() == split_slash(v@),
    decreases v@.len(),
{
    let f = find_slash(v, 0);
    proof {
        lemma_find_in(v@, 0, set![47u8]);
    }
    if f == v.len() {
        let mut r: Vec<Vec<u8>> = Vec::new();
        r.push(copy_vec(v));
        proof {
            assert(r.deep_view() =~~= seq![v@]);
        }
        r
    } else {
        let head = subrange_vec(v, 0, f);
        let tail = subrange_vec(v, f + 1, v.len());
        proof {
            assert(tail@ =~= v@.skip(f as int + 1));
        }
        let mut rest = split_slash_vec(&tail);
        let ghost restd = rest.deep_view();
        let mut r: Vec<Vec<u8>> = Vec::new();
        r.push(head);
        r.append(&mut rest);
        proof {
            assert(r.deep_view() =~~= seq![v@.subrange(0, f as int)] + restd);
        }
        r
    }
}

/// Executable port parsing.
pub fn parse_port_vec(v: &Vec<u8>) -> (r: Result<Option<u16>, ParseError>)
    ensures
        r == parse_port_model(v@),
{
    if v.len() == 0 {
        return Ok(None);
    }
    let mut acc: u32 = 0;
    let mut i: usize = 0;
    while i < v.len()
        invariant
            i <= v@.len(),
            acc <= 65535,
            forall|j: int| 0 <= j < i ==> is_digit(#[trigger] v@[j]),
            acc as int == dec_val(v@.subrange(0, i as int)),
        decreases v@.len() - i,
    {
        let b = v[i];
        if !is_digit_x(b) {
            proof {
                assert(!all_digits(v@));
            }
            return Err(ParseError::InvalidPort);
        }
        proof {
            assert(v@.subrange(0, i + 1).drop_last() =~= v@.subrange(0, i as int));
            assert(v@.subrange(0, i + 1).last() == v@[i as int]);
        }
        acc = acc * 10 + ((b - 48) as u32);
        i += 1;
        if acc > 65535 {
            proof {
                if all_digits(v@) {
                    lemma_dec_val_prefix(v@, i as int);
                }
            }
            return Err(ParseError::InvalidPort);
        }
    }
    proof {
        assert(v@.subrange(0, i as int) =~= v@);
        assert(all_digits(v@));
    }
    Ok(Some(acc as u16))
}

/// Executable tail split: (rooted, segments, query, fragment).
pub fn parse_tail_vec(t: &Vec<u8>) -> (r: (bool, Vec<Vec<u8>>, Option<Vec<u8>>, Option<Vec<u8>>))
    ensures
        ({
            let (rooted, segs, query, fragment) = parse_tail_model(t@);
            &&& r.0 == rooted
            &&& r.1.deep_view() == segs
            &&& r.2.deep_view() == query
            &&& r.3.deep_view() == fragment
        }),
{
    let pe = find_query_or_hash(t, 0);
    let hi = find_hash(t, pe);
    proof {
        lemma_find_in(t@, 0, set![63u8, 35u8]);
        lemma_find_in(t@, pe as int, set![35u8]);
    }
    let ptext = subrange_vec(t, 0, pe);
    let query: Option<Vec<u8>> = if pe < t.len() && t[pe] == 63 {
        proof {
            if hi == pe {
                assert(set![35u8].contains(t@[pe as int]));
                assert(false);
            }
        }
        if pe + 1 < hi {
            Some(subrange_vec(t, pe + 1, hi))
        } else {
            None
        }
    } else {
        None
    };
    let fragment: Option<Vec<u8>> = if hi < t.len() && hi + 1 < t.len() {
        Some(subrange_vec(t, hi + 1, t.len()))
    } else {
        None
    };
    if ptext.len() == 0 {
        let segs: Vec<Vec<u8>> = Vec::new();
        proof {
            assert(segs.deep_view() =~= Seq::<Seq<u8>>::empty());
        }
        (false, segs, query, fragment)
    } else if ptext[0] == 47 {
        let body = subrange_vec(&ptext, 1, ptext.len());
        proof {
            assert(body@ =~= ptext@.skip(1));
        }
        let segs = split_slash_vec(&body);
        (true, segs, query, fragment)
    } else {
        let segs = split_slash_vec(&ptext);
        (false, segs, query, fragment)
    }
}

/// Parse a URI from bytes. On success the result is the well-formed URI the
/// model function describes; each error names what was wrong.
pub fn parse_bytes(v: &Vec<u8>) -> (r: Result<Uri, ParseError>)
    ensures
        parse_result_model(r) == parse_model(v@),
        r matches Ok(u) ==> wf(u@),
{
    proof {
        lemma_parse_wf(v@);
    }
    if v.len() == 0 {
        return Err(ParseError::Empty);
    }
    let c = find_colon(v, 0);
    proof {
        lemma_find_in(v@, 0, set![58u8]);
    }
    if c == v.len() {
        return Err(ParseError::RelativeNotAllowed);
    }
    // Check the scheme grammar on the raw prefix.
    if c == 0 {
        proof {
            assert(!valid_scheme(v@.subrange(0, 0)));
        }
        return Err(ParseError::InvalidScheme);
    }
    let mut ok: bool = is_alpha_x(v[0]);
    proof {
        let s1 = v@.subrange(0, 1);
        assert(s1.len() == 1 && s1[0] == v@[0]);
        assert(valid_scheme(s1) == is_alpha(v@[0]));
    }
    let mut j: usize = 1;
    while j < c
        invariant
            1 <= j <= c <= v@.len(),
            ok == valid_scheme(v@.subrange(0, j as int)),
        decreases c - j,
    {
        proof {
            let sj = v@.subrange(0, j as int);
            let sj1 = v@.subrange(0, j as int + 1);
            assert(forall|i: int| 0 <= i < j ==> sj1[i] == #[trigger] sj[i]);
            assert(sj1[j as int] == v@[j as int]);
            assert(valid_scheme(sj1) == (valid_scheme(sj) && is_scheme_byte(v@[j as int]))) by {
                if valid_scheme(sj) && is_scheme_byte(v@[j as int]) {
                    assert forall|i: int| 0 <= i < sj1.len() implies is_scheme_byte(
                        #[trigger] sj1[i],
                    ) by {
                        if i < j {
                            assert(sj1[i] == sj[i]);
                        }
                    }
                }
                if valid_scheme(sj1) {
                    assert forall|i: int| 0 <= i < sj.len() implies is_scheme_byte(
                        #[trigger] sj[i],
                    ) by {
                        assert(sj[i] == sj1[i]);
                    }
                }
            }
        }
        ok = ok && is_scheme_byte_x(v[j]);
        j += 1;
    }
    proof {
        assert(v@.subrange(0, c as int) == v@.subrange(0, j as int));
    }
    if !ok {
        return Err(ParseError::InvalidScheme);
    }
    let raw = subrange_vec(v, 0, c);
    let scheme = lower_vec(&raw);
    let rest = subrange_vec(v, c + 1, v.len());
    if rest.len() >= 2 && rest[0] == 47 && rest[1] == 47 {
        let a = subrange_vec(&rest, 2, rest.len());
        proof {
            assert(a@ =~= rest@.subrange(2, rest@.len() as int));
        }
        let ae = find_path_query_or_hash(&a, 0);
        let auth = subrange_vec(&a, 0, ae);
        let tail = subrange_vec(&a, ae, a.len());
        let ci = find_colon(&auth, 0);
        proof {
            lemma_find_in(auth@, 0, set![58u8]);
        }
        let host = subrange_vec(&auth, 0, ci);
        let ptext = if ci >= auth.len() {
            Vec::new()
        } else {
            subrange_vec(&auth, ci + 1, auth.len())
        };
        proof {
            assert(ptext@ == (if ci as int >= auth@.len() {
                Seq::<u8>::empty()
            } else {
                auth@.subrange(ci as int + 1, auth@.len() as int)
            }));
        }
        let port = match parse_port_vec(&ptext) {
            Err(e) => {
                return Err(e);
            },
            Ok(p) => p,
        };
        let (rooted, segments, query, fragment) = parse_tail_vec(&tail);
        let u = Uri { scheme, host: Some(host), port, rooted, segments, query, fragment };
        proof {
            assert(parse_model(v@) is Ok);
            assert(u@ =~~= parse_model(v@)->Ok_0);
        }
        Ok(u)
    } else {
        let (rooted, segments, query, fragment) = parse_tail_vec(&rest);
        let u = Uri { scheme, host: None, port: None, rooted, segments, query, fragment };
        proof {
            assert(parse_model(v@) is Ok);
            assert(u@ =~~= parse_model(v@)->Ok_0);
        }
        Ok(u)
    }
}

/// Parse a URI from text. The text is handled as its UTF-8 bytes.
pub fn parse(s: &str) -> (r: Result<Uri, ParseError>)
    ensures
        parse_result_model(r) == parse_model(s.spec_bytes()),
        r matches Ok(u) ==> wf(u@),
{
    let v = s.as_bytes_vec();
    parse_bytes(&v)
}

} // verus!
