//! The canonical textual form of a URI.

use vstd::prelude::*;
use crate::text::{dec_rep, join_slash};
use crate::uri::{Uri, UriModel};

verus! {

pub open spec fn opt_part(prefix: u8, o: Option<Seq<u8>>) -> Seq<u8> {
    match o {
        Some(x) => seq![prefix] + x,
        None => Seq::empty(),
    }
}

pub open spec fn render_authority(u: UriModel) -> Seq<u8> {
    match u.host {
        Some(h) => seq![47u8, 47u8] + h + (match u.port {
            Some(p) => seq![58u8] + dec_rep(p as int),
            None => Seq::empty(),
        }),
        None => Seq::empty(),
    }
}

pub open spec fn render_path(u: UriModel) -> Seq<u8> {
    if u.rooted {
        seq![47u8] + join_slash(u.segments)
    } else {
        join_slash(u.segments)
    }
}

/// The textual form: scheme, `:`, the authority after `//` when a host is
/// present, the path, then query and fragment behind their markers.
pub open spec fn render_model(u: UriModel) -> Seq<u8> {
    u.scheme + seq![58u8] + render_authority(u) + render_path(u) + opt_part(63u8, u.query)
        + opt_part(35u8, u.fragment)
}

pub open spec fn ascii_seq(s: Seq<u8>) -> bool {
    forall|i: int| 0 <= i < s.len() ==> (#[trigger] s[i]) < 128
}

pub open spec fn chars_of(s: Seq<u8>) -> Seq<char> {
    s.map_values(|b: u8| b as char)
}

/// Joining one more segment appends a separator and the segment.
pub proof fn lemma_join_push(s: Seq<Seq<u8>>, x: Seq<u8>)
    ensures
        join_slash(s.push(x)) == if s.len() == 0 {
            x
        } else {
            join_slash(s) + seq![47u8] + x
        },
    decreases s.len(),
{
    if s.len() == 0 {
        assert(s.push(x).len() == 1);
        assert(join_slash(s.push(x)) == s.push(x)[0]);
    } else if s.len() == 1 {
        assert(s.push(x).skip(1) =~= seq![x]);
        assert(join_slash(s.push(x)) == s[0] + seq![47u8] + join_slash(seq![x]));
        assert(join_slash(seq![x]) == x);
    } else {
        assert(s.push(x).skip(1) =~= s.skip(1).push(x));
        lemma_join_push(s.skip(1), x);
        assert(join_slash(s.push(x)) == s[0] + seq![47u8] + (join_slash(s.skip(1)) + seq![47u8]
            + x));
        assert(join_slash(s) == s[0] + seq![47u8] + join_slash(s.skip(1)));
        assert(s[0] + seq![47u8] + (join_slash(s.skip(1)) + seq![47u8] + x) =~= (s[0] + seq![47u8]
            + join_slash(s.skip(1))) + seq![47u8] + x);
    }
}

/// Append a copy of `v` to `out`.
pub fn push_all(out: &mut Vec<u8>, v: &Vec<u8>)
    ensures
        final(out)@ == old(out)@ + v@,
{
    let mut i: usize = 0;
    while i < v.len()
        invariant
            i <= v@.len(),
            out@ == old(out)@ + v@.subrange(0, i as int),
        decreases v@.len() - i,
    {
        out.push(v[i]);
        proof {
            assert(old(out)@ + v@.subrange(0, i as int + 1) =~= (old(out)@ + v@.subrange(
                0,
                i as int,
            )).push(v@[i as int]));
        }
        i += 1;
    }
    proof {
        assert(v@.subrange(0, i as int) =~= v@);
    }
}

/// Append the decimal digits of `n`.
pub fn push_dec(out: &mut Vec<u8>, n: u16)
    ensures
        final(out)@ == old(out)@ + dec_rep(n as int),
    decreases n,
{
    if n < 10 {
        out.push(48 + (n as u8));
        proof {
            assert(out@ =~= old(out)@ + dec_rep(n as int));
        }
    } else {
        push_dec(out, n / 10);
        out.push(48 + ((n % 10) as u8));
        proof {
            assert(out@ =~= old(out)@ + dec_rep(n as int));
        }
    }
}

/// Relies on String::from_utf8_lossy from std: a sequence of ASCII bytes
/// decodes to exactly the characters with the same code points.
#[verifier::external_body]
fn bytes_to_string(v: &Vec<u8>) -> (r: String)
    ensures
        ascii_seq(v@) ==> r@ == chars_of(v@),
{
    String::from_utf8_lossy(v).into_owned()
}

impl Uri {
    /// Canonical byte form of this URI.
    pub fn to_bytes(&self) -> (r: Vec<u8>)
        ensures
            r@ == render_model(self@),
    {
        let mut out: Vec<u8> = Vec::new();
        push_all(&mut out, &self.scheme);
        out.push(58);
        proof {
            assert(out@ =~= self@.scheme + seq![58u8]);
        }
        match &self.host {
            Some(h) => {
                out.push(47);
                out.push(47);
                push_all(&mut out, h);
                match self.port {
                    Some(p) => {
                        out.push(58);
                        push_dec(&mut out, p);
                    },
                    None => {},
                }
                proof {
                    assert(out@ =~= self@.scheme + seq![58u8] + render_authority(self@));
                }
            },
            None => {
                proof {
                    assert(out@ =~= self@.scheme + seq![58u8] + render_authority(self@));
                }
            },
        }
        let ghost mid = self@.scheme + seq![58u8] + render_authority(self@);
        if self.rooted {
            out.push(47);
        }
        let ghost segsd = self.segments.deep_view();
        let ghost base = out@;
        let mut i: usize = 0;
        while i < self.segments.len()
            invariant
                i <= self.segments@.len(),
                segsd == self.segments.deep_view(),
                segsd.len() == self.segments@.len(),
                out@ == base + (if i == 0 {
                    Seq::<u8>::empty()
                } else {
                    join_slash(segsd.take(i as int))
                }),
            decreases self.segments@.len() - i,
        {
            let ghost pre = out@;
            if i > 0 {
                out.push(47);
            }
            push_all(&mut out, &self.segments[i]);
            proof {
                assert(segsd[i as int] == self.segments@[i as int]@);
                assert(segsd.take(i as int + 1) =~= segsd.take(i as int).push(segsd[i as int]));
                lemma_join_push(segsd.take(i as int), segsd[i as int]);
                if i == 0 {
                    assert(out@ =~= base + join_slash(segsd.take(1)));
                } else {
                    assert(out@ =~= base + join_slash(segsd.take(i as int + 1)));
                }
            }
            i += 1;
        }
        proof {
            assert(segsd.take(i as int) =~= segsd);
            if self.segments.len() == 0 {
                assert(join_slash(segsd) == Seq::<u8>::empty());
                assert(out@ =~= base);
            }
            assert(out@ =~= mid + render_path(self@));
        }
        match &self.query {
            Some(q) => {
                out.push(63);
                push_all(&mut out, q);
            },
            None => {},
        }
        proof {
            assert(out@ =~= mid + render_path(self@) + opt_part(63u8, self@.query));
        }
        match &self.fragment {
            Some(f) => {
                out.push(35);
                push_all(&mut out, f);
            },
            None => {},
        }
        proof {
            assert(out@ =~= render_model(self@));
        }
        out
    }

    /// Canonical text of this URI. Every URI the engine itself builds
    /// renders as ASCII, and then the characters match the bytes.
    pub fn to_string(&self) -> (r: String)
        ensures
            ascii_seq(render_model(self@)) ==> r@ == chars_of(render_model(self@)),
    {
        let v = self.to_bytes();
        bytes_to_string(&v)
    }
}

} // verus!
