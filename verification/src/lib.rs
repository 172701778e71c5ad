//! A small URL-handling engine: parsing a text URI into structured
//! components, producing a canonical textual form, resolving a relative
//! reference against a base URI, and determining a scheme's default port.
//!
//! The engine is a pure text-transformation library: no network, file or
//! process I/O happens here. All text is handled as sequences of bytes;
//! characters outside ASCII appear as their UTF-8 bytes.

pub mod normal;
pub mod parser;
pub mod registry;
pub mod render;
pub mod resolve;
pub mod roundtrip;
pub mod target;
pub mod text;
pub mod uri;

use vstd::prelude::*;
use vstd::string::*;
use crate::parser::{parse_model, ParseError};
use crate::registry::{default_registry_model, port_or_default_model, SchemeRegistry};
use crate::target::EncodingTarget;
use crate::uri::{wf, Uri, UriModel};

verus! {

/// The example URI `https://example.com/`.
pub open spec fn make_model() -> UriModel {
    UriModel {
        scheme: crate::registry::scheme_https(),
        host: Some(
            seq![101u8, 120u8, 97u8, 109u8, 112u8, 108u8, 101u8, 46u8, 99u8, 111u8, 109u8],
        ),
        port: None,
        rooted: true,
        segments: seq![Seq::<u8>::empty()],
        query: None,
        fragment: None,
    }
}

/// Build the example URI `https://example.com/`.
pub fn make() -> (u: Uri)
    ensures
        u@ == make_model(),
        wf(u@),
{
    let mut scheme: Vec<u8> = Vec::new();
    scheme.push(104);
    scheme.push(116);
    scheme.push(116);
    scheme.push(112);
    scheme.push(115);
    let mut host: Vec<u8> = Vec::new();
    host.push(101);
    host.push(120);
    host.push(97);
    host.push(109);
    host.push(112);
    host.push(108);
    host.push(101);
    host.push(46);
    host.push(99);
    host.push(111);
    host.push(109);
    let mut segments: Vec<Vec<u8>> = Vec::new();
    segments.push(Vec::new());
    let u = Uri {
        scheme,
        host: Some(host),
        port: None,
        rooted: true,
        segments,
        query: None,
        fragment: None,
    };
    proof {
        broadcast use crate::uri::lemma_vec_u8_deep_view;

        assert(u@ =~~= make_model());
        assert(crate::text::lower_bytes(u@.scheme) =~= u@.scheme);
    }
    u
}

/// Demonstration helper: take ownership of a URI value and drop it.
pub fn consume(_u: Uri) {
}

/// Demonstration helper: a borrowed string crosses any library boundary as a
/// plain value, so nothing version-specific can leak through it.
pub fn consume_str(_s: &str) {
}

/// Parse `s` and report its explicit or default port, consulting the
/// registry this build of the engine ships with.
pub fn port_or_default(s: &str) -> (r: Result<Option<u16>, ParseError>)
    ensures
        (match parse_model(s.spec_bytes()) {
            Ok(u) => r == Ok::<Option<u16>, ParseError>(
                port_or_default_model(u, default_registry_model()),
            ),
            Err(e) => r == Err::<Option<u16>, ParseError>(e),
        }),
{
    let reg = SchemeRegistry::new();
    match crate::parser::parse(s) {
        Ok(u) => Ok(u.port_or_default(&reg)),
        Err(e) => Err(e),
    }
}

/// A fresh target for query-string encoders to write into.
pub fn make_form_target() -> (r: EncodingTarget)
    ensures
        r@ == (Seq::<char>::empty(), false),
{
    EncodingTarget::new()
}

/// Demonstration helper: write a greeting through the target's handle and
/// finish it once, discarding the content.
pub fn consume_target(t: EncodingTarget) {
    let mut t = t;
    let _ = t.push_str("hello");
    let _ = t.finish();
}

} // verus!
