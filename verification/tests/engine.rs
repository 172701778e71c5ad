//! End-to-end tests of the URL engine: parsing, canonicalization, relative
//! resolution, port defaulting and the encoding target.

use uriengine::parser::{parse, ParseError};
use uriengine::registry::{SchemeInfo, SchemeRegistry};
use uriengine::resolve::ResolveError;
use uriengine::target::TargetError;
use uriengine::{consume, consume_str, consume_target, make, make_form_target, port_or_default};

fn canon(text: &str) -> String {
    let reg = SchemeRegistry::new();
    parse(text).unwrap().normalize(&reg).to_string()
}

#[test]
fn canonical_equality_insensitive_to_case_and_encoding() {
    assert_eq!(
        canon("http://EXAMPLE.com:80/%7Euser"),
        "http://example.com/~user"
    );
}

#[test]
fn normalize_is_idempotent_on_samples() {
    let reg = SchemeRegistry::new();
    for text in [
        "http://EXAMPLE.com:80/%7Euser",
        "https://example.com/a/./b/../c?x%3d1#f",
        "ftp://Host.Example:21/Dir/..",
        "mailto:User@example.com",
        "http://h/100%",
        "file:///etc/hosts",
    ] {
        let once = parse(text).unwrap().normalize(&reg);
        let twice = once.normalize(&reg);
        assert_eq!(once, twice);
        assert_eq!(once.to_string(), twice.to_string());
    }
}

#[test]
fn join_differs_from_concatenation() {
    let reg = SchemeRegistry::new();
    let base = parse("https://example.com/a/b/").unwrap().normalize(&reg);
    let joined = base.resolve("../c", &reg).unwrap().to_string();
    assert_eq!(joined, "https://example.com/a/c");
    let naive = format!("{}{}", "https://example.com/a/b/", "../c");
    assert_eq!(naive, "https://example.com/a/b/../c");
    assert_ne!(joined, naive);
}

#[test]
fn round_trip_of_canonical_strings() {
    let reg = SchemeRegistry::new();
    for text in [
        "http://EXAMPLE.com:80/%7Euser",
        "https://example.com/a/b/",
        "http://h/a%2Fb?k%3Dv#frag",
        "file:///x/y",
        "mailto:user",
        "http://h:8080/",
        "a:b/c",
    ] {
        let s = parse(text).unwrap().normalize(&reg).to_string();
        let again = parse(&s).unwrap().normalize(&reg).to_string();
        assert_eq!(again, s);
    }
}

#[test]
fn port_defaulting_follows_the_registry() {
    // Explicit port wins regardless of scheme.
    assert_eq!(port_or_default("http://example.com:8080/"), Ok(Some(8080)));
    assert_eq!(port_or_default("gopher://example.com:70/"), Ok(Some(70)));
    // Special schemes fall back to their registry default.
    assert_eq!(port_or_default("http://example.com/"), Ok(Some(80)));
    assert_eq!(port_or_default("https://example.com/"), Ok(Some(443)));
    assert_eq!(port_or_default("ws://example.com/"), Ok(Some(80)));
    assert_eq!(port_or_default("wss://example.com/"), Ok(Some(443)));
    assert_eq!(port_or_default("ftp://example.com/"), Ok(Some(21)));
    // file is special but has no default port.
    assert_eq!(port_or_default("file:///etc/hosts"), Ok(None));
    // A non-special scheme yields absent, not its historical port.
    assert_eq!(port_or_default("gopher://example.com/"), Ok(None));
}

#[test]
fn port_defaulting_diverges_between_registry_snapshots() {
    let reg_v1 = {
        let mut r = SchemeRegistry::new();
        r.add(SchemeInfo::new(b"gopher".to_vec(), Some(70), true));
        r
    };
    let reg_v2 = SchemeRegistry::new();
    let u = parse("gopher://example.com/").unwrap();
    // Both answers are correct relative to their own registry.
    assert_eq!(u.port_or_default(&reg_v1), Some(70));
    assert_eq!(u.port_or_default(&reg_v2), None);
}

#[test]
fn empty_registry_knows_no_defaults() {
    let reg = SchemeRegistry::empty();
    let u = parse("http://example.com/").unwrap();
    assert_eq!(u.port_or_default(&reg), None);
    // The explicit port still wins with no registry at all.
    let v = parse("http://example.com:81/").unwrap();
    assert_eq!(v.port_or_default(&reg), Some(81));
}

#[test]
fn parse_keeps_explicit_default_port_until_normalized() {
    let reg = SchemeRegistry::new();
    let u = parse("http://example.com:80/").unwrap();
    assert_eq!(u.port, Some(80));
    let n = u.normalize(&reg);
    assert_eq!(n.port, None);
    assert_eq!(n.to_string(), "http://example.com/");
    // A non-default port survives normalization.
    let k = parse("http://example.com:8080/").unwrap().normalize(&reg);
    assert_eq!(k.port, Some(8080));
    assert_eq!(k.to_string(), "http://example.com:8080/");
}

#[test]
fn parse_errors_name_what_went_wrong() {
    assert_eq!(parse(""), Err(ParseError::Empty));
    assert_eq!(parse("1http://x"), Err(ParseError::InvalidScheme));
    assert_eq!(parse("://x"), Err(ParseError::InvalidScheme));
    assert_eq!(parse("http://h:99999/"), Err(ParseError::InvalidPort));
    assert_eq!(parse("http://h:12x/"), Err(ParseError::InvalidPort));
    assert_eq!(parse("no-scheme/path"), Err(ParseError::RelativeNotAllowed));
}

#[test]
fn parse_structure() {
    let u = parse("http://h:81/a/b?q#f").unwrap();
    assert_eq!(u.scheme, b"http".to_vec());
    assert_eq!(u.host, Some(b"h".to_vec()));
    assert_eq!(u.port, Some(81));
    assert!(u.rooted);
    assert_eq!(u.segments, vec![b"a".to_vec(), b"b".to_vec()]);
    assert_eq!(u.query, Some(b"q".to_vec()));
    assert_eq!(u.fragment, Some(b"f".to_vec()));
    // Empty host is distinct from absent.
    assert_eq!(parse("file:///x").unwrap().host, Some(Vec::new()));
    assert_eq!(parse("mailto:user").unwrap().host, None);
    // A trailing colon means no port.
    assert_eq!(parse("http://h:/x").unwrap().port, None);
    // Empty query and fragment are absent, not empty strings.
    let e = parse("http://h/p?#").unwrap();
    assert_eq!(e.query, None);
    assert_eq!(e.fragment, None);
    let reg = SchemeRegistry::new();
    assert_eq!(e.normalize(&reg).to_string(), "http://h/p");
    // Scheme case folds at parse time.
    assert_eq!(parse("HTTP://h/").unwrap().scheme, b"http".to_vec());
}

#[test]
fn dot_segments_collapse_only_with_authority() {
    assert_eq!(canon("http://h/a/./b/../c"), "http://h/a/c");
    // A leading `..` never escapes above the root.
    assert_eq!(canon("http://h/../a"), "http://h/a");
    assert_eq!(canon("http://h/.."), "http://h/");
    // Trailing slash survives collapsing.
    assert_eq!(canon("https://example.com/a/b/"), "https://example.com/a/b/");
    // Path-only URIs keep their dot segments.
    assert_eq!(canon("a:./x"), "a:./x");
}

#[test]
fn percent_encoding_normalizes() {
    // Unreserved bytes are decoded.
    assert_eq!(canon("http://h/%41%7e"), "http://h/A~");
    // Reserved bytes stay encoded, with upper-case hex digits.
    assert_eq!(canon("http://h/a%2fb"), "http://h/a%2Fb");
    // A stray percent is itself encoded.
    assert_eq!(canon("http://h/100%"), "http://h/100%25");
    // Hosts fold case after decoding.
    assert_eq!(canon("http://%48ost/"), "http://host/");
    // Queries and fragments are canonicalized too.
    assert_eq!(canon("http://h/p?a%3d1#x%20y"), "http://h/p?a%3D1#x%20y");
}

#[test]
fn resolve_follows_the_reference_kinds() {
    let reg = SchemeRegistry::new();
    let base = parse("https://example.com/a/b/").unwrap().normalize(&reg);
    // An absolute reference stands on its own.
    assert_eq!(
        base.resolve("http://other/x", &reg).unwrap().to_string(),
        "http://other/x"
    );
    // A rooted path replaces the base path.
    assert_eq!(
        base.resolve("/r/s", &reg).unwrap().to_string(),
        "https://example.com/r/s"
    );
    // A relative path merges with the base directory.
    assert_eq!(
        base.resolve("c/d", &reg).unwrap().to_string(),
        "https://example.com/a/b/c/d"
    );
    // An empty reference keeps path, query and fragment of the base.
    let based = parse("https://example.com/p?q#f").unwrap().normalize(&reg);
    assert_eq!(
        based.resolve("", &reg).unwrap().to_string(),
        "https://example.com/p?q#f"
    );
    // A query-only reference keeps the base path.
    assert_eq!(
        base.resolve("?x", &reg).unwrap().to_string(),
        "https://example.com/a/b/?x"
    );
}

#[test]
fn resolve_errors() {
    let reg = SchemeRegistry::new();
    let base = parse("https://example.com/a/").unwrap().normalize(&reg);
    assert_eq!(
        base.resolve("//other/x", &reg),
        Err(ResolveError::InvalidReference)
    );
    assert_eq!(
        base.resolve("http://h:99999/", &reg),
        Err(ResolveError::InvalidReference)
    );
    let no_auth = parse("mailto:user").unwrap().normalize(&reg);
    assert_eq!(
        no_auth.resolve("x", &reg),
        Err(ResolveError::NoBaseAuthority)
    );
}

#[test]
fn target_accumulates_and_finishes_once() {
    let mut t = make_form_target();
    t.push_str("a=1").unwrap();
    t.push_str("&b=2").unwrap();
    let content = t.finish().unwrap();
    assert_eq!(content, "a=1&b=2");
    // The second finish fails.
    assert_eq!(t.finish(), Err(TargetError::AlreadyFinished));
    // Writing after finish fails too.
    assert_eq!(t.push_str("late"), Err(TargetError::AlreadyFinished));
}

#[test]
fn demonstration_helpers() {
    let u = make();
    assert_eq!(u.to_string(), "https://example.com/");
    let s = u.to_string();
    consume_str(&s);
    consume(u);
    consume_target(make_form_target());
}
