//! Byte-level building blocks of the engine: byte classes of the URI
//! grammar, ASCII case folding, canonical percent-encoding, and the small
//! searching and splitting functions the parser is built from.

use vstd::prelude::*;

verus! {

// ---------------------------------------------------------------------------
// Byte classes
// ---------------------------------------------------------------------------

pub open spec fn is_alpha(b: u8) -> bool {
    (65 <= b && b <= 90) || (97 <= b && b <= 122)
}

pub open spec fn is_upper(b: u8) -> bool {
    65 <= b && b <= 90
}

pub open spec fn is_digit(b: u8) -> bool {
    48 <= b && b <= 57
}

pub open spec fn is_scheme_byte(b: u8) -> bool {
    is_alpha(b) || is_digit(b) || b == 43 || b == 45 || b == 46
}

/// Scheme grammar: non-empty, starts with a letter, then ASCII letters,
/// digits, `+`, `-` or `.`.
pub open spec fn valid_scheme(s: Seq<u8>) -> bool {
    &&& s.len() > 0
    &&& is_alpha(s[0])
    &&& forall|i: int| 0 <= i < s.len() ==> is_scheme_byte(#[trigger] s[i])
}

/// Unreserved bytes appear raw in canonical text; every other byte is
/// percent-encoded.
pub open spec fn is_unreserved(b: u8) -> bool {
    is_alpha(b) || is_digit(b) || b == 45 || b == 46 || b == 95 || b == 126
}

pub open spec fn is_hex_digit(b: u8) -> bool {
    is_digit(b) || (65 <= b && b <= 70) || (97 <= b && b <= 102)
}

pub open spec fn hex_value(b: u8) -> u8 {
    if is_digit(b) {
        (b - 48) as u8
    } else if 65 <= b && b <= 70 {
        (b - 55) as u8
    } else {
        (b - 87) as u8
    }
}

/// Upper-case hex digit for a value below 16.
pub open spec fn hex_digit_upper(n: u8) -> u8 {
    if n < 10 {
        (48 + n) as u8
    } else {
        (55 + n) as u8
    }
}

// ---------------------------------------------------------------------------
// ASCII case folding
// ---------------------------------------------------------------------------

pub open spec fn lower_byte(b: u8) -> u8 {
    if is_upper(b) {
        (b + 32) as u8
    } else {
        b
    }
}

pub open spec fn lower_bytes(s: Seq<u8>) -> Seq<u8> {
    s.map_values(|b: u8| lower_byte(b))
}

pub open spec fn no_upper(s: Seq<u8>) -> bool {
    forall|i: int| 0 <= i < s.len() ==> !is_upper(#[trigger] s[i])
}

pub proof fn lemma_lower_concat(a: Seq<u8>, b: Seq<u8>)
    ensures
        lower_bytes(a + b) == lower_bytes(a) + lower_bytes(b),
{
    assert(lower_bytes(a + b) =~= lower_bytes(a) + lower_bytes(b));
}

pub proof fn lemma_lower_idem(s: Seq<u8>)
    ensures
        lower_bytes(lower_bytes(s)) == lower_bytes(s),
        no_upper(lower_bytes(s)),
{
    assert(lower_bytes(lower_bytes(s)) =~= lower_bytes(s));
}

// ---------------------------------------------------------------------------
// Canonical percent-encoding
// ---------------------------------------------------------------------------

/// Canonical form of one byte: unreserved bytes stay raw, every other byte
/// becomes a percent triplet with upper-case hex digits.
pub open spec fn canon_one(b: u8) -> Seq<u8> {
    if is_unreserved(b) {
        seq![b]
    } else {
        seq![37u8, hex_digit_upper((b / 16) as u8), hex_digit_upper((b % 16) as u8)]
    }
}

/// Canonical percent-encoding of a component: a well-formed percent triplet
/// is decoded to its byte, and every byte is then re-emitted in canonical
/// form. A stray `%` that does not start a triplet counts as an ordinary
/// (reserved) byte and so gets encoded.
pub open spec fn canon_bytes(s: Seq<u8>) -> Seq<u8>
    decreases s.len(),
{
    if s.len() == 0 {
        Seq::empty()
    } else if s[0] == 37 && s.len() >= 3 && is_hex_digit(s[1]) && is_hex_digit(s[2]) {
        canon_one((hex_value(s[1]) * 16 + hex_value(s[2])) as u8) + canon_bytes(s.skip(3))
    } else {
        canon_one(s[0]) + canon_bytes(s.skip(1))
    }
}

pub proof fn lemma_hex_digit_upper(n: u8)
    requires
        n < 16,
    ensures
        is_hex_digit(hex_digit_upper(n)),
        is_unreserved(hex_digit_upper(n)),
        !is_upper(37u8),
        hex_value(hex_digit_upper(n)) == n,
        hex_value(lower_byte(hex_digit_upper(n))) == n,
        is_hex_digit(lower_byte(hex_digit_upper(n))),
{
}

/// Every byte that canonical encoding emits is unreserved or part of a
/// percent triplet; in particular it is ASCII and no URI delimiter.
pub proof fn lemma_canon_one_shape(b: u8)
    ensures
        canon_one(b).len() == (if is_unreserved(b) { 1int } else { 3int }),
        forall|i: int| 0 <= i < canon_one(b).len() ==> (is_unreserved(#[trigger] canon_one(b)[i])
            || canon_one(b)[i] == 37),
{
    if !is_unreserved(b) {
        lemma_hex_digit_upper((b / 16) as u8);
        lemma_hex_digit_upper((b % 16) as u8);
    }
}

/// Canonical encoding maps an already-canonical atom to itself.
pub proof fn lemma_canon_atom(b: u8, t: Seq<u8>)
    ensures
        canon_bytes(canon_one(b) + t) == canon_one(b) + canon_bytes(t),
{
    let s = canon_one(b) + t;
    if is_unreserved(b) {
        assert(s[0] == b);
        assert(s.skip(1) =~= t);
        assert(canon_bytes(s) == canon_one(b) + canon_bytes(t));
    } else {
        let hi = hex_digit_upper((b / 16) as u8);
        let lo = hex_digit_upper((b % 16) as u8);
        lemma_hex_digit_upper((b / 16) as u8);
        lemma_hex_digit_upper((b % 16) as u8);
        assert(s[0] == 37 && s.len() >= 3 && s[1] == hi && s[2] == lo);
        assert(hex_value(hi) * 16 + hex_value(lo) == b) by {
            assert((b / 16) * 16 + (b % 16) == b);
        }
        assert(s.skip(3) =~= t);
        assert(canon_bytes(s) == canon_one(b) + canon_bytes(t));
    }
}

/// Canonical percent-encoding is idempotent.
pub proof fn lemma_canon_idem(s: Seq<u8>)
    ensures
        canon_bytes(canon_bytes(s)) == canon_bytes(s),
    decreases s.len(),
{
    if s.len() == 0 {
    } else if s[0] == 37 && s.len() >= 3 && is_hex_digit(s[1]) && is_hex_digit(s[2]) {
        let b = (hex_value(s[1]) * 16 + hex_value(s[2])) as u8;
        lemma_canon_idem(s.skip(3));
        lemma_canon_atom(b, canon_bytes(s.skip(3)));
    } else {
        lemma_canon_idem(s.skip(1));
        lemma_canon_atom(s[0], canon_bytes(s.skip(1)));
    }
}

/// Case folding after canonical encoding is stable: folding, re-encoding and
/// folding again changes nothing. This is the shape host normalization takes.
pub proof fn lemma_host_fold_stable(s: Seq<u8>)
    ensures
        lower_bytes(canon_bytes(lower_bytes(canon_bytes(s)))) == lower_bytes(canon_bytes(s)),
    decreases s.len(),
{
    if s.len() == 0 {
        assert(lower_bytes(canon_bytes(lower_bytes(canon_bytes(s)))) =~= lower_bytes(
            canon_bytes(s),
        ));
    } else {
        let (b, rest): (u8, Seq<u8>) = if s[0] == 37 && s.len() >= 3 && is_hex_digit(s[1])
            && is_hex_digit(s[2]) {
            ((hex_value(s[1]) * 16 + hex_value(s[2])) as u8, s.skip(3))
        } else {
            (s[0], s.skip(1))
        };
        lemma_host_fold_stable(rest);
        let r = canon_bytes(rest);
        assert(canon_bytes(s) == canon_one(b) + r);
        lemma_lower_concat(canon_one(b), r);
        // After folding, the atom still decodes to the same byte, so
        // re-encoding reproduces the original atom up to hex-digit case.
        if is_unreserved(b) {
            let lb = lower_byte(b);
            assert(lower_bytes(canon_one(b)) =~= seq![lb]);
            assert(is_unreserved(lb) && lb != 37);
            assert(seq![lb] + lower_bytes(r) == canon_one(lb) + lower_bytes(r));
            lemma_canon_atom(lb, lower_bytes(r));
            assert(canon_bytes(lower_bytes(canon_bytes(s))) == canon_one(lb) + canon_bytes(
                lower_bytes(r),
            ));
            lemma_lower_concat(canon_one(lb), canon_bytes(lower_bytes(r)));
            assert(lower_bytes(canon_one(lb)) =~= seq![lb]);
            assert(lower_bytes(canon_bytes(lower_bytes(canon_bytes(s)))) == seq![lb]
                + lower_bytes(canon_bytes(lower_bytes(r))));
            assert(lower_bytes(canon_bytes(s)) == seq![lb] + lower_bytes(r));
        } else {
            let hi = hex_digit_upper((b / 16) as u8);
            let lo = hex_digit_upper((b % 16) as u8);
            lemma_hex_digit_upper((b / 16) as u8);
            lemma_hex_digit_upper((b % 16) as u8);
            let folded = lower_bytes(canon_one(b));
            assert(folded =~= seq![37u8, lower_byte(hi), lower_byte(lo)]);
            let u = folded + lower_bytes(r);
            assert(u[0] == 37 && u.len() >= 3 && u[1] == lower_byte(hi) && u[2] == lower_byte(
                lo,
            ));
            assert(is_hex_digit(u[1]) && is_hex_digit(u[2]));
            assert(hex_value(u[1]) * 16 + hex_value(u[2]) == b) by {
                assert((b / 16) * 16 + (b % 16) == b);
            }
            assert(u.skip(3) =~= lower_bytes(r));
            assert(canon_bytes(u) == canon_one(b) + canon_bytes(lower_bytes(r)));
            lemma_lower_concat(canon_one(b), canon_bytes(lower_bytes(r)));
            assert(lower_bytes(canon_bytes(lower_bytes(canon_bytes(s)))) == folded + lower_bytes(
                canon_bytes(lower_bytes(r)),
            ));
            assert(lower_bytes(canon_bytes(s)) == folded + lower_bytes(r));
        }
    }
}

/// Shape of whole canonical components, derived from the atom shape.
pub proof fn lemma_canon_shape(s: Seq<u8>)
    ensures
        forall|i: int| 0 <= i < canon_bytes(s).len() ==> (is_unreserved(
            #[trigger] canon_bytes(s)[i],
        ) || canon_bytes(s)[i] == 37),
        canon_bytes(s).len() == 0 <==> s.len() == 0,
    decreases s.len(),
{
    if s.len() == 0 {
    } else if s[0] == 37 && s.len() >= 3 && is_hex_digit(s[1]) && is_hex_digit(s[2]) {
        let b = (hex_value(s[1]) * 16 + hex_value(s[2])) as u8;
        lemma_canon_one_shape(b);
        lemma_canon_shape(s.skip(3));
    } else {
        lemma_canon_one_shape(s[0]);
        lemma_canon_shape(s.skip(1));
    }
}

// ---------------------------------------------------------------------------
// Searching for delimiters
// ---------------------------------------------------------------------------

/// Index of the first byte of `s` at or after `i` that lies in `cs`, or
/// `s.len()` when there is none.
pub open spec fn find_in(s: Seq<u8>, i: int, cs: Set<u8>) -> int
    decreases s.len() - i,
{
    if i < 0 || i >= s.len() {
        s.len() as int
    } else if cs.contains(s[i]) {
        i
    } else {
        find_in(s, i + 1, cs)
    }
}

pub proof fn lemma_find_in(s: Seq<u8>, i: int, cs: Set<u8>)
    requires
        0 <= i <= s.len(),
    ensures
        i <= find_in(s, i, cs) <= s.len(),
        find_in(s, i, cs) < s.len() ==> cs.contains(s[find_in(s, i, cs)]),
        forall|j: int| i <= j < find_in(s, i, cs) ==> !cs.contains(#[trigger] s[j]),
    decreases s.len() - i,
{
    if i < s.len() && !cs.contains(s[i]) {
        lemma_find_in(s, i + 1, cs);
    }
}

pub proof fn lemma_find_in_is(s: Seq<u8>, i: int, cs: Set<u8>, k: int)
    requires
        0 <= i <= k <= s.len(),
        k < s.len() ==> cs.contains(s[k]),
        forall|j: int| i <= j < k ==> !cs.contains(#[trigger] s[j]),
    ensures
        find_in(s, i, cs) == k,
    decreases k - i,
{
    if i < k {
        lemma_find_in_is(s, i + 1, cs, k);
    }
}

// ---------------------------------------------------------------------------
// Splitting and joining path segments
// ---------------------------------------------------------------------------

/// The pieces of `s` between `/` bytes; splitting the empty sequence gives
/// one empty piece.
pub open spec fn split_slash(s: Seq<u8>) -> Seq<Seq<u8>>
    decreases s.len(),
    via split_slash_decreases
{
    let i = find_in(s, 0, set![47u8]);
    if i >= s.len() {
        seq![s]
    } else {
        seq![s.subrange(0, i)] + split_slash(s.skip(i + 1))
    }
}

#[via_fn]
proof fn split_slash_decreases(s: Seq<u8>) {
    lemma_find_in(s, 0, set![47u8]);
}

/// The segments joined back with `/` between them.
pub open spec fn join_slash(segs: Seq<Seq<u8>>) -> Seq<u8>
    decreases segs.len(),
{
    if segs.len() == 0 {
        Seq::empty()
    } else if segs.len() == 1 {
        segs[0]
    } else {
        segs[0] + seq![47u8] + join_slash(segs.skip(1))
    }
}

/// Every byte of every piece of `split_slash(s)` is a byte of `s` other than
/// `/`; stated over a predicate so callers can carry any byte property down.
pub proof fn lemma_split_slash_bytes(s: Seq<u8>, p: spec_fn(u8) -> bool)
    requires
        forall|i: int| 0 <= i < s.len() ==> p(#[trigger] s[i]),
    ensures
        forall|k: int, i: int|
            0 <= k < split_slash(s).len() && 0 <= i < split_slash(s)[k].len() ==> p(
                #[trigger] split_slash(s)[k][i],
            ) && split_slash(s)[k][i] != 47,
    decreases s.len(),
{
    lemma_find_in(s, 0, set![47u8]);
    let f = find_in(s, 0, set![47u8]);
    if f < s.len() {
        assert(forall|i: int| 0 <= i < s.skip(f + 1).len() ==> p(#[trigger] s.skip(f + 1)[i]));
        lemma_split_slash_bytes(s.skip(f + 1), p);
        assert(forall|k: int, i: int|
            0 <= k < split_slash(s).len() && 0 <= i < split_slash(s)[k].len() ==> p(
                #[trigger] split_slash(s)[k][i],
            ) && split_slash(s)[k][i] != 47) by {
            let parts = split_slash(s);
            let head = s.subrange(0, f);
            let rest = split_slash(s.skip(f + 1));
            assert(parts == seq![head] + rest);
            assert forall|k: int, i: int|
                0 <= k < parts.len() && 0 <= i < parts[k].len() implies p(#[trigger] parts[k][i])
                && parts[k][i] != 47 by {
                if k == 0 {
                    assert(parts[k][i] == s[i]);
                    assert(!set![47u8].contains(s[i]));
                } else {
                    assert(parts[k] == rest[k - 1]);
                }
            }
        }
    } else {
        assert(split_slash(s) == seq![s]);
        assert forall|k: int, i: int|
            0 <= k < split_slash(s).len() && 0 <= i < split_slash(s)[k].len() implies p(
            #[trigger] split_slash(s)[k][i],
        ) && split_slash(s)[k][i] != 47 by {
            assert(split_slash(s)[k] == s);
            assert(!set![47u8].contains(s[i]));
        }
    }
}

/// Splitting undoes joining, as long as no segment holds a `/` byte.
pub proof fn lemma_split_join(segs: Seq<Seq<u8>>)
    requires
        segs.len() >= 1,
        forall|k: int, i: int|
            0 <= k < segs.len() && 0 <= i < segs[k].len() ==> #[trigger] segs[k][i] != 47,
    ensures
        split_slash(join_slash(segs)) == segs,
    decreases segs.len(),
{
    let s = join_slash(segs);
    if segs.len() == 1 {
        assert(s == segs[0]);
        assert(forall|j: int| 0 <= j < s.len() ==> !set![47u8].contains(#[trigger] s[j]));
        lemma_find_in_is(s, 0, set![47u8], s.len() as int);
        assert(split_slash(s) =~= segs);
    } else {
        let head = segs[0];
        let tail = join_slash(segs.skip(1));
        assert(s == head + seq![47u8] + tail);
        assert(forall|j: int| 0 <= j < head.len() ==> !set![47u8].contains(#[trigger] s[j]));
        assert(s[head.len() as int] == 47);
        lemma_find_in_is(s, 0, set![47u8], head.len() as int);
        assert(s.subrange(0, head.len() as int) =~= head);
        assert(s.skip(head.len() as int + 1) =~= tail);
        assert(forall|k: int, i: int|
            0 <= k < segs.skip(1).len() && 0 <= i < segs.skip(1)[k].len()
                ==> #[trigger] segs.skip(1)[k][i] != 47) by {
            assert forall|k: int, i: int|
                0 <= k < segs.skip(1).len() && 0 <= i < segs.skip(1)[k].len() implies #[trigger] segs.skip(
                1,
            )[k][i] != 47 by {
                assert(segs.skip(1)[k] == segs[k + 1]);
            }
        }
        lemma_split_join(segs.skip(1));
        assert(split_slash(s) == seq![head] + segs.skip(1));
        assert(seq![head] + segs.skip(1) =~= segs);
    }
}

// ---------------------------------------------------------------------------
// Decimal port numbers
// ---------------------------------------------------------------------------

pub open spec fn all_digits(s: Seq<u8>) -> bool {
    forall|i: int| 0 <= i < s.len() ==> is_digit(#[trigger] s[i])
}

/// Numeric value of a digit sequence, most significant digit first.
pub open spec fn dec_val(s: Seq<u8>) -> int
    decreases s.len(),
{
    if s.len() == 0 {
        0
    } else {
        dec_val(s.drop_last()) * 10 + (s.last() - 48)
    }
}

/// Shortest decimal representation of a non-negative number.
pub open spec fn dec_rep(n: int) -> Seq<u8>
    decreases n,
{
    if n < 10 {
        seq![(48 + if n >= 0 { n } else { 0 }) as u8]
    } else {
        dec_rep(n / 10) + seq![(48 + n % 10) as u8]
    }
}

pub proof fn lemma_dec_rep(n: int)
    requires
        0 <= n,
    ensures
        dec_rep(n).len() >= 1,
        all_digits(dec_rep(n)),
        dec_val(dec_rep(n)) == n,
        dec_rep(n)[0] != 48 || n < 10,
    decreases n,
{
    if n < 10 {
        assert(dec_rep(n) == seq![(48 + n) as u8]);
        assert(dec_val(dec_rep(n)) == dec_val(dec_rep(n).drop_last()) * 10 + (dec_rep(n).last()
            - 48));
        assert(dec_rep(n).drop_last() =~= Seq::<u8>::empty());
    } else {
        lemma_dec_rep(n / 10);
        let r = dec_rep(n);
        assert(r == dec_rep(n / 10) + seq![(48 + n % 10) as u8]);
        assert(r.drop_last() =~= dec_rep(n / 10));
        assert(r.last() == (48 + n % 10) as u8);
        assert(dec_val(r) == (n / 10) * 10 + n % 10);
        assert((n / 10) * 10 + n % 10 == n);
        assert(all_digits(r)) by {
            assert forall|i: int| 0 <= i < r.len() implies is_digit(#[trigger] r[i]) by {
                if i < dec_rep(n / 10).len() {
                    assert(r[i] == dec_rep(n / 10)[i]);
                }
            }
        }
        assert(r[0] == dec_rep(n / 10)[0]);
    }
}

/// A digit prefix never exceeds the value of the whole sequence.
pub proof fn lemma_dec_val_prefix(s: Seq<u8>, k: int)
    requires
        all_digits(s),
        0 <= k <= s.len(),
    ensures
        0 <= dec_val(s.subrange(0, k)) <= dec_val(s),
    decreases s.len() - k,
{
    if k == s.len() {
        assert(s.subrange(0, k) =~= s);
        lemma_dec_val_nonneg(s);
    } else {
        lemma_dec_val_prefix(s, k + 1);
        let a = s.subrange(0, k);
        let b = s.subrange(0, k + 1);
        assert(b.drop_last() =~= a);
        assert(is_digit(s[k]));
        assert(b.last() == s[k]);
        lemma_dec_val_nonneg(a);
        assert(dec_val(b) == dec_val(a) * 10 + (s[k] - 48));
    }
}

pub proof fn lemma_dec_val_nonneg(s: Seq<u8>)
    requires
        all_digits(s),
    ensures
        dec_val(s) >= 0,
    decreases s.len(),
{
    if s.len() > 0 {
        assert(all_digits(s.drop_last())) by {
            assert(forall|i: int| 0 <= i < s.len() - 1 ==> s.drop_last()[i] == s[i]);
        }
        lemma_dec_val_nonneg(s.drop_last());
        assert(is_digit(s.last()));
    }
}

// ---------------------------------------------------------------------------
// Executable helpers
// ---------------------------------------------------------------------------

pub fn is_alpha_x(b: u8) -> (r: bool)
    ensures
        r == is_alpha(b),
{
    (65 <= b && b <= 90) || (97 <= b && b <= 122)
}

pub fn is_digit_x(b: u8) -> (r: bool)
    ensures
        r == is_digit(b),
{
    48 <= b && b <= 57
}

pub fn is_scheme_byte_x(b: u8) -> (r: bool)
    ensures
        r == is_scheme_byte(b),
{
    is_alpha_x(b) || is_digit_x(b) || b == 43 || b == 45 || b == 46
}

pub fn is_unreserved_x(b: u8) -> (r: bool)
    ensures
        r == is_unreserved(b),
{
    is_alpha_x(b) || is_digit_x(b) || b == 45 || b == 46 || b == 95 || b == 126
}

pub fn is_hex_digit_x(b: u8) -> (r: bool)
    ensures
        r == is_hex_digit(b),
{
    is_digit_x(b) || (65 <= b && b <= 70) || (97 <= b && b <= 102)
}

pub fn hex_value_x(b: u8) -> (r: u8)
    requires
        is_hex_digit(b),
    ensures
        r == hex_value(b),
        r < 16,
{
    if 48 <= b && b <= 57 {
        b - 48
    } else if 65 <= b && b <= 70 {
        b - 55
    } else {
        b - 87
    }
}

pub fn hex_digit_upper_x(n: u8) -> (r: u8)
    requires
        n < 16,
    ensures
        r == hex_digit_upper(n),
{
    if n < 10 {
        48 + n
    } else {
        55 + n
    }
}

pub fn lower_byte_x(b: u8) -> (r: u8)
    ensures
        r == lower_byte(b),
{
    if 65 <= b && b <= 90 {
        b + 32
    } else {
        b
    }
}

pub fn lower_vec(v: &Vec<u8>) -> (r: Vec<u8>)
    ensures
        r@ == lower_bytes(v@),
{
    let mut out: Vec<u8> = Vec::new();
    let mut i: usize = 0;
    while i < v.len()
        invariant
            i <= v@.len(),
            out@.len() == i,
            forall|j: int| 0 <= j < i ==> out@[j] == lower_byte(#[trigger] v@[j]),
        decreases v@.len() - i,
    {
        out.push(lower_byte_x(v[i]));
        i += 1;
    }
    proof {
        assert(out@ =~= lower_bytes(v@));
    }
    out
}

/// Copy of `v[i..j]`.
pub fn subrange_vec(v: &Vec<u8>, i: usize, j: usize) -> (r: Vec<u8>)
    requires
        i <= j <= v@.len(),
    ensures
        r@ == v@.subrange(i as int, j as int),
{
    let mut out: Vec<u8> = Vec::new();
    let mut k: usize = i;
    while k < j
        invariant
            i <= k <= j <= v@.len(),
            out@.len() == k - i,
            forall|t: int| 0 <= t < out@.len() ==> #[trigger] out@[t] == v@[i + t],
        decreases j - k,
    {
        out.push(v[k]);
        k += 1;
    }
    proof {
        assert(out@ =~= v@.subrange(i as int, j as int));
    }
    out
}

pub fn eq_bytes(a: &Vec<u8>, b: &Vec<u8>) -> (r: bool)
    ensures
        r == (a@ == b@),
{
    if a.len() != b.len() {
        proof {
            assert(a@ != b@);
        }
        return false;
    }
    let mut i: usize = 0;
    while i < a.len()
        invariant
            a@.len() == b@.len(),
            i <= a@.len(),
            forall|j: int| 0 <= j < i ==> a@[j] == b@[j],
        decreases a@.len() - i,
    {
        if a[i] != b[i] {
            return false;
        }
        i += 1;
    }
    proof {
        assert(a@ =~= b@);
    }
    true
}

/// Canonical percent-encoding of a component, executable form.
pub fn canon_vec(v: &Vec<u8>) -> (r: Vec<u8>)
    ensures
        r@ == canon_bytes(v@),
{
    let mut out: Vec<u8> = Vec::new();
    let mut i: usize = 0;
    proof {
        assert(v@.skip(0) =~= v@);
        assert(Seq::<u8>::empty() + canon_bytes(v@) =~= canon_bytes(v@));
    }
    while i < v.len()
        invariant
            i <= v@.len(),
            canon_bytes(v@) == out@ + canon_bytes(v@.skip(i as int)),
        decreases v@.len() - i,
    {
        let ghost pre = out@;
        let ghost sk = v@.skip(i as int);
        proof {
            assert(sk.len() == v@.len() - i);
            assert(sk[0] == v@[i as int]);
        }
        let b: u8;
        let step: usize;
        if v[i] == 37 && v.len() - i > 2 && is_hex_digit_x(v[i + 1]) && is_hex_digit_x(v[i + 2]) {
            proof {
                assert(sk[1] == v@[i + 1]);
                assert(sk[2] == v@[i + 2]);
            }
            let h = hex_value_x(v[i + 1]);
            let l = hex_value_x(v[i + 2]);
            b = h * 16 + l;
            step = 3;
            proof {
                assert(canon_bytes(sk) == canon_one(b) + canon_bytes(sk.skip(3)));
                assert(sk.skip(3) =~= v@.skip(i + 3));
            }
        } else {
            b = v[i];
            step = 1;
            proof {
                assert(!(sk[0] == 37 && sk.len() >= 3 && is_hex_digit(sk[1]) && is_hex_digit(
                    sk[2],
                )));
                assert(canon_bytes(sk) == canon_one(b) + canon_bytes(sk.skip(1)));
                assert(sk.skip(1) =~= v@.skip(i + 1));
            }
        }
        if is_unreserved_x(b) {
            out.push(b);
            proof {
                assert(out@ =~= pre + canon_one(b));
            }
        } else {
            out.push(37);
            out.push(hex_digit_upper_x(b / 16));
            out.push(hex_digit_upper_x(b % 16));
            proof {
                assert(out@ =~= pre + canon_one(b));
            }
        }
        i += step;
        proof {
            assert(canon_bytes(v@) == pre + (canon_one(b) + canon_bytes(v@.skip(i as int))));
            assert(pre + (canon_one(b) + canon_bytes(v@.skip(i as int))) =~= (pre + canon_one(b))
                + canon_bytes(v@.skip(i as int)));
        }
    }
    proof {
        assert(v@.skip(i as int) =~= Seq::<u8>::empty());
        assert(canon_bytes(v@) =~= out@);
    }
    out
}

// ---------------------------------------------------------------------------
// Executable delimiter searches
// ---------------------------------------------------------------------------

/// First `:` at or after `from`.
pub fn find_colon(v: &Vec<u8>, from: usize) -> (r: usize)
    requires
        from <= v@.len(),
    ensures
        r as int == find_in(v@, from as int, set![58u8]),
        r <= v@.len(),
{
    let mut i = from;
    while i < v.len()
        invariant
            from <= i <= v@.len(),
            forall|j: int| from <= j < i ==> #[trigger] v@[j] != 58,
        decreases v@.len() - i,
    {
        if v[i] == 58 {
            proof {
                lemma_find_in_is(v@, from as int, set![58u8], i as int);
            }
            return i;
        }
        i += 1;
    }
    proof {
        lemma_find_in_is(v@, from as int, set![58u8], v@.len() as int);
    }
    i
}

/// First `/` at or after `from`.
pub fn find_slash(v: &Vec<u8>, from: usize) -> (r: usize)
    requires
        from <= v@.len(),
    ensures
        r as int == find_in(v@, from as int, set![47u8]),
        r <= v@.len(),
{
    let mut i = from;
    while i < v.len()
        invariant
            from <= i <= v@.len(),
            forall|j: int| from <= j < i ==> #[trigger] v@[j] != 47,
        decreases v@.len() - i,
    {
        if v[i] == 47 {
            proof {
                lemma_find_in_is(v@, from as int, set![47u8], i as int);
            }
            return i;
        }
        i += 1;
    }
    proof {
        lemma_find_in_is(v@, from as int, set![47u8], v@.len() as int);
    }
    i
}

/// First `#` at or after `from`.
pub fn find_hash(v: &Vec<u8>, from: usize) -> (r: usize)
    requires
        from <= v@.len(),
    ensures
        r as int == find_in(v@, from as int, set![35u8]),
        r <= v@.len(),
{
    let mut i = from;
    while i < v.len()
        invariant
            from <= i <= v@.len(),
            forall|j: int| from <= j < i ==> #[trigger] v@[j] != 35,
        decreases v@.len() - i,
    {
        if v[i] == 35 {
            proof {
                lemma_find_in_is(v@, from as int, set![35u8], i as int);
            }
            return i;
        }
        i += 1;
    }
    proof {
        lemma_find_in_is(v@, from as int, set![35u8], v@.len() as int);
    }
    i
}

/// First `?` or `#` at or after `from`.
pub fn find_query_or_hash(v: &Vec<u8>, from: usize) -> (r: usize)
    requires
        from <= v@.len(),
    ensures
        r as int == find_in(v@, from as int, set![63u8, 35u8]),
        r <= v@.len(),
{
    let mut i = from;
    while i < v.len()
        invariant
            from <= i <= v@.len(),
            forall|j: int| from <= j < i ==> #[trigger] v@[j] != 63 && v@[j] != 35,
        decreases v@.len() - i,
    {
        if v[i] == 63 || v[i] == 35 {
            proof {
                lemma_find_in_is(v@, from as int, set![63u8, 35u8], i as int);
            }
            return i;
        }
        i += 1;
    }
    proof {
        lemma_find_in_is(v@, from as int, set![63u8, 35u8], v@.len() as int);
    }
    i
}

/// First `/`, `?` or `#` at or after `from`.
pub fn find_path_query_or_hash(v: &Vec<u8>, from: usize) -> (r: usize)
    requires
        from <= v@.len(),
    ensures
        r as int == find_in(v@, from as int, set![47u8, 63u8, 35u8]),
        r <= v@.len(),
{
    let mut i = from;
    while i < v.len()
        invariant
            from <= i <= v@.len(),
            forall|j: int| from <= j < i ==> #[trigger] v@[j] != 47 && v@[j] != 63 && v@[j] != 35,
        decreases v@.len() - i,
    {
        if v[i] == 47 || v[i] == 63 || v[i] == 35 {
            proof {
                lemma_find_in_is(v@, from as int, set![47u8, 63u8, 35u8], i as int);
            }
            return i;
        }
        i += 1;
    }
    proof {
        lemma_find_in_is(v@, from as int, set![47u8, 63u8, 35u8], v@.len() as int);
    }
    i
}

} // verus!
