//! Name normalization: turning an arbitrary component name into a
//! path- and URL-safe slug.

use vstd::prelude::*;
use vstd::string::StrSliceExecFns;

verus! {

/// What one character of a name becomes in the slug: ASCII letters are
/// lowercased, ASCII digits pass through, everything else (non-ASCII
/// characters included) becomes a hyphen.
pub open spec fn slug_char(c: char) -> char {
    if 'a' <= c && c <= 'z' {
        c
    } else if 'A' <= c && c <= 'Z' {
        ((c as u8) + 32) as char
    } else if '0' <= c && c <= '9' {
        c
    } else {
        '-'
    }
}

/// The slug of a whole name: `slug_char` applied to every character.
pub open spec fn slug(s: Seq<char>) -> Seq<char> {
    s.map_values(|c: char| slug_char(c))
}

/// True of the characters a slug may contain.
pub open spec fn is_slug_char(c: char) -> bool {
    ('a' <= c && c <= 'z') || ('0' <= c && c <= '9') || c == '-'
}

/// Relies on String::push: appends the given character to the string.
#[verifier::external_body]
fn push_char(s: &mut String, c: char)
    ensures
        final(s)@ == old(s)@.push(c),
{
    s.push(c);
}

/// Normalizes one character as `slug_char` says.
fn mangle_char(c: char) -> (r: char)
    ensures
        r == slug_char(c),
{
    if 'a' <= c && c <= 'z' {
        c
    } else if 'A' <= c && c <= 'Z' {
        ((c as u8) + 32) as char
    } else if '0' <= c && c <= '9' {
        c
    } else {
        '-'
    }
}

/// Normalizes a component name into a slug: every ASCII alphanumeric
/// character is lowercased, every other character becomes a hyphen.
pub fn mangle_name(name: &str) -> (r: String)
    ensures
        r@ == slug(name@),
        forall|i: int| 0 <= i < r@.len() ==> is_slug_char(#[trigger] r@[i]),
{
    let n = name.unicode_len();
    let mut out = String::new();
    let mut i: usize = 0;
    while i < n
        invariant
            i <= n,
            n == name@.len(),
            out@ == slug(name@.take(i as int)),
        decreases n - i,
    {
        let c = name.get_char(i);
        push_char(&mut out, mangle_char(c));
        proof {
            assert(out@ =~= slug(name@.take(i + 1 as int)));
        }
        i = i + 1;
    }
    proof {
        assert(name@.take(n as int) =~= name@);
        lemma_slug_chars(name@);
    }
    out
}

/// Every character of a slug is a lowercase ASCII letter, an ASCII
/// digit, or a hyphen.
pub proof fn lemma_slug_chars(s: Seq<char>)
    ensures
        forall|i: int| 0 <= i < slug(s).len() ==> is_slug_char(#[trigger] slug(s)[i]),
{
}

/// Normalization is idempotent: normalizing a slug changes nothing.
pub proof fn lemma_slug_idempotent(s: Seq<char>)
    ensures
        slug(slug(s)) == slug(s),
{
    assert forall|c: char| #[trigger] slug_char(slug_char(c)) == slug_char(c) by {
        if 'A' <= c && c <= 'Z' {
            assert('a' <= ((c as u8) + 32) as char <= 'z');
        }
    }
    assert(slug(slug(s)) =~= slug(s));
}

} // verus!
