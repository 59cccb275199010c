//! Character and string utilities shared across the pipeline: ASCII case
//! folding, substring search, and a lexicographic order on strings.
//!
//! Case folding is deliberately ASCII-only: matching behaviour for
//! non-ASCII text is a documented limitation of the store's search and
//! tag filtering, not a guarantee.

use vstd::prelude::*;
use vstd::string::StrSliceExecFns;

verus! {

/// ASCII lowercase of one character; all other characters are unchanged.
pub open spec fn lower_char(c: char) -> char {
    if 'A' <= c && c <= 'Z' {
        ((c as u8) + 32) as char
    } else {
        c
    }
}

/// ASCII lowercase of a character sequence.
pub open spec fn lower_seq(s: Seq<char>) -> Seq<char> {
    s.map_values(|c: char| lower_char(c))
}

/// The needle occurs in the haystack starting at position `i`.
pub open spec fn match_at(hay: Seq<char>, needle: Seq<char>, i: int) -> bool {
    0 <= i && i + needle.len() <= hay.len() && hay.subrange(i, i + needle.len()) == needle
}

/// The needle occurs somewhere in the haystack.
pub open spec fn contains_seq(hay: Seq<char>, needle: Seq<char>) -> bool {
    exists|i: int| match_at(hay, needle, i)
}

/// Case-insensitive (ASCII) substring containment.
pub open spec fn contains_ci(hay: Seq<char>, needle: Seq<char>) -> bool {
    contains_seq(lower_seq(hay), lower_seq(needle))
}

/// Lexicographic order on character sequences, by code point, with a
/// proper prefix ordered first.
pub open spec fn str_le(a: Seq<char>, b: Seq<char>) -> bool
    decreases a.len(),
{
    if a.len() == 0 {
        true
    } else if b.len() == 0 {
        false
    } else if a[0] == b[0] {
        str_le(a.drop_first(), b.drop_first())
    } else {
        a[0] < b[0]
    }
}

/// Strict version of [`str_le`].
pub open spec fn str_lt(a: Seq<char>, b: Seq<char>) -> bool {
    str_le(a, b) && a != b
}

/// Relies on `String::push`: appends exactly the one given character.
#[verifier::external_body]
pub(crate) fn push_char(s: &mut String, c: char)
    ensures
        final(s)@ == old(s)@.push(c),
{
    s.push(c);
}

/// ASCII-lowercases a string, leaving every other character unchanged.
pub fn ascii_lower(s: &String) -> (r: String)
    ensures
        r@ == lower_seq(s@),
{
    let n = s.as_str().unicode_len();
    let mut r = String::new();
    let mut i: usize = 0;
    while i < n
        invariant
            n == s@.len(),
            0 <= i <= n,
            r@ == lower_seq(s@).take(i as int),
        decreases n - i,
    {
        let c = s.as_str().get_char(i);
        let lc = if 'A' <= c && c <= 'Z' {
            ((c as u8) + 32) as char
        } else {
            c
        };
        proof {
            assert(lc == lower_char(s@[i as int]));
            assert(lower_seq(s@).take(i + 1) =~= lower_seq(s@).take(i as int).push(
                lower_char(s@[i as int]),
            ));
        }
        push_char(&mut r, lc);
        i += 1;
    }
    proof {
        assert(lower_seq(s@).take(n as int) =~= lower_seq(s@));
    }
    r
}

/// Finds the first occurrence of `needle` in `hay`, if any.
pub fn find_substring(hay: &String, needle: &String) -> (r: Option<usize>)
    ensures
        match r {
            Some(i) => match_at(hay@, needle@, i as int) && forall|j: int|
                0 <= j < i ==> !match_at(hay@, needle@, j),
            None => !contains_seq(hay@, needle@),
        },
{
    let hn = hay.as_str().unicode_len();
    let nn = needle.as_str().unicode_len();
    if nn > hn {
        return None;
    }
    let mut i: usize = 0;
    while i <= hn - nn
        invariant
            hn == hay@.len(),
            nn == needle@.len(),
            nn <= hn,
            0 <= i <= hn - nn + 1,
            forall|j: int| 0 <= j < i ==> !match_at(hay@, needle@, j),
        decreases hn + 1 - i,
    {
        let mut j: usize = 0;
        let mut ok = true;
        while j < nn
            invariant
                hn == hay@.len(),
                nn == needle@.len(),
                i + nn <= hn,
                0 <= j <= nn,
                ok <==> (forall|k: int|
                    0 <= k < j ==> hay@[i + k] == needle@[k]),
            decreases nn - j,
        {
            let hc = hay.as_str().get_char(i + j);
            let nc = needle.as_str().get_char(j);
            if hc != nc {
                ok = false;
                j = nn;
            } else {
                j += 1;
            }
        }
        if ok {
            proof {
                assert(hay@.subrange(i as int, i + nn) =~= needle@);
            }
            return Some(i);
        }
        proof {
            assert(!match_at(hay@, needle@, i as int)) by {
                if match_at(hay@, needle@, i as int) {
                    assert(forall|k: int|
                        0 <= k < nn ==> #[trigger] hay@.subrange(i as int, i + nn)[k] == hay@[i
                            + k]);
                }
            }
        }
        i += 1;
    }
    proof {
        assert forall|j: int| match_at(hay@, needle@, j) implies false by {
            assert(0 <= j <= hn - nn);
        }
    }
    None
}

/// Whether `needle` occurs in `hay` as an exact substring.
pub fn contains_substring(hay: &String, needle: &String) -> (r: bool)
    ensures
        r == contains_seq(hay@, needle@),
{
    match find_substring(hay, needle) {
        Some(_) => true,
        None => false,
    }
}

/// Case-insensitive (ASCII) substring test.
pub fn contains_ci_exec(hay: &String, needle: &String) -> (r: bool)
    ensures
        r == contains_ci(hay@, needle@),
{
    let lh = ascii_lower(hay);
    let ln = ascii_lower(needle);
    contains_substring(&lh, &ln)
}

/// Case-insensitive (ASCII) string equality.
pub fn eq_ci(a: &String, b: &String) -> (r: bool)
    ensures
        r == (lower_seq(a@) == lower_seq(b@)),
{
    let la = ascii_lower(a);
    let lb = ascii_lower(b);
    la == lb
}

fn str_le_from(a: &String, b: &String, i: usize) -> (r: bool)
    requires
        i <= a@.len(),
        i <= b@.len(),
    ensures
        r == str_le(a@.skip(i as int), b@.skip(i as int)),
    decreases a@.len() - i,
{
    if i == a.as_str().unicode_len() {
        proof {
            assert(a@.skip(i as int).len() == 0);
        }
        true
    } else if i == b.as_str().unicode_len() {
        false
    } else {
        let ca = a.as_str().get_char(i);
        let cb = b.as_str().get_char(i);
        if ca == cb {
            let r = str_le_from(a, b, i + 1);
            proof {
                assert(a@.skip(i as int).drop_first() =~= a@.skip(i + 1));
                assert(b@.skip(i as int).drop_first() =~= b@.skip(i + 1));
            }
            r
        } else {
            ca < cb
        }
    }
}

/// Decides the lexicographic order [`str_le`] on two strings.
pub fn str_le_exec(a: &String, b: &String) -> (r: bool)
    ensures
        r == str_le(a@, b@),
{
    let r = str_le_from(a, b, 0);
    proof {
        assert(a@.skip(0) =~= a@);
        assert(b@.skip(0) =~= b@);
    }
    r
}

/// The order [`str_le`] is total.
pub proof fn lemma_str_le_total(a: Seq<char>, b: Seq<char>)
    ensures
        str_le(a, b) || str_le(b, a),
    decreases a.len(),
{
    if a.len() == 0 || b.len() == 0 {
    } else if a[0] == b[0] {
        lemma_str_le_total(a.drop_first(), b.drop_first());
    }
}

/// The order [`str_le`] is antisymmetric: mutual order means equality.
pub proof fn lemma_str_le_antisym(a: Seq<char>, b: Seq<char>)
    requires
        str_le(a, b),
        str_le(b, a),
    ensures
        a == b,
    decreases a.len(),
{
    if a.len() == 0 {
        assert(b.len() == 0);
        assert(a =~= b);
    } else {
        assert(b.len() > 0);
        assert(a[0] == b[0]);
        lemma_str_le_antisym(a.drop_first(), b.drop_first());
        assert(a =~= seq![a[0]] + a.drop_first());
        assert(b =~= seq![b[0]] + b.drop_first());
    }
}

/// The order [`str_le`] is transitive.
pub proof fn lemma_str_le_trans(a: Seq<char>, b: Seq<char>, c: Seq<char>)
    requires
        str_le(a, b),
        str_le(b, c),
    ensures
        str_le(a, c),
    decreases a.len(),
{
    if a.len() == 0 {
    } else {
        assert(b.len() > 0);
        assert(c.len() > 0);
        if a[0] == b[0] && b[0] == c[0] {
            lemma_str_le_trans(a.drop_first(), b.drop_first(), c.drop_first());
        }
    }
}

} // verus!
