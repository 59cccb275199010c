//! JSON text codecs for the stored columns: the tag list and the
//! bounding box are kept as serialized JSON text in the structured
//! store.
//!
//! The printers are exact: their output is pinned character by
//! character.  The parsers accept exactly the canonical renderings:
//! whatever they return prints back to the input, and every rendering
//! of some value is accepted.  This is a deliberate limitation: the
//! column format is this store's own canonical form, not general
//! JSON.  The printer escapes only the quote and the backslash, so a
//! tag holding a control character is stored raw; and columns written
//! by other serializers (escaped control characters, fractional
//! numbers) are rejected rather than guessed at, and a loader falls
//! back to its defaults for them.

use vstd::prelude::*;
use crate::numfmt::{
    all_digits, dec_digits, digits_val, int_dec, is_digit, lemma_dec_digits_are_digits,
    lemma_digits_val_of_dec, lemma_digits_val_prefix,
};
use crate::numfmt::i64_to_dec;
use vstd::arithmetic::div_mod::lemma_fundamental_div_mod;
use crate::store::BoundingBox;
use crate::tags::views_of;
use crate::text::push_char;
use vstd::string::StringExecFns;
use vstd::string::StrSliceExecFns;

verus! {

/// One character of a JSON string body: quote and backslash are
/// escaped with a backslash, everything else stands for itself.
pub open spec fn esc_one(c: char) -> Seq<char> {
    if c == '"' || c == '\\' {
        seq!['\\', c]
    } else {
        seq![c]
    }
}

/// The escaped body of a JSON string.
pub open spec fn json_escaped(s: Seq<char>) -> Seq<char>
    decreases s.len(),
{
    if s.len() == 0 {
        Seq::empty()
    } else {
        json_escaped(s.drop_last()) + esc_one(s.last())
    }
}

/// A JSON string: the escaped body in double quotes.
pub open spec fn quoted(t: Seq<char>) -> Seq<char> {
    seq!['"'] + json_escaped(t) + seq!['"']
}

/// The comma-separated items of a JSON array of strings.
pub open spec fn tags_json_body(ts: Seq<Seq<char>>) -> Seq<char>
    decreases ts.len(),
{
    if ts.len() == 0 {
        Seq::empty()
    } else if ts.len() == 1 {
        quoted(ts[0])
    } else {
        tags_json_body(ts.drop_last()) + seq![','] + quoted(ts.last())
    }
}

/// The JSON rendering of a tag list.
pub open spec fn tags_json(ts: Seq<Seq<char>>) -> Seq<char> {
    seq!['['] + tags_json_body(ts) + seq![']']
}

/// Escaping distributes over concatenation.
proof fn lemma_json_escaped_concat(a: Seq<char>, b: Seq<char>)
    ensures
        json_escaped(a + b) == json_escaped(a) + json_escaped(b),
    decreases b.len(),
{
    if b.len() == 0 {
        assert(a + b =~= a);
        assert(json_escaped(a) + json_escaped(b) =~= json_escaped(a));
    } else {
        lemma_json_escaped_concat(a, b.drop_last());
        assert((a + b).drop_last() =~= a + b.drop_last());
        assert((a + b).last() == b.last());
        assert(json_escaped(a) + json_escaped(b) =~= json_escaped(a) + json_escaped(b.drop_last())
            + esc_one(b.last()));
        assert(json_escaped(a + b) =~= json_escaped(a) + json_escaped(b));
    }
}

/// The items of a JSON string array, written front-first.
spec fn tags_json_body_front(ts: Seq<Seq<char>>) -> Seq<char>
    decreases ts.len(),
{
    if ts.len() == 0 {
        Seq::empty()
    } else if ts.len() == 1 {
        quoted(ts[0])
    } else {
        quoted(ts[0]) + seq![','] + tags_json_body_front(ts.drop_first())
    }
}

/// The two renderings of the array body agree.
proof fn lemma_body_front(ts: Seq<Seq<char>>)
    ensures
        tags_json_body(ts) == tags_json_body_front(ts),
    decreases ts.len(),
{
    if ts.len() <= 1 {
    } else {
        // Peel the first item off both renderings.
        lemma_body_front(ts.drop_last());
        lemma_body_front(ts.drop_first());
        lemma_body_front(ts.drop_last().drop_first());
        assert(ts.drop_first().drop_last() =~= ts.drop_last().drop_first());
        assert(ts.drop_first().last() == ts.last());
        assert(ts.drop_last()[0] == ts[0]);
        if ts.len() == 2 {
            assert(tags_json_body(ts) =~= quoted(ts[0]) + seq![','] + quoted(ts[1]));
            assert(tags_json_body_front(ts) =~= quoted(ts[0]) + seq![','] + quoted(ts[1]));
        } else {
            assert(tags_json_body(ts) == tags_json_body(ts.drop_last()) + seq![','] + quoted(
                ts.last(),
            ));
            assert(tags_json_body(ts.drop_last()) == quoted(ts[0]) + seq![',']
                + tags_json_body_front(ts.drop_last().drop_first()));
            assert(tags_json_body_front(ts) == quoted(ts[0]) + seq![','] + tags_json_body(
                ts.drop_first(),
            ));
            assert(tags_json_body(ts.drop_first()) == tags_json_body(ts.drop_first().drop_last())
                + seq![','] + quoted(ts.last()));
            assert(tags_json_body(ts.drop_first().drop_last()) == tags_json_body_front(
                ts.drop_last().drop_first(),
            )) by {
                lemma_body_front(ts.drop_first().drop_last());
            }
            assert(tags_json_body(ts) =~= tags_json_body_front(ts));
        }
    }
}

/// A non-empty array body is at least one quoted item long.
proof fn lemma_body_front_min_len(ts: Seq<Seq<char>>)
    requires
        ts.len() >= 1,
    ensures
        tags_json_body_front(ts).len() >= 2,
{
}

/// The JSON rendering of a bounding box.
pub open spec fn bbox_json(y: int, h: int) -> Seq<char> {
    "{\"y\":"@ + int_dec(y) + ",\"height\":"@ + int_dec(h) + "}"@
}

#[verifier::loop_isolation(false)]
fn append_escaped(out: &mut String, t: &String)
    ensures
        final(out)@ == old(out)@ + json_escaped(t@),
{
    let n = t.as_str().unicode_len();
    let mut i: usize = 0;
    proof {
        assert(out@ =~= old(out)@ + json_escaped(t@.take(0)));
    }
    while i < n
        invariant
            n == t@.len(),
            0 <= i <= n,
            out@ == old(out)@ + json_escaped(t@.take(i as int)),
        decreases n - i,
    {
        let c = t.as_str().get_char(i);
        proof {
            assert(t@.take(i + 1).drop_last() =~= t@.take(i as int));
            assert(t@.take(i + 1).last() == t@[i as int]);
        }
        if c == '"' || c == '\\' {
            push_char(out, '\\');
        }
        push_char(out, c);
        proof {
            assert(out@ =~= old(out)@ + json_escaped(t@.take(i + 1)));
        }
        i += 1;
    }
    proof {
        assert(t@.take(n as int) =~= t@);
    }
}

/// Renders a tag list as JSON text.
#[verifier::loop_isolation(false)]
pub fn tags_to_json(tags: &Vec<String>) -> (r: String)
    ensures
        r@ == tags_json(views_of(tags@)),
{
    let n = tags.len();
    let mut s = String::new();
    push_char(&mut s, '[');
    let mut k: usize = 0;
    proof {
        assert(views_of(tags@.take(0)) =~= Seq::<Seq<char>>::empty());
        assert(s@ =~= seq!['['] + tags_json_body(views_of(tags@.take(0))));
    }
    while k < n
        invariant
            n == tags@.len(),
            0 <= k <= n,
            s@ == seq!['['] + tags_json_body(views_of(tags@.take(k as int))),
        decreases n - k,
    {
        if k > 0 {
            push_char(&mut s, ',');
        }
        push_char(&mut s, '"');
        append_escaped(&mut s, &tags[k]);
        push_char(&mut s, '"');
        proof {
            assert(views_of(tags@.take(k + 1)) =~= views_of(tags@.take(k as int)).push(
                tags@[k as int]@,
            ));
            assert(views_of(tags@.take(k + 1)).drop_last() =~= views_of(tags@.take(k as int)));
            assert(s@ =~= seq!['['] + tags_json_body(views_of(tags@.take(k + 1))));
        }
        k += 1;
    }
    push_char(&mut s, ']');
    proof {
        assert(tags@.take(n as int) =~= tags@);
        assert(s@ =~= tags_json(views_of(tags@)));
    }
    s
}

/// Renders a bounding box as JSON text.
pub fn bbox_to_json(b: &BoundingBox) -> (r: String)
    ensures
        r@ == bbox_json(b.y as int, b.height as int),
{
    let y = i64_to_dec(b.y);
    let h = i64_to_dec(b.height);
    let mut s = String::new();
    s.append("{\"y\":");
    s.append(y.as_str());
    s.append(",\"height\":");
    s.append(h.as_str());
    s.append("}");
    proof {
        assert(s@ =~= bbox_json(b.y as int, b.height as int));
    }
    s
}

/// An escaped string body stands at the given position, closed by a
/// double quote.
spec fn item_at(s: Seq<char>, start: int, t: Seq<char>) -> bool {
    &&& 0 <= start
    &&& start + json_escaped(t).len() + 1 <= s.len()
    &&& s.subrange(start, start + json_escaped(t).len()) == json_escaped(t)
    &&& s[start + json_escaped(t).len()] == '"'
}

/// Decompositions of an escaped body around a prefix boundary.
proof fn lemma_item_step(t: Seq<char>, k: int)
    requires
        0 <= k <= t.len(),
    ensures
        json_escaped(t.take(k)).len() <= json_escaped(t).len(),
        json_escaped(t) == json_escaped(t.take(k)) + json_escaped(t.skip(k)),
        k < t.len() ==> json_escaped(t.skip(k)) == esc_one(t[k]) + json_escaped(t.skip(k + 1)),
        k < t.len() ==> json_escaped(t.take(k + 1)) == json_escaped(t.take(k)) + esc_one(t[k]),
{
    assert(t.take(k) + t.skip(k) =~= t);
    lemma_json_escaped_concat(t.take(k), t.skip(k));
    if k < t.len() {
        assert(t.skip(k) =~= seq![t[k]] + t.skip(k + 1));
        lemma_json_escaped_concat(seq![t[k]], t.skip(k + 1));
        assert(json_escaped(seq![t[k]]) =~= esc_one(t[k])) by {
            assert(seq![t[k]].drop_last() =~= Seq::<char>::empty());
            assert(json_escaped(Seq::<char>::empty()) =~= Seq::<char>::empty());
            assert(seq![t[k]].last() == t[k]);
        }
        assert(t.take(k + 1) =~= t.take(k) + seq![t[k]]);
        lemma_json_escaped_concat(t.take(k), seq![t[k]]);
    }
}

/// Scans one escaped string body from just after its opening quote
/// through its closing quote.  Whenever a body stands there, it is
/// recovered exactly.
#[verifier::loop_isolation(false)]
fn scan_item(s: &String, start: usize) -> (r: Option<(String, usize)>)
    requires
        start <= s@.len(),
    ensures
        match r {
            Some(p) => start < p.1 <= s@.len(),
            None => true,
        },
        forall|t: Seq<char>| #[trigger]
            item_at(s@, start as int, t) ==> (match r {
                Some(p) => p.0@ == t && p.1 == start + json_escaped(t).len() + 1,
                None => false,
            }),
{
    let n = s.as_str().unicode_len();
    let mut i: usize = start;
    let mut item = String::new();
    let mut closed = false;
    proof {
        assert(item@ =~= Seq::<char>::empty());
        assert forall|t: Seq<char>| #[trigger] item_at(s@, start as int, t) implies item@ == t.take(
            item@.len() as int,
        ) && json_escaped(t.take(item@.len() as int)).len() == 0 by {
            assert(t.take(0) =~= Seq::<char>::empty());
            assert(json_escaped(Seq::<char>::empty()) =~= Seq::<char>::empty());
            assert(item@ =~= t.take(0));
        }
    }
    while !closed
        invariant
            n == s@.len(),
            start <= i <= n,
            closed ==> start < i <= n,
            forall|t: Seq<char>| #[trigger]
                item_at(s@, start as int, t) ==> ((closed ==> item@ == t && i == start
                    + json_escaped(t).len() + 1) && (!closed ==> item@.len() <= t.len() && item@
                    == t.take(item@.len() as int) && i == start + json_escaped(
                    t.take(item@.len() as int),
                ).len())),
        decreases n - i,
    {
        if i >= n {
            proof {
                assert forall|t: Seq<char>| !(#[trigger] item_at(s@, start as int, t)) by {
                    if item_at(s@, start as int, t) {
                        lemma_item_step(t, item@.len() as int);
                        assert(i < n);
                    }
                }
            }
            return None;
        }
        let c = s.as_str().get_char(i);
        if c == '"' {
            proof {
                let ghost k0 = item@.len() as int;
                assert forall|t: Seq<char>| #[trigger]
                    item_at(s@, start as int, t) implies item@ == t && i + 1 == start
                    + json_escaped(t).len() + 1 by {
                    lemma_item_step(t, k0);
                    if k0 < t.len() {
                        assert(s@[i as int] == s@.subrange(
                            start as int,
                            start + json_escaped(t).len(),
                        )[i - start]);
                        assert(s@[i as int] == json_escaped(t)[i - start]);
                        assert(json_escaped(t)[i - start] == esc_one(t[k0])[0]);
                        assert(esc_one(t[k0])[0] != '"');
                        assert(false);
                    }
                    assert(item@ =~= t);
                }
            }
            closed = true;
            i += 1;
        } else if c == '\\' {
            if i + 1 >= n {
                proof {
                    assert forall|t: Seq<char>| !(#[trigger] item_at(s@, start as int, t)) by {
                        if item_at(s@, start as int, t) {
                            let k0 = item@.len() as int;
                            lemma_item_step(t, k0);
                            if k0 == t.len() {
                                assert(s@[i as int] == '"');
                            } else {
                                assert(s@[i as int] == json_escaped(t)[i - start]);
                                assert(json_escaped(t)[i - start] == esc_one(t[k0])[0]);
                                assert(esc_one(t[k0])[0] == '\\');
                                assert(t[k0] == '"' || t[k0] == '\\');
                                assert(esc_one(t[k0]).len() == 2);
                                assert(i + 1 - start < json_escaped(t).len());
                                assert(i + 1 < n);
                            }
                        }
                    }
                }
                return None;
            }
            let e = s.as_str().get_char(i + 1);
            proof {
                let ghost k0 = item@.len() as int;
                assert forall|t: Seq<char>| #[trigger]
                    item_at(s@, start as int, t) implies k0 < t.len() && e == t[k0] && item@.push(e)
                    == t.take(k0 + 1) && i + 2 == start + json_escaped(t.take(k0 + 1)).len() by {
                    lemma_item_step(t, k0);
                    if k0 == t.len() {
                        assert(s@[i as int] == '"');
                        assert(false);
                    }
                    assert(s@[i as int] == json_escaped(t)[i - start]);
                    assert(json_escaped(t)[i - start] == esc_one(t[k0])[0]);
                    assert(t[k0] == '"' || t[k0] == '\\') by {
                        if t[k0] != '"' && t[k0] != '\\' {
                            assert(esc_one(t[k0])[0] == t[k0]);
                            assert(s@[i as int] == t[k0]);
                        }
                    }
                    assert(esc_one(t[k0]).len() == 2);
                    assert(esc_one(t[k0])[1] == t[k0]);
                    assert(s@[i + 1] == s@.subrange(start as int, start + json_escaped(t).len())[i
                        + 1 - start]);
                    assert(s@[i + 1] == json_escaped(t)[i + 1 - start]);
                    assert(json_escaped(t)[i + 1 - start] == esc_one(t[k0])[1]);
                    assert(item@.push(e) =~= t.take(k0 + 1));
                }
            }
            push_char(&mut item, e);
            i += 2;
        } else {
            proof {
                let ghost k0 = item@.len() as int;
                assert forall|t: Seq<char>| #[trigger]
                    item_at(s@, start as int, t) implies k0 < t.len() && c == t[k0] && item@.push(c)
                    == t.take(k0 + 1) && i + 1 == start + json_escaped(t.take(k0 + 1)).len() by {
                    lemma_item_step(t, k0);
                    if k0 == t.len() {
                        assert(s@[i as int] == '"');
                        assert(false);
                    }
                    assert(s@[i as int] == s@.subrange(
                        start as int,
                        start + json_escaped(t).len(),
                    )[i - start]);
                    assert(s@[i as int] == json_escaped(t)[i - start]);
                    assert(json_escaped(t)[i - start] == esc_one(t[k0])[0]);
                    assert(t[k0] != '"' && t[k0] != '\\') by {
                        if t[k0] == '"' || t[k0] == '\\' {
                            assert(esc_one(t[k0])[0] == '\\');
                        }
                    }
                    assert(esc_one(t[k0])[0] == t[k0]);
                    assert(item@.push(c) =~= t.take(k0 + 1));
                }
            }
            push_char(&mut item, c);
            i += 1;
        }
    }
    Some((item, i))
}

#[verifier::loop_isolation(false)]
fn scan_tags(s: &String) -> (r: Option<Vec<String>>)
    ensures
        forall|ts: Seq<Seq<char>>|
            s@ == #[trigger] tags_json(ts) ==> (match r {
                Some(v) => views_of(v@) == ts,
                None => false,
            }),
{
    let n = s.as_str().unicode_len();
    let mut tags: Vec<String> = Vec::new();
    if n < 2 {
        proof {
            assert forall|ts: Seq<Seq<char>>| s@ != #[trigger] tags_json(ts) by {
                if s@ == tags_json(ts) {
                    assert(s@.len() == 2 + tags_json_body(ts).len());
                }
            }
        }
        return None;
    }
    if s.as_str().get_char(0) != '[' {
        proof {
            assert forall|ts: Seq<Seq<char>>| s@ != #[trigger] tags_json(ts) by {
                if s@ == tags_json(ts) {
                    assert(s@[0] == '[');
                }
            }
        }
        return None;
    }
    if s.as_str().get_char(n - 1) != ']' {
        proof {
            assert forall|ts: Seq<Seq<char>>| s@ != #[trigger] tags_json(ts) by {
                if s@ == tags_json(ts) {
                    assert(s@.len() == 2 + tags_json_body(ts).len());
                    assert(s@[s@.len() - 1] == ']');
                }
            }
        }
        return None;
    }
    if n == 2 {
        proof {
            assert forall|ts: Seq<Seq<char>>| s@ == #[trigger] tags_json(ts) implies views_of(
                tags@,
            ) == ts by {
                assert(s@.len() == 2 + tags_json_body(ts).len());
                assert(tags_json_body(ts).len() == 0);
                if ts.len() >= 1 {
                    lemma_body_front(ts);
                    lemma_body_front_min_len(ts);
                }
                assert(ts.len() == 0);
                assert(views_of(tags@) =~= ts);
            }
        }
        return Some(tags);
    }
    let mut i: usize = 1;
    proof {
        assert forall|ts: Seq<Seq<char>>| s@ == #[trigger] tags_json(ts) implies views_of(tags@)
            == ts.take(0) && tags@.len() <= ts.len() && (0 < ts.len() ==> s@.subrange(1, n - 1)
            == tags_json_body_front(ts.skip(0))) && (0 == ts.len() ==> 1 == n - 1) by {
            assert(views_of(tags@) =~= ts.take(0));
            lemma_body_front(ts);
            assert(s@.len() == 2 + tags_json_body(ts).len());
            assert(s@.subrange(1, n - 1) =~= tags_json_body(ts));
            if ts.len() == 0 {
                assert(n == 2);
            } else {
                assert(ts.skip(0) =~= ts);
                assert(tags_json_body_front(ts.skip(0)) == tags_json_body_front(ts));
            }
        }
    }
    while i < n - 1
        invariant
            n == s@.len(),
            2 < n,
            1 <= i <= n - 1,
            forall|ts: Seq<Seq<char>>|
                s@ == #[trigger] tags_json(ts) ==> (views_of(tags@) == ts.take(tags@.len() as int)
                    && tags@.len() <= ts.len() && (tags@.len() < ts.len() ==> s@.subrange(
                    i as int,
                    n - 1,
                ) == tags_json_body_front(ts.skip(tags@.len() as int))) && (tags@.len() == ts.len()
                    ==> i == n - 1)),
        decreases n - 1 - i,
    {
        let ghost m = tags@.len() as int;
        proof {
            assert forall|ts: Seq<Seq<char>>| s@ == #[trigger] tags_json(ts) implies m < ts.len()
                && s@[i as int] == '"' && item_at(s@, i + 1, ts[m]) by {
                assert(m < ts.len()) by {
                    if m == ts.len() {
                        assert(i == n - 1);
                    }
                }
                let rest = ts.skip(m);
                assert(rest.len() == ts.len() - m);
                assert(rest[0] == ts[m]);
                let rem = s@.subrange(i as int, n - 1);
                assert(rem == tags_json_body_front(rest));
                let q = quoted(ts[m]);
                let el = json_escaped(ts[m]).len() as int;
                assert(q.len() == el + 2);
                if rest.len() == 1 {
                    assert(tags_json_body_front(rest) == q);
                } else {
                    assert(tags_json_body_front(rest) == q + seq![','] + tags_json_body_front(
                        rest.drop_first(),
                    ));
                }
                assert(rem.len() >= q.len());
                assert forall|k: int| 0 <= k < q.len() implies rem[k] == q[k] by {}
                assert(s@[i as int] == rem[0]);
                assert(q[0] == '"');
                assert(s@.subrange(i + 1, i + 1 + el) =~= json_escaped(ts[m])) by {
                    assert forall|k: int|
                        0 <= k < el implies s@.subrange(i + 1, i + 1 + el)[k] == json_escaped(
                        ts[m],
                    )[k] by {
                        assert(s@[i + 1 + k] == rem[1 + k]);
                        assert(rem[1 + k] == q[1 + k]);
                        assert(q[1 + k] == json_escaped(ts[m])[k]);
                    }
                }
                assert(s@[i + 1 + el] == rem[1 + el]);
                assert(rem[1 + el] == q[1 + el]);
                assert(q[1 + el] == '"');
            }
        }
        if s.as_str().get_char(i) != '"' {
            return None;
        }
        let scanned = scan_item(s, i + 1);
        let (item, after) = match scanned {
            Some(p) => p,
            None => {
                proof {
                    assert forall|ts: Seq<Seq<char>>| s@ != #[trigger] tags_json(ts) by {
                        if s@ == tags_json(ts) {
                            assert(item_at(s@, i + 1, ts[m]));
                        }
                    }
                }
                return None;
            },
        };
        proof {
            assert forall|ts: Seq<Seq<char>>| s@ == #[trigger] tags_json(ts) implies item@ == ts[m]
                && after == i + 2 + json_escaped(ts[m]).len() by {
                assert(item_at(s@, i + 1, ts[m]));
            }
        }
        tags.push(item);
        proof {
            assert forall|ts: Seq<Seq<char>>| s@ == #[trigger] tags_json(ts) implies views_of(
                tags@,
            ) == ts.take(m + 1) by {
                assert(views_of(tags@) =~= ts.take(m + 1));
            }
        }
        i = after;
        if i < n - 1 {
            proof {
                assert forall|ts: Seq<Seq<char>>| s@ == #[trigger] tags_json(ts) implies m + 1
                    < ts.len() && s@[i as int] == ',' && s@.subrange(i + 1, n - 1)
                    == tags_json_body_front(ts.skip(m + 1)) && tags_json_body_front(
                    ts.skip(m + 1),
                ).len() >= 2 by {
                    let rest = ts.skip(m);
                    let rem = s@.subrange((i - 2 - json_escaped(ts[m]).len() as int), n - 1);
                    assert(rem == tags_json_body_front(rest));
                    let q = quoted(ts[m]);
                    if rest.len() == 1 {
                        assert(tags_json_body_front(rest) == q);
                        assert(rem.len() == q.len());
                        assert(i == n - 1);
                        assert(false);
                    }
                    assert(tags_json_body_front(rest) == q + seq![','] + tags_json_body_front(
                        rest.drop_first(),
                    ));
                    assert(rest.drop_first() =~= ts.skip(m + 1));
                    assert(s@[i as int] == rem[q.len() as int]);
                    assert(rem[q.len() as int] == ',');
                    assert(s@.subrange(i + 1, n - 1) =~= tags_json_body_front(ts.skip(m + 1))) by {
                        assert forall|k: int|
                            0 <= k < n - 1 - i - 1 implies #[trigger] s@.subrange(i + 1, n - 1)[k]
                            == tags_json_body_front(ts.skip(m + 1))[k] by {
                            assert(s@[i + 1 + k] == rem[q.len() + 1 + k]);
                        }
                    }
                    lemma_body_front_min_len(ts.skip(m + 1));
                }
            }
            if s.as_str().get_char(i) != ',' {
                return None;
            }
            i += 1;
            if i >= n - 1 {
                return None;
            }
        } else {
            proof {
                assert forall|ts: Seq<Seq<char>>| s@ == #[trigger] tags_json(ts) implies i <= n
                    - 1 by {
                    let rest = ts.skip(m);
                    let rem = s@.subrange((i - 2 - json_escaped(ts[m]).len() as int), n - 1);
                    assert(rem == tags_json_body_front(rest));
                    let q = quoted(ts[m]);
                    if rest.len() == 1 {
                        assert(tags_json_body_front(rest) == q);
                    } else {
                        assert(tags_json_body_front(rest) == q + seq![','] + tags_json_body_front(
                            rest.drop_first(),
                        ));
                    }
                    assert(rem.len() >= q.len());
                }
            }
            if i > n - 1 {
                return None;
            }
            proof {
                assert forall|ts: Seq<Seq<char>>| s@ == #[trigger] tags_json(ts) implies m + 1
                    == ts.len() by {
                    let rest = ts.skip(m);
                    let rem = s@.subrange((i - 2 - json_escaped(ts[m]).len() as int), n - 1);
                    assert(rem == tags_json_body_front(rest));
                    let q = quoted(ts[m]);
                    if rest.len() > 1 {
                        assert(tags_json_body_front(rest) == q + seq![','] + tags_json_body_front(
                            rest.drop_first(),
                        ));
                        lemma_body_front_min_len(rest.drop_first());
                        assert(rem.len() >= q.len() + 3);
                        assert(i + 3 <= n - 1);
                        assert(false);
                    }
                }
            }
        }
    }
    proof {
        assert forall|ts: Seq<Seq<char>>| s@ == #[trigger] tags_json(ts) implies views_of(tags@)
            == ts by {
            if (tags@.len() as int) < ts.len() {
                lemma_body_front_min_len(ts.skip(tags@.len() as int));
                assert(s@.subrange(i as int, n - 1).len() == 0);
            }
            assert(tags@.len() == ts.len());
            assert(ts.take(ts.len() as int) =~= ts);
        }
    }
    Some(tags)
}

/// Parses a tag list from JSON text.  Exactly the canonically
/// rendered tag lists are accepted: a returned list re-prints to the
/// input, and every input that is the rendering of some list is
/// accepted.
pub fn tags_from_json(s: &String) -> (r: Option<Vec<String>>)
    ensures
        match r {
            Some(v) => s@ == tags_json(views_of(v@)),
            None => true,
        },
        (exists|ts: Seq<Seq<char>>| s@ == #[trigger] tags_json(ts)) ==> r is Some,
{
    match scan_tags(s) {
        Some(v) => {
            let printed = tags_to_json(&v);
            if printed == *s {
                Some(v)
            } else {
                proof {
                    if exists|ts: Seq<Seq<char>>| s@ == #[trigger] tags_json(ts) {
                        let ts = choose|ts: Seq<Seq<char>>| s@ == #[trigger] tags_json(ts);
                        assert(views_of(v@) == ts);
                        assert(printed@ == s@);
                        assert(false);
                    }
                }
                None
            }
        },
        None => {
            proof {
                if exists|ts: Seq<Seq<char>>| s@ == #[trigger] tags_json(ts) {
                    let ts = choose|ts: Seq<Seq<char>>| s@ == #[trigger] tags_json(ts);
                    assert(false);
                }
            }
            None
        },
    }
}

/// An integer stands at the given position in canonical decimal
/// rendering, ended by the sequence's end or a non-digit character.
pub open spec fn int_at(s: Seq<char>, i: int, v: int) -> bool {
    &&& 0 <= i
    &&& i + int_dec(v).len() <= s.len()
    &&& s.subrange(i, i + int_dec(v).len()) == int_dec(v)
    &&& (i + int_dec(v).len() == s.len() || !is_digit(s[i + int_dec(v).len()]))
}

/// The magnitude of an integer.
pub open spec fn mag_of(v: int) -> nat {
    if v >= 0 {
        v as nat
    } else {
        (-v) as nat
    }
}

/// What an integer at a position says about the digit run behind its
/// optional sign.
proof fn lemma_int_at_facts(s: Seq<char>, start: int, v: int)
    requires
        int_at(s, start, v),
    ensures
        int_dec(v).len() == (if v < 0 { 1int } else { 0int }) + dec_digits(mag_of(v)).len(),
        v < 0 ==> s[start] == '-',
        v >= 0 ==> is_digit(s[start]),
        ({
            let rs = if v < 0 { start + 1 } else { start };
            s.subrange(rs, rs + dec_digits(mag_of(v)).len()) == dec_digits(mag_of(v))
        }),
        all_digits(dec_digits(mag_of(v))),
        dec_digits(mag_of(v)).len() >= 1,
        digits_val(dec_digits(mag_of(v))) == mag_of(v),
{
    lemma_dec_digits_are_digits(mag_of(v));
    lemma_digits_val_of_dec(mag_of(v));
    let whole = s.subrange(start, start + int_dec(v).len());
    if v < 0 {
        assert(int_dec(v) == seq!['-'] + dec_digits(mag_of(v)));
        assert(s[start] == whole[0]);
        assert(whole[0] == '-');
        let rs = start + 1;
        assert(s.subrange(rs, rs + dec_digits(mag_of(v)).len()) =~= dec_digits(mag_of(v))) by {
            assert forall|k: int|
                0 <= k < dec_digits(mag_of(v)).len() implies s.subrange(
                rs,
                rs + dec_digits(mag_of(v)).len(),
            )[k] == dec_digits(mag_of(v))[k] by {
                assert(s[rs + k] == whole[1 + k]);
                assert(whole[1 + k] == int_dec(v)[1 + k]);
            }
        }
    } else {
        assert(int_dec(v) == dec_digits(mag_of(v)));
        assert(s[start] == whole[0]);
        assert(whole[0] == dec_digits(mag_of(v))[0]);
        assert(is_digit(dec_digits(mag_of(v))[0]));
        assert(s.subrange(start, start + dec_digits(mag_of(v)).len()) =~= dec_digits(mag_of(v)));
    }
}

#[verifier::loop_isolation(false)]
fn scan_i64(s: &String, start: usize) -> (r: Option<(i64, usize)>)
    requires
        start <= s@.len(),
    ensures
        match r {
            Some(p) => start < p.1 <= s@.len(),
            None => true,
        },
        forall|v: i64| #[trigger] int_at(s@, start as int, v as int) ==> r == Some::<(i64, usize)>(
            (v, (start + int_dec(v as int).len()) as usize),
        ),
{
    let n = s.as_str().unicode_len();
    let mut i: usize = start;
    let mut negative = false;
    if i < n && s.as_str().get_char(i) == '-' {
        negative = true;
        i += 1;
    }
    let run_start = i;
    let mut value: u64 = 0;
    let mut stop = false;
    proof {
        assert(s@.subrange(run_start as int, run_start as int) =~= Seq::<char>::empty());
    }
    while i < n && !stop
        invariant
            n == s@.len(),
            start <= run_start <= i <= n,
            run_start <= start + 1,
            negative ==> start < n && s@[start as int] == '-' && run_start == start + 1,
            !negative ==> run_start == start,
            forall|k: int| run_start <= k < i ==> is_digit(#[trigger] s@[k]),
            value as int == digits_val(s@.subrange(run_start as int, i as int)),
            stop ==> i < n && !is_digit(s@[i as int]),
        decreases 2 * (n - i) + (if stop { 0int } else { 1int }),
    {
        let c = s.as_str().get_char(i);
        if '0' <= c && c <= '9' {
            let d = ((c as u8) - 48) as u64;
            if value > (u64::MAX - d) / 10 {
                proof {
                    lemma_fundamental_div_mod((u64::MAX - d) as int, 10);
                    assert forall|v: i64| !(#[trigger] int_at(s@, start as int, v as int)) by {
                        if int_at(s@, start as int, v as int) {
                            lemma_scan_position(
                                s@,
                                start as int,
                                v as int,
                                run_start as int,
                                i as int,
                                negative,
                                value as int,
                            );
                            lemma_digits_val_prefix(
                                dec_digits(mag_of(v as int)),
                                i + 1 - run_start,
                            );
                            assert(s@.subrange(run_start as int, i + 1) =~= dec_digits(
                                mag_of(v as int),
                            ).take(i + 1 - run_start));
                            assert(s@.subrange(run_start as int, i + 1).drop_last() =~= s@.subrange(
                                run_start as int,
                                i as int,
                            ));
                            assert(digits_val(s@.subrange(run_start as int, i + 1)) == value * 10
                                + d);
                            assert(value * 10 + d <= mag_of(v as int));
                            assert(mag_of(v as int) <= 0x8000_0000_0000_0000);
                            assert(false);
                        }
                    }
                }
                return None;
            }
            proof {
                lemma_fundamental_div_mod((u64::MAX - d) as int, 10);
                assert(value * 10 + d <= u64::MAX);
            }
            value = value * 10 + d;
            proof {
                assert(s@.subrange(run_start as int, i + 1) =~= s@.subrange(
                    run_start as int,
                    i as int,
                ).push(s@[i as int]));
                assert(s@.subrange(run_start as int, i + 1).drop_last() =~= s@.subrange(
                    run_start as int,
                    i as int,
                ));
                assert(s@[i as int] as int - 48 == d);
            }
            i += 1;
        } else {
            stop = true;
        }
    }
    if i == run_start {
        proof {
            assert forall|v: i64| !(#[trigger] int_at(s@, start as int, v as int)) by {
                if int_at(s@, start as int, v as int) {
                    lemma_scan_end(
                        s@,
                        start as int,
                        v as int,
                        run_start as int,
                        i as int,
                        negative,
                        stop,
                    );
                    assert(false);
                }
            }
        }
        return None;
    }
    if negative {
        if value > 0x8000_0000_0000_0000u64 {
            proof {
                assert forall|v: i64| !(#[trigger] int_at(s@, start as int, v as int)) by {
                    if int_at(s@, start as int, v as int) {
                        lemma_scan_end(
                            s@,
                            start as int,
                            v as int,
                            run_start as int,
                            i as int,
                            negative,
                            stop,
                        );
                        assert(value as int == mag_of(v as int));
                        assert(mag_of(v as int) <= 0x8000_0000_0000_0000);
                        assert(false);
                    }
                }
            }
            return None;
        }
        let out = if value == 0x8000_0000_0000_0000u64 {
            i64::MIN
        } else {
            -(value as i64)
        };
        proof {
            assert forall|v: i64| #[trigger]
                int_at(s@, start as int, v as int) implies Some::<(i64, usize)>((out, i)) == Some::<
                (i64, usize),
            >((v, (start + int_dec(v as int).len()) as usize)) by {
                lemma_scan_end(
                    s@,
                    start as int,
                    v as int,
                    run_start as int,
                    i as int,
                    negative,
                    stop,
                );
                assert(value as int == mag_of(v as int));
                assert(v < 0);
                assert(out == v);
            }
        }
        return Some((out, i));
    }
    if value > i64::MAX as u64 {
        proof {
            assert forall|v: i64| !(#[trigger] int_at(s@, start as int, v as int)) by {
                if int_at(s@, start as int, v as int) {
                    lemma_scan_end(
                        s@,
                        start as int,
                        v as int,
                        run_start as int,
                        i as int,
                        negative,
                        stop,
                    );
                    assert(value as int == mag_of(v as int));
                    assert(v >= 0);
                    assert(mag_of(v as int) <= i64::MAX);
                    assert(false);
                }
            }
        }
        return None;
    }
    let out = value as i64;
    proof {
        assert forall|v: i64| #[trigger]
            int_at(s@, start as int, v as int) implies Some::<(i64, usize)>((out, i)) == Some::<
            (i64, usize),
        >((v, (start + int_dec(v as int).len()) as usize)) by {
            lemma_scan_end(s@, start as int, v as int, run_start as int, i as int, negative, stop);
            assert(value as int == mag_of(v as int));
            assert(v >= 0);
            assert(out == v);
        }
    }
    Some((out, i))
}

/// Mid-scan position facts under an integer-at-position hypothesis:
/// the scan is still inside the digit run, and the parsed sign agrees.
proof fn lemma_scan_position(
    s: Seq<char>,
    start: int,
    v: int,
    run_start: int,
    i: int,
    negative: bool,
    value: int,
)
    requires
        int_at(s, start, v),
        start <= run_start <= i < s.len(),
        run_start <= start + 1,
        negative ==> s[start] == '-' && run_start == start + 1,
        !negative ==> run_start == start,
        forall|k: int| run_start <= k < i ==> is_digit(#[trigger] s[k]),
        is_digit(s[i]),
        value == digits_val(s.subrange(run_start, i)),
    ensures
        negative == (v < 0),
        i < run_start + dec_digits(mag_of(v)).len(),
        s.subrange(run_start, run_start + dec_digits(mag_of(v)).len()) == dec_digits(mag_of(v)),
        all_digits(dec_digits(mag_of(v))),
        digits_val(dec_digits(mag_of(v))) == mag_of(v),
{
    lemma_int_at_facts(s, start, v);
    if v < 0 {
        assert(s[start] == '-');
        assert(!is_digit('-'));
        assert(negative) by {
            if !negative {
                assert(run_start == start);
                if i > start {
                    assert(is_digit(s[start]));
                }
                assert(i == start);
                assert(is_digit(s[i]));
            }
        }
    } else {
        assert(is_digit(s[start]));
        assert(!negative) by {
            if negative {
                assert(s[start] == '-');
                assert(!is_digit('-'));
            }
        }
    }
    let dlen = dec_digits(mag_of(v)).len() as int;
    let run_end = run_start + dlen;
    assert(i < run_end) by {
        if i >= run_end {
            assert(run_end <= s.len());
            if run_end == s.len() {
                assert(i < s.len());
                assert(false);
            } else {
                assert(!is_digit(s[run_end]));
                if run_end < i {
                    assert(is_digit(s[run_end]));
                } else {
                    assert(run_end == i);
                    assert(is_digit(s[i]));
                }
                assert(false);
            }
        }
    }
}

/// End-of-scan facts under an integer-at-position hypothesis: the scan
/// consumed exactly the digit run and accumulated its value.
proof fn lemma_scan_end(
    s: Seq<char>,
    start: int,
    v: int,
    run_start: int,
    i: int,
    negative: bool,
    stop: bool,
)
    requires
        int_at(s, start, v),
        start <= run_start <= i <= s.len(),
        run_start <= start + 1,
        negative ==> s[start] == '-' && run_start == start + 1,
        !negative ==> run_start == start,
        forall|k: int| run_start <= k < i ==> is_digit(#[trigger] s[k]),
        !negative ==> !(start < s.len() && s[start] == '-'),
        stop ==> i < s.len() && !is_digit(s[i]),
        i == s.len() || stop,
    ensures
        negative == (v < 0),
        i == run_start + dec_digits(mag_of(v)).len(),
        i == start + int_dec(v).len(),
        i > run_start,
        digits_val(s.subrange(run_start, i)) == mag_of(v),
{
    lemma_int_at_facts(s, start, v);
    if v < 0 {
        assert(s[start] == '-');
        assert(start < s.len()) by {
            assert(int_dec(v).len() >= 2);
        }
        assert(negative);
    } else {
        assert(is_digit(s[start]));
        assert(!negative) by {
            if negative {
                assert(s[start] == '-');
                assert(!is_digit('-'));
            }
        }
    }
    let dlen = dec_digits(mag_of(v)).len() as int;
    let run_end = run_start + dlen;
    assert(s.subrange(run_start, run_end) == dec_digits(mag_of(v)));
    assert(i == run_end) by {
        if i < run_end {
            assert(is_digit(s.subrange(run_start, run_end)[i - run_start]));
            assert(is_digit(s[i]));
            if stop {
                assert(!is_digit(s[i]));
            } else {
                assert(i == s.len());
                assert(run_end <= s.len());
            }
            assert(false);
        }
        if i > run_end {
            assert(run_end < s.len());
            assert(!is_digit(s[run_end]));
            assert(is_digit(s[run_end]));
            assert(false);
        }
    }
    assert(digits_val(s.subrange(run_start, i)) == mag_of(v));
}

/// The shape of a printed bounding box: its two integers stand at
/// fixed offsets from the key literals around them.
proof fn lemma_bbox_json_shape(y: int, h: int)
    ensures
        bbox_json(y, h).len() == 16 + int_dec(y).len() + int_dec(h).len(),
        int_at(bbox_json(y, h), 5, y),
        int_at(bbox_json(y, h), 15 + int_dec(y).len() as int, h),
{
    reveal_strlit("{\"y\":");
    reveal_strlit(",\"height\":");
    reveal_strlit("}");
    let s = bbox_json(y, h);
    let ly = int_dec(y).len() as int;
    let lh = int_dec(h).len() as int;
    assert("{\"y\":"@.len() == 5);
    assert(",\"height\":"@.len() == 10);
    assert("}"@.len() == 1);
    assert(s.len() == 16 + ly + lh);
    assert(s.subrange(5, 5 + ly) =~= int_dec(y));
    assert(s[5 + ly] == ',');
    assert(!is_digit(','));
    assert(s.subrange(15 + ly, 15 + ly + lh) =~= int_dec(h));
    assert(s[15 + ly + lh] == '}');
    assert(!is_digit('}'));
}

fn scan_bbox(s: &String) -> (r: Option<BoundingBox>)
    ensures
        forall|y: i64, h: i64|
            s@ == #[trigger] bbox_json(y as int, h as int) ==> r == Some(
                BoundingBox { y, height: h },
            ),
{
    let n = s.as_str().unicode_len();
    if n < 5 {
        proof {
            assert forall|y: i64, h: i64|
                s@ != #[trigger] bbox_json(y as int, h as int) by {
                if s@ == bbox_json(y as int, h as int) {
                    lemma_bbox_json_shape(y as int, h as int);
                }
            }
        }
        return None;
    }
    let scanned_y = scan_i64(s, 5);
    let (y, after_y) = match scanned_y {
        Some(p) => p,
        None => {
            proof {
                assert forall|y: i64, h: i64|
                    s@ != #[trigger] bbox_json(y as int, h as int) by {
                    if s@ == bbox_json(y as int, h as int) {
                        lemma_bbox_json_shape(y as int, h as int);
                        assert(int_at(s@, 5, y as int));
                    }
                }
            }
            return None;
        },
    };
    if n - after_y < 10 {
        proof {
            assert forall|y2: i64, h2: i64|
                s@ != #[trigger] bbox_json(y2 as int, h2 as int) by {
                if s@ == bbox_json(y2 as int, h2 as int) {
                    lemma_bbox_json_shape(y2 as int, h2 as int);
                    assert(int_at(s@, 5, y2 as int));
                    assert(after_y == 5 + int_dec(y2 as int).len());
                    lemma_dec_digits_are_digits(mag_of(h2 as int));
                }
            }
        }
        return None;
    }
    let scanned_h = scan_i64(s, after_y + 10);
    let (h, _after_h) = match scanned_h {
        Some(p) => p,
        None => {
            proof {
                assert forall|y2: i64, h2: i64|
                    s@ != #[trigger] bbox_json(y2 as int, h2 as int) by {
                    if s@ == bbox_json(y2 as int, h2 as int) {
                        lemma_bbox_json_shape(y2 as int, h2 as int);
                        assert(int_at(s@, 5, y2 as int));
                        assert(after_y == 5 + int_dec(y2 as int).len());
                        assert(int_at(s@, after_y + 10, h2 as int));
                    }
                }
            }
            return None;
        },
    };
    proof {
        assert forall|y2: i64, h2: i64|
            s@ == #[trigger] bbox_json(y2 as int, h2 as int) implies Some(
            BoundingBox { y, height: h },
        ) == Some(BoundingBox { y: y2, height: h2 }) by {
            lemma_bbox_json_shape(y2 as int, h2 as int);
            assert(int_at(s@, 5, y2 as int));
            assert(y == y2);
            assert(after_y == 5 + int_dec(y2 as int).len());
            assert(int_at(s@, after_y + 10, h2 as int));
            assert(h == h2);
        }
    }
    Some(BoundingBox { y, height: h })
}

/// Parses a bounding box from JSON text.  Exactly the canonically
/// rendered boxes are accepted: a returned box re-prints to the input,
/// and every input that is the rendering of some box is accepted.
pub fn bbox_from_json(s: &String) -> (r: Option<BoundingBox>)
    ensures
        match r {
            Some(b) => s@ == bbox_json(b.y as int, b.height as int),
            None => true,
        },
        (exists|y: i64, h: i64| s@ == #[trigger] bbox_json(y as int, h as int)) ==> r is Some,
{
    match scan_bbox(s) {
        Some(b) => {
            let printed = bbox_to_json(&b);
            if printed == *s {
                Some(b)
            } else {
                proof {
                    if exists|y: i64, h: i64| s@ == #[trigger] bbox_json(y as int, h as int) {
                        let (y, h) = choose|y: i64, h: i64|
                            s@ == #[trigger] bbox_json(y as int, h as int);
                        assert(b == BoundingBox { y, height: h });
                        assert(printed@ == s@);
                        assert(false);
                    }
                }
                None
            }
        },
        None => {
            proof {
                if exists|y: i64, h: i64| s@ == #[trigger] bbox_json(y as int, h as int) {
                    let (y, h) = choose|y: i64, h: i64|
                        s@ == #[trigger] bbox_json(y as int, h as int);
                    assert(false);
                }
            }
            None
        },
    }
}

} // verus!
