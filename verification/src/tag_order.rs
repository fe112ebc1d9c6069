//! Tag names in dictionary order: the order in which the tag pattern lists the known
//! elements, so that it depends on which elements have a rule and not on the order their
//! rules were added.

use crate::text::{chars_equal, views};
use vstd::prelude::*;

verus! {

/// Whether `a` comes before `b` in dictionary order of their characters.
pub open spec fn lex_lt(a: Seq<char>, b: Seq<char>) -> bool
    decreases a.len(),
{
    if a.len() == 0 {
        b.len() > 0
    } else if b.len() == 0 {
        false
    } else if a[0] != b[0] {
        a[0] < b[0]
    } else {
        lex_lt(a.subrange(1, a.len() as int), b.subrange(1, b.len() as int))
    }
}

/// No text comes before itself.
pub proof fn lemma_lex_irreflexive(a: Seq<char>)
    ensures
        !lex_lt(a, a),
    decreases a.len(),
{
    if a.len() > 0 {
        lemma_lex_irreflexive(a.subrange(1, a.len() as int));
    }
}

/// Dictionary order is transitive.
pub proof fn lemma_lex_transitive(a: Seq<char>, b: Seq<char>, c: Seq<char>)
    requires
        lex_lt(a, b),
        lex_lt(b, c),
    ensures
        lex_lt(a, c),
    decreases a.len(),
{
    if a.len() > 0 && a[0] == b[0] && b[0] == c[0] {
        lemma_lex_transitive(
            a.subrange(1, a.len() as int),
            b.subrange(1, b.len() as int),
            c.subrange(1, c.len() as int),
        );
    }
}

/// Of two different texts, one comes before the other.
pub proof fn lemma_lex_total(a: Seq<char>, b: Seq<char>)
    requires
        a != b,
    ensures
        lex_lt(a, b) || lex_lt(b, a),
    decreases a.len(),
{
    if a.len() > 0 && b.len() > 0 && a[0] == b[0] {
        let ta = a.subrange(1, a.len() as int);
        let tb = b.subrange(1, b.len() as int);
        if ta == tb {
            assert(a =~= seq![a[0]] + ta);
            assert(b =~= seq![b[0]] + tb);
        }
        lemma_lex_total(ta, tb);
    } else if a.len() == 0 && b.len() == 0 {
        assert(a =~= b);
    }
}

/// Whether `a` comes before `b` in dictionary order.
pub fn chars_less(a: &[char], b: &[char]) -> (r: bool)
    ensures
        r == lex_lt(a@, b@),
{
    let mut i: usize = 0;
    assert(a@.subrange(0, a@.len() as int) =~= a@);
    assert(b@.subrange(0, b@.len() as int) =~= b@);
    while i < a.len() && i < b.len()
        invariant
            i <= a@.len(),
            i <= b@.len(),
            lex_lt(a@, b@) == lex_lt(
                a@.subrange(i as int, a@.len() as int),
                b@.subrange(i as int, b@.len() as int),
            ),
        decreases a@.len() - i,
    {
        let ghost ta = a@.subrange(i as int, a@.len() as int);
        let ghost tb = b@.subrange(i as int, b@.len() as int);
        assert(ta[0] == a@[i as int] && tb[0] == b@[i as int]);
        if a[i] != b[i] {
            return a[i] < b[i];
        }
        assert(ta.subrange(1, ta.len() as int) =~= a@.subrange(i + 1, a@.len() as int));
        assert(tb.subrange(1, tb.len() as int) =~= b@.subrange(i + 1, b@.len() as int));
        i = i + 1;
    }
    i < b.len()
}

/// Each text comes before every later one.
pub open spec fn strictly_sorted(s: Seq<Seq<char>>) -> bool {
    forall|i: int, j: int| 0 <= i < j < s.len() ==> lex_lt(#[trigger] s[i], #[trigger] s[j])
}

/// `t` put into the sorted `s` at its place, unless `s` holds it already.
pub open spec fn sorted_insert(s: Seq<Seq<char>>, t: Seq<char>) -> Seq<Seq<char>>
    decreases s.len(),
{
    if s.len() == 0 {
        seq![t]
    } else if s[0] == t {
        s
    } else if lex_lt(t, s[0]) {
        seq![t] + s
    } else {
        seq![s[0]] + sorted_insert(s.subrange(1, s.len() as int), t)
    }
}

/// The different tags in dictionary order.
pub open spec fn sorted_tags(tags: Seq<Seq<char>>) -> Seq<Seq<char>>
    decreases tags.len(),
{
    if tags.len() == 0 {
        Seq::empty()
    } else {
        sorted_insert(sorted_tags(tags.drop_last()), tags.last())
    }
}

/// Inserting keeps the order and adds `t` to what the sequence holds.
proof fn lemma_sorted_insert(s: Seq<Seq<char>>, t: Seq<char>)
    requires
        strictly_sorted(s),
    ensures
        strictly_sorted(sorted_insert(s, t)),
        forall|x: Seq<char>| #[trigger] sorted_insert(s, t).contains(x) <==> (s.contains(x) || x
            == t),
    decreases s.len(),
{
    let r = sorted_insert(s, t);
    if s.len() == 0 {
        assert forall|x: Seq<char>| #[trigger] r.contains(x) <==> (s.contains(x) || x == t) by {
            if x == t {
                assert(r[0] == t);
            }
        }
    } else if s[0] == t {
        assert(s.contains(s[0]));
    } else if lex_lt(t, s[0]) {
        assert forall|i: int, j: int| 0 <= i < j < r.len() implies lex_lt(
            #[trigger] r[i],
            #[trigger] r[j],
        ) by {
            if i == 0 {
                if j > 1 {
                    assert(lex_lt(s[0], s[j - 1]));
                    lemma_lex_transitive(t, s[0], s[j - 1]);
                }
            } else {
                assert(r[i] == s[i - 1] && r[j] == s[j - 1]);
            }
        }
        assert forall|x: Seq<char>| #[trigger] r.contains(x) <==> (s.contains(x) || x == t) by {
            if r.contains(x) {
                let k = choose|k: int| 0 <= k < r.len() && r[k] == x;
                if k > 0 {
                    assert(s[k - 1] == x);
                }
            }
            if s.contains(x) {
                let k = choose|k: int| 0 <= k < s.len() && s[k] == x;
                assert(r[k + 1] == x);
            }
            if x == t {
                assert(r[0] == t);
            }
        }
    } else {
        let rest = s.subrange(1, s.len() as int);
        assert(strictly_sorted(rest)) by {
            assert forall|i: int, j: int| 0 <= i < j < rest.len() implies lex_lt(
                #[trigger] rest[i],
                #[trigger] rest[j],
            ) by {
                assert(rest[i] == s[i + 1] && rest[j] == s[j + 1]);
            }
        }
        lemma_sorted_insert(rest, t);
        lemma_lex_total(s[0], t);
        let tail = sorted_insert(rest, t);
        assert(r == seq![s[0]] + tail);
        assert forall|x: Seq<char>| #[trigger] tail.contains(x) implies lex_lt(s[0], x) by {
            if x != t {
                assert(rest.contains(x));
                let k = choose|k: int| 0 <= k < rest.len() && rest[k] == x;
                assert(s[k + 1] == x);
            }
        }
        assert forall|i: int, j: int| 0 <= i < j < r.len() implies lex_lt(
            #[trigger] r[i],
            #[trigger] r[j],
        ) by {
            assert(r[j] == tail[j - 1]);
            if i == 0 {
                assert(tail.contains(tail[j - 1]));
            } else {
                assert(r[i] == tail[i - 1]);
            }
        }
        assert forall|x: Seq<char>| #[trigger] r.contains(x) <==> (s.contains(x) || x == t) by {
            if r.contains(x) {
                let k = choose|k: int| 0 <= k < r.len() && r[k] == x;
                if k > 0 {
                    assert(tail[k - 1] == x);
                    assert(tail.contains(x));
                    if x != t {
                        let q = choose|q: int| 0 <= q < rest.len() && rest[q] == x;
                        assert(s[q + 1] == x);
                    }
                } else {
                    assert(s[0] == x);
                }
            }
            if s.contains(x) {
                let k = choose|k: int| 0 <= k < s.len() && s[k] == x;
                if k == 0 {
                    assert(r[0] == x);
                } else {
                    assert(rest[k - 1] == x);
                    assert(tail.contains(x));
                    let q = choose|q: int| 0 <= q < tail.len() && tail[q] == x;
                    assert(r[q + 1] == x);
                }
            }
            if x == t {
                assert(tail.contains(t));
                let q = choose|q: int| 0 <= q < tail.len() && tail[q] == t;
                assert(r[q + 1] == t);
            }
        }
    }
}

/// The sorted tags are in order and hold exactly the tags.
pub proof fn lemma_sorted_tags(tags: Seq<Seq<char>>)
    ensures
        strictly_sorted(sorted_tags(tags)),
        forall|x: Seq<char>| #[trigger] sorted_tags(tags).contains(x) <==> tags.contains(x),
    decreases tags.len(),
{
    if tags.len() > 0 {
        let init = tags.drop_last();
        lemma_sorted_tags(init);
        lemma_sorted_insert(sorted_tags(init), tags.last());
        assert forall|x: Seq<char>| #[trigger] sorted_tags(tags).contains(x) <==> tags.contains(
            x,
        ) by {
            if init.contains(x) {
                let k = choose|k: int| 0 <= k < init.len() && init[k] == x;
                assert(tags[k] == x);
            }
            if tags.contains(x) {
                let k = choose|k: int| 0 <= k < tags.len() && tags[k] == x;
                if k < tags.len() - 1 {
                    assert(init[k] == x);
                }
            }
        }
    }
}

/// Two sequences in strict order that hold the same texts are the same.
pub proof fn lemma_sorted_unique(s1: Seq<Seq<char>>, s2: Seq<Seq<char>>)
    requires
        strictly_sorted(s1),
        strictly_sorted(s2),
        forall|x: Seq<char>| s1.contains(x) <==> s2.contains(x),
    ensures
        s1 == s2,
    decreases s1.len(),
{
    if s1.len() == 0 {
        if s2.len() > 0 {
            assert(s2.contains(s2[0]));
        }
        assert(s1 =~= s2);
    } else {
        assert(s1.contains(s1[0]));
        assert(s2.len() > 0);
        assert(s2.contains(s2[0]));
        if s1[0] != s2[0] {
            let j = choose|j: int| 0 <= j < s2.len() && s2[j] == s1[0];
            let i = choose|i: int| 0 <= i < s1.len() && s1[i] == s2[0];
            assert(lex_lt(s2[0], s2[j]));
            assert(lex_lt(s1[0], s1[i]));
            lemma_lex_transitive(s1[0], s2[0], s1[0]);
            lemma_lex_irreflexive(s1[0]);
        }
        let t1 = s1.subrange(1, s1.len() as int);
        let t2 = s2.subrange(1, s2.len() as int);
        assert(strictly_sorted(t1)) by {
            assert forall|i: int, j: int| 0 <= i < j < t1.len() implies lex_lt(
                #[trigger] t1[i],
                #[trigger] t1[j],
            ) by {
                assert(t1[i] == s1[i + 1] && t1[j] == s1[j + 1]);
            }
        }
        assert(strictly_sorted(t2)) by {
            assert forall|i: int, j: int| 0 <= i < j < t2.len() implies lex_lt(
                #[trigger] t2[i],
                #[trigger] t2[j],
            ) by {
                assert(t2[i] == s2[i + 1] && t2[j] == s2[j + 1]);
            }
        }
        assert forall|x: Seq<char>| t1.contains(x) <==> t2.contains(x) by {
            lemma_lex_irreflexive(s1[0]);
            if t1.contains(x) {
                let k = choose|k: int| 0 <= k < t1.len() && t1[k] == x;
                assert(s1[k + 1] == x);
                assert(lex_lt(s1[0], s1[k + 1]));
                assert(s2.contains(x));
                let q = choose|q: int| 0 <= q < s2.len() && s2[q] == x;
                if q == 0 {
                    assert(x == s1[0]);
                } else {
                    assert(t2[q - 1] == x);
                }
            }
            if t2.contains(x) {
                let k = choose|k: int| 0 <= k < t2.len() && t2[k] == x;
                assert(s2[k + 1] == x);
                assert(lex_lt(s2[0], s2[k + 1]));
                assert(s1.contains(x));
                let q = choose|q: int| 0 <= q < s1.len() && s1[q] == x;
                if q == 0 {
                    assert(x == s2[0]);
                } else {
                    assert(t1[q - 1] == x);
                }
            }
        }
        lemma_sorted_unique(t1, t2);
        assert(s1 =~= seq![s1[0]] + t1);
        assert(s2 =~= seq![s2[0]] + t2);
    }
}

/// Tags that hold the same names sort the same, whatever their order and repeats.
pub proof fn lemma_sorted_tags_order_free(tags1: Seq<Seq<char>>, tags2: Seq<Seq<char>>)
    requires
        forall|x: Seq<char>| tags1.contains(x) <==> tags2.contains(x),
    ensures
        sorted_tags(tags1) == sorted_tags(tags2),
{
    lemma_sorted_tags(tags1);
    lemma_sorted_tags(tags2);
    lemma_sorted_unique(sorted_tags(tags1), sorted_tags(tags2));
}

/// Puts `t` into the sorted `names` at its place, unless it is there already.
pub fn insert_sorted(names: &mut Vec<Vec<char>>, t: Vec<char>)
    ensures
        views(final(names)@) == sorted_insert(views(old(names)@), t@),
{
    let ghost s = views(names@);
    let mut p: usize = 0;
    assert(s.take(0) + s.skip(0) =~= s);
    while p < names.len()
        invariant
            p <= names@.len(),
            s == views(old(names)@),
            views(names@) == s,
            sorted_insert(s, t@) == s.take(p as int) + sorted_insert(s.skip(p as int), t@),
        decreases names@.len() - p,
    {
        let ghost k = s.skip(p as int);
        assert(k[0] == names@[p as int]@);
        if chars_equal(names[p].as_slice(), t.as_slice()) {
            assert(s.take(p as int) + k =~= s);
            return;
        }
        if chars_less(t.as_slice(), names[p].as_slice()) {
            let ghost tv = t@;
            names.insert(p, t);
            assert(views(names@) =~= s.take(p as int) + (seq![tv] + k));
            return;
        }
        assert(k.subrange(1, k.len() as int) =~= s.skip(p + 1));
        assert(s.take(p as int) + (seq![k[0]] + s.skip(p + 1)) =~= s.take(p + 1) + s.skip(p + 1));
        p = p + 1;
    }
    let ghost tv = t@;
    assert(s.skip(p as int) =~= Seq::<Seq<char>>::empty());
    assert(s.take(p as int) =~= s);
    names.push(t);
    assert(views(names@) =~= s + seq![tv]);
}

} // verus!
