//! The files of a skeleton in the order they are rendered: every file but `.DS_Store`, sorted
//! as `Path`s sort.

use vstd::prelude::*;

use crate::new::last_component;
use crate::new::last_component_range;
use crate::text::chars_eq;
use crate::text::chars_of;
use crate::text::texts;
use vstd::slice::slice_subrange;

verus! {

/// Where a character sorts in a path: `/` before every other character, the others by code
/// point.
pub open spec fn path_rank(c: char) -> int {
    if c == '/' {
        -1
    } else {
        c as int
    }
}

/// `a` sorts before `b` as `Path`s do, part by part with a part before every longer part it
/// begins: so characters compare by [`path_rank`], and a proper prefix comes first.
pub open spec fn path_less(a: Seq<char>, b: Seq<char>) -> bool
    decreases a.len(),
{
    if a.len() == 0 {
        b.len() > 0
    } else if b.len() == 0 {
        false
    } else if a[0] != b[0] {
        path_rank(a[0]) < path_rank(b[0])
    } else {
        path_less(a.skip(1), b.skip(1))
    }
}

/// Every path of `s` sorts before the ones after it: sorted, with nothing twice.
pub open spec fn path_sorted(s: Seq<Seq<char>>) -> bool {
    forall|i: int, j: int| 0 <= i < j < s.len() ==> path_less(s[i], s[j])
}

/// A skeleton file that is rendered: any but one named `.DS_Store`.
pub open spec fn listed(p: Seq<char>) -> bool {
    last_component(p) != ".DS_Store"@
}

proof fn lemma_path_rank(c: char, d: char)
    ensures
        c != d ==> path_rank(c) != path_rank(d),
        c != '/' && d != '/' ==> (c < d <==> path_rank(c) < path_rank(d)),
        c == '/' && d != '/' ==> path_rank(c) < path_rank(d),
{
    vstd::utf8::char_u32_cast(c, c as u32);
    vstd::utf8::char_u32_cast(d, d as u32);
}

proof fn lemma_path_less_irreflexive(a: Seq<char>)
    ensures
        !path_less(a, a),
    decreases a.len(),
{
    if a.len() > 0 {
        lemma_path_less_irreflexive(a.skip(1));
    }
}

proof fn lemma_path_less_transitive(a: Seq<char>, b: Seq<char>, c: Seq<char>)
    requires
        path_less(a, b),
        path_less(b, c),
    ensures
        path_less(a, c),
    decreases a.len(),
{
    if a.len() > 0 && b.len() > 0 && c.len() > 0 && a[0] == b[0] && b[0] == c[0] {
        lemma_path_less_transitive(a.skip(1), b.skip(1), c.skip(1));
    }
}

proof fn lemma_path_less_total(a: Seq<char>, b: Seq<char>)
    ensures
        a == b || path_less(a, b) || path_less(b, a),
    decreases a.len(),
{
    if a.len() > 0 && b.len() > 0 {
        lemma_path_rank(a[0], b[0]);
        if a[0] == b[0] {
            lemma_path_less_total(a.skip(1), b.skip(1));
            if a.skip(1) == b.skip(1) {
                assert(a =~= seq![a[0]] + a.skip(1));
                assert(b =~= seq![b[0]] + b.skip(1));
            }
        }
    } else if a.len() == 0 && b.len() == 0 {
        assert(a =~= b);
    }
}

proof fn lemma_path_less_asymmetric(a: Seq<char>, b: Seq<char>)
    requires
        path_less(a, b),
    ensures
        !path_less(b, a),
{
    if path_less(b, a) {
        lemma_path_less_transitive(a, b, a);
        lemma_path_less_irreflexive(a);
    }
}

/// Whether the path `a` sorts before the path `b`.
pub fn path_before(a: &[char], b: &[char]) -> (r: bool)
    ensures
        r == path_less(a@, b@),
{
    let mut i: usize = 0;
    assert(a@.skip(0) =~= a@);
    assert(b@.skip(0) =~= b@);
    while i < a.len() && i < b.len() && a[i] == b[i]
        invariant
            i <= a@.len(),
            i <= b@.len(),
            path_less(a@.skip(i as int), b@.skip(i as int)) == path_less(a@, b@),
        decreases a@.len() - i,
    {
        assert(a@.skip(i as int).skip(1) =~= a@.skip(i + 1));
        assert(b@.skip(i as int).skip(1) =~= b@.skip(i + 1));
        i = i + 1;
    }
    if i < a.len() && i < b.len() {
        proof {
            lemma_path_rank(a@[i as int], b@[i as int]);
            lemma_path_rank(b@[i as int], a@[i as int]);
            assert(a@.skip(i as int)[0] == a@[i as int]);
            assert(b@.skip(i as int)[0] == b@[i as int]);
        }
    }
    if i == a.len() {
        i < b.len()
    } else if i == b.len() {
        false
    } else if a[i] == '/' {
        true
    } else if b[i] == '/' {
        false
    } else {
        a[i] < b[i]
    }
}

/// Puts the path `x` into the path-sorted `v`, unless it is there already.
fn insert_path(v: &mut Vec<String>, x: String)
    requires
        path_sorted(texts(old(v)@)),
    ensures
        path_sorted(texts(final(v)@)),
        texts(final(v)@).to_set() == texts(old(v)@).to_set().insert(x@),
{
    let xs = chars_of(x.as_str());
    let ghost s = texts(v@);
    let mut i: usize = 0;
    while i < v.len()
        invariant
            s == texts(v@),
            xs@ == x@,
            path_sorted(s),
            i <= v@.len(),
            forall|j: int| 0 <= j < i ==> path_less(#[trigger] s[j], x@),
        ensures
            s == texts(v@),
            i <= v@.len(),
            forall|j: int| 0 <= j < i ==> path_less(#[trigger] s[j], x@),
            i < v@.len() ==> !path_less(s[i as int], x@) && s[i as int] != x@,
        decreases v@.len() - i,
    {
        let here = chars_of(v[i].as_str());
        assert(here@ == s[i as int]);
        if chars_eq(here.as_slice(), xs.as_slice()) {
            assert(s.to_set().insert(x@) =~= s.to_set()) by {
                assert(s.contains(x@)) by {
                    assert(s[i as int] == x@);
                }
            }
            return ;
        }
        if !path_before(here.as_slice(), xs.as_slice()) {
            break;
        }
        i = i + 1;
    }
    proof {
        if i < s.len() {
            lemma_path_less_total(s[i as int], x@);
        }
    }
    let ghost at = i;
    v.insert(i, x);
    let ghost t = texts(v@);
    assert(t =~= s.insert(at as int, x@));
    assert forall|a: int, b: int| 0 <= a < b < t.len() implies path_less(t[a], t[b]) by {
        if b < at {
        } else if a < at && b == at {
        } else if a < at && b > at {
            if at < b - 1 {
                lemma_path_less_transitive(x@, s[at as int], s[b - 1]);
            }
            lemma_path_less_transitive(s[a], x@, s[b - 1]);
        } else if a == at {
            if at < b - 1 {
                lemma_path_less_transitive(x@, s[at as int], s[b - 1]);
            }
        } else {
        }
    }
    assert(t.to_set() =~= s.to_set().insert(x@)) by {
        assert forall|e: Seq<char>| t.to_set().contains(e) <==> s.to_set().insert(x@).contains(e) by {
            if t.contains(e) {
                let w = choose|w: int| 0 <= w < t.len() && t[w] == e;
                if w < at {
                    assert(s[w] == e);
                } else if w > at {
                    assert(s[w - 1] == e);
                }
            }
            if s.contains(e) {
                let w = choose|w: int| 0 <= w < s.len() && s[w] == e;
                if w < at {
                    assert(t[w] == e);
                } else {
                    assert(t[w + 1] == e);
                }
            }
            if e == x@ {
                assert(t[at as int] == e);
            }
        }
    }
}

/// The skeleton files to render, from every file found under the skeleton (paths relative to
/// it): all but those named `.DS_Store`, sorted as `Path`s sort.
pub fn skeleton_listing(paths: Vec<String>) -> (r: Vec<String>)
    ensures
        path_sorted(texts(r@)),
        texts(r@).to_set() == texts(paths@).to_set().filter(|p: Seq<char>| listed(p)),
{
    let ghost all = texts(paths@);
    let ds = chars_of(".DS_Store");
    let mut out: Vec<String> = Vec::new();
    let mut k: usize = 0;
    assert(texts(out@).to_set() =~= all.take(0).to_set().filter(|p: Seq<char>| listed(p)));
    while k < paths.len()
        invariant
            all == texts(paths@),
            ds@ == ".DS_Store"@,
            k <= paths@.len(),
            path_sorted(texts(out@)),
            texts(out@).to_set() == all.take(k as int).to_set().filter(|p: Seq<char>| listed(p)),
        decreases paths@.len() - k,
    {
        let ghost before = texts(out@).to_set();
        let cs = chars_of(paths[k].as_str());
        assert(cs@.take(cs@.len() as int) =~= cs@);
        let (a, b) = last_component_range(cs.as_slice(), cs.len());
        let name = slice_subrange(cs.as_slice(), a, b);
        let p = paths[k].clone();
        assert(p@ == all[k as int]);
        assert(all.take(k + 1) =~= all.take(k as int).push(p@));
        assert(all.take(k + 1).to_set() =~= all.take(k as int).to_set().insert(p@)) by {
            assert forall|e: Seq<char>|
                all.take(k + 1).to_set().contains(e) <==> all.take(k as int).to_set().insert(
                    p@,
                ).contains(e) by {
                let t1 = all.take(k + 1);
                let t0 = all.take(k as int);
                if t1.contains(e) {
                    let w = choose|w: int| 0 <= w < t1.len() && t1[w] == e;
                    if w < k {
                        assert(t0[w] == e);
                    }
                }
                if t0.contains(e) {
                    let w = choose|w: int| 0 <= w < t0.len() && t0[w] == e;
                    assert(t1[w] == e);
                }
                if e == p@ {
                    assert(t1[k as int] == e);
                }
            }
        }
        if chars_eq(name, ds.as_slice()) {
            assert(!listed(p@));
            assert(texts(out@).to_set() =~= all.take(k + 1).to_set().filter(
                |q: Seq<char>| listed(q),
            ));
        } else {
            assert(listed(p@));
            insert_path(&mut out, p);
            assert(texts(out@).to_set() =~= all.take(k + 1).to_set().filter(
                |q: Seq<char>| listed(q),
            ));
        }
        k = k + 1;
    }
    assert(all.take(k as int) =~= all);
    out
}

/// A set of paths has exactly one path-sorted listing, so [`skeleton_listing`] fixes its
/// result.
pub proof fn path_listing_is_unique(s: Seq<Seq<char>>, t: Seq<Seq<char>>)
    requires
        path_sorted(s),
        path_sorted(t),
        s.to_set() == t.to_set(),
    ensures
        s == t,
    decreases s.len(),
{
    if s.len() == 0 {
        if t.len() > 0 {
            assert(t.to_set().contains(t[0]));
        }
        assert(s =~= t);
    } else if t.len() == 0 {
        assert(s.to_set().contains(s[0]));
    } else {
        assert(t.to_set().contains(s[0]));
        assert(s.to_set().contains(t[0]));
        let k = choose|k: int| 0 <= k < t.len() && t[k] == s[0];
        let m = choose|m: int| 0 <= m < s.len() && s[m] == t[0];
        if k > 0 && m > 0 {
            assert(path_less(t[0], t[k]));
            assert(path_less(s[0], s[m]));
            lemma_path_less_asymmetric(t[0], s[0]);
        } else if k > 0 {
            assert(path_less(t[0], t[k]));
            lemma_path_less_irreflexive(t[0]);
        } else if m > 0 {
            assert(path_less(s[0], s[m]));
            lemma_path_less_irreflexive(s[0]);
        }
        assert(s[0] == t[0]);
        let s1 = s.skip(1);
        let t1 = t.skip(1);
        assert forall|e: Seq<char>| s1.to_set().contains(e) <==> t1.to_set().contains(e) by {
            if s1.contains(e) {
                let w = choose|w: int| 0 <= w < s1.len() && s1[w] == e;
                assert(path_less(s[0], s[w + 1]));
                assert(t.to_set().contains(e));
                let v = choose|v: int| 0 <= v < t.len() && t[v] == e;
                if v == 0 {
                    lemma_path_less_irreflexive(e);
                }
                assert(t1[v - 1] == e);
            }
            if t1.contains(e) {
                let w = choose|w: int| 0 <= w < t1.len() && t1[w] == e;
                assert(path_less(t[0], t[w + 1]));
                assert(s.to_set().contains(e));
                let v = choose|v: int| 0 <= v < s.len() && s[v] == e;
                if v == 0 {
                    lemma_path_less_irreflexive(e);
                }
                assert(s1[v - 1] == e);
            }
        }
        assert(s1.to_set() =~= t1.to_set());
        path_listing_is_unique(s1, t1);
        assert(s =~= seq![s[0]] + s1);
        assert(t =~= seq![t[0]] + t1);
    }
}

} // verus!
