//! Character-level helpers over `String` and `&str`, each with its exact effect on the views.

use vstd::prelude::*;
use vstd::utf8::decode_utf8;
use vstd::utf8::valid_utf8;

verus! {

/// `String::push`: appends one character.
#[verifier::external_body]
pub(crate) fn push_char(s: &mut String, c: char)
    ensures
        final(s)@ == old(s)@.push(c),
{
    s.push(c)
}

/// The character sequences of a list of strings.
pub open spec fn texts(v: Seq<String>) -> Seq<Seq<char>> {
    v.map_values(|s: String| s@)
}

/// The characters of `s`, in order.
pub fn chars_of(s: &str) -> (r: Vec<char>)
    ensures
        r@ == s@,
{
    let mut out: Vec<char> = Vec::new();
    for c in it: s.chars()
        invariant
            out@ == it.seq().take(it.index() as int),
    {
        out.push(c);
    }
    out
}

/// A `String` holding exactly the characters `cs`.
pub fn string_of(cs: &[char]) -> (r: String)
    ensures
        r@ == cs@,
{
    let mut out = String::new();
    let mut i: usize = 0;
    while i < cs.len()
        invariant
            i <= cs@.len(),
            out@ == cs@.take(i as int),
        decreases cs@.len() - i,
    {
        push_char(&mut out, cs[i]);
        i = i + 1;
        assert(out@ =~= cs@.take(i as int));
    }
    assert(cs@.take(i as int) =~= cs@);
    out
}

/// The decimal digit character of `d` (for `d < 10`).
pub open spec fn digit_char(d: nat) -> char {
    ((d + 48) as u32) as char
}

/// The decimal representation of `n`, without sign or leading zeros.
pub open spec fn decimal(n: nat) -> Seq<char>
    decreases n,
{
    if n < 10 {
        seq![digit_char(n)]
    } else {
        decimal(n / 10).push(digit_char(n % 10))
    }
}

/// Appends the decimal representation of `n`.
pub fn push_decimal(out: &mut String, n: u64)
    ensures
        final(out)@ == old(out)@ + decimal(n as nat),
    decreases n,
{
    if n >= 10 {
        push_decimal(out, n / 10);
    }
    let d: u32 = (n % 10) as u32;
    let c: char = if d == 0 { '0' } else if d == 1 { '1' } else if d == 2 { '2' } else if d == 3 {
        '3'
    } else if d == 4 { '4' } else if d == 5 { '5' } else if d == 6 { '6' } else if d == 7 {
        '7'
    } else if d == 8 { '8' } else { '9' };
    push_char(out, c);
}

/// What `format!("{:?}", s)` gives for a string: the quoted, escaped form that
/// `<str as Debug>::fmt` writes.
pub uninterp spec fn debug_str(s: Seq<char>) -> Seq<char>;

/// A character `Debug` writes as itself inside a quoted string: printable ASCII other than
/// the quotes and the backslash, which `char::escape_debug` escapes.
pub open spec fn debug_plain(c: char) -> bool {
    ' ' <= c && c <= '~' && c != '"' && c != '\\' && c != '\''
}

/// `<str as Debug>::fmt`, through `format!("{:?}", ..)`. The contract names the result
/// `debug_str` of the characters, and states the documented plain case: a string of such
/// characters is written between double quotes as it is. Other escapes are left unstated.
#[verifier::external_body]
pub(crate) fn debug_string(s: &str) -> (r: String)
    ensures
        r@ == debug_str(s@),
        (forall|i: int| 0 <= i < s@.len() ==> debug_plain(#[trigger] s@[i])) ==> r@ == seq!['"']
            + s@ + seq!['"'],
{
    format!("{:?}", s)
}

/// Whether two character sequences are equal.
pub fn chars_eq(a: &[char], b: &[char]) -> (r: bool)
    ensures
        r == (a@ == b@),
{
    if a.len() != b.len() {
        return false;
    }
    let mut i: usize = 0;
    while i < a.len()
        invariant
            a@.len() == b@.len(),
            i <= a@.len(),
            forall|k: int| 0 <= k < i ==> a@[k] == b@[k],
        decreases a@.len() - i,
    {
        if a[i] != b[i] {
            return false;
        }
        i = i + 1;
    }
    assert(a@ =~= b@);
    true
}

/// `p` occurs in `s` at position `i`.
pub open spec fn matches_at(s: Seq<char>, i: int, p: Seq<char>) -> bool {
    0 <= i && i + p.len() <= s.len() && s.subrange(i, i + p.len()) == p
}

/// `i` is the first position at which `p` occurs in `s`.
pub open spec fn is_first_match(s: Seq<char>, p: Seq<char>, i: int) -> bool {
    &&& matches_at(s, i, p)
    &&& forall|j: int| 0 <= j < i ==> !#[trigger] matches_at(s, j, p)
}

/// The first position at which `p` occurs in `s`, as `str::find` reports it (counted in
/// characters).
pub open spec fn first_match(s: Seq<char>, p: Seq<char>) -> Option<int> {
    if exists|i: int| is_first_match(s, p, i) {
        Some(choose|i: int| is_first_match(s, p, i))
    } else {
        None
    }
}

/// `p` occurs somewhere in `s`.
pub open spec fn occurs_in(s: Seq<char>, p: Seq<char>) -> bool {
    exists|i: int| matches_at(s, i, p)
}

pub proof fn lemma_first_match_is(s: Seq<char>, p: Seq<char>, i: int)
    requires
        is_first_match(s, p, i),
    ensures
        first_match(s, p) == Some(i),
{
    let c = choose|c: int| is_first_match(s, p, c);
    if c < i {
        assert(!matches_at(s, c, p));
    } else if c > i {
        assert(!matches_at(s, i, p));
    }
}

pub proof fn lemma_first_match_exists(s: Seq<char>, p: Seq<char>, i: int)
    requires
        matches_at(s, i, p),
    ensures
        first_match(s, p) is Some,
        first_match(s, p) matches Some(k) ==> k <= i && is_first_match(s, p, k),
    decreases i,
{
    if exists|j: int| 0 <= j < i && matches_at(s, j, p) {
        let j = choose|j: int| 0 <= j < i && matches_at(s, j, p);
        lemma_first_match_exists(s, p, j);
    } else {
        assert(is_first_match(s, p, i));
        lemma_first_match_is(s, p, i);
    }
}

pub proof fn lemma_occurs_iff_first(s: Seq<char>, p: Seq<char>)
    ensures
        occurs_in(s, p) <==> first_match(s, p) is Some,
        first_match(s, p) matches Some(k) ==> is_first_match(s, p, k),
{
    if occurs_in(s, p) {
        let i = choose|i: int| matches_at(s, i, p);
        lemma_first_match_exists(s, p, i);
    }
}

/// Whether `p` occurs in `cs` at position `i`.
pub fn match_at(cs: &[char], i: usize, p: &[char]) -> (r: bool)
    ensures
        r == matches_at(cs@, i as int, p@),
{
    if i > cs.len() || p.len() > cs.len() - i {
        return false;
    }
    let mut k: usize = 0;
    while k < p.len()
        invariant
            i + p@.len() <= cs@.len(),
            cs@.len() <= usize::MAX,
            k <= p@.len(),
            forall|j: int| 0 <= j < k ==> cs@[i + j] == p@[j],
        decreases p@.len() - k,
    {
        if cs[i + k] != p[k] {
            assert(cs@.subrange(i as int, i + p@.len())[k as int] != p@[k as int]);
            return false;
        }
        k = k + 1;
    }
    assert(cs@.subrange(i as int, i + p@.len()) =~= p@);
    true
}

/// The first position at or after `from` at which `p` occurs in `cs`.
pub fn find_from(cs: &[char], from: usize, p: &[char]) -> (r: Option<usize>)
    requires
        from <= cs@.len(),
    ensures
        r matches Some(k) ==> from <= k && first_match(cs@.skip(from as int), p@) == Some(
            k - from,
        ),
        r is None ==> first_match(cs@.skip(from as int), p@) is None,
{
    let ghost rest = cs@.skip(from as int);
    let mut i: usize = from;
    loop
        invariant_except_break
            rest == cs@.skip(from as int),
            from <= i <= cs@.len(),
            forall|j: int| 0 <= j < i - from ==> !#[trigger] matches_at(rest, j, p@),
        ensures
            rest == cs@.skip(from as int),
            i == cs@.len(),
            forall|j: int| 0 <= j <= i - from ==> !#[trigger] matches_at(rest, j, p@),
        decreases cs@.len() - i,
    {
        let here = match_at(cs, i, p);
        assert(matches_at(rest, i - from, p@) == here) by {
            if i + p@.len() <= cs@.len() {
                assert(rest.subrange(i - from, i - from + p@.len()) =~= cs@.subrange(
                    i as int,
                    i + p@.len(),
                ));
            }
        }
        if here {
            proof {
                assert(is_first_match(rest, p@, i - from));
                lemma_first_match_is(rest, p@, i - from);
            }
            return Some(i);
        }
        if i == cs.len() {
            break;
        }
        i = i + 1;
    }
    proof {
        assert forall|j: int| !#[trigger] matches_at(rest, j, p@) by {
            if 0 <= j && j + p@.len() <= rest.len() {
                assert(j <= i - from);
            }
        }
        lemma_occurs_iff_first(rest, p@);
    }
    None
}

/// Appends every character of `v` to `out`.
pub fn extend_chars(out: &mut Vec<char>, v: &[char])
    ensures
        final(out)@ == old(out)@ + v@,
{
    let mut k: usize = 0;
    while k < v.len()
        invariant
            k <= v@.len(),
            out@ == old(out)@ + v@.take(k as int),
        decreases v@.len() - k,
    {
        out.push(v[k]);
        assert(v@.take(k + 1) =~= v@.take(k as int).push(v@[k as int]));
        k = k + 1;
    }
    assert(v@.take(k as int) =~= v@);
}

/// `s` with every occurrence of `p` replaced by `v`, scanning from the left and never
/// letting two occurrences overlap, as `str::replace` does for a pattern that is not empty.
pub open spec fn replaced(s: Seq<char>, p: Seq<char>, v: Seq<char>) -> Seq<char>
    decreases s.len(),
{
    if s.len() == 0 {
        seq![]
    } else if p.len() > 0 && matches_at(s, 0, p) {
        v + replaced(s.skip(p.len() as int), p, v)
    } else {
        seq![s[0]] + replaced(s.skip(1), p, v)
    }
}

/// Every occurrence of the non-empty pattern `p` in `cs`, left to right and without overlap,
/// replaced by `v`.
pub fn replace_all(cs: &[char], p: &[char], v: &[char]) -> (r: Vec<char>)
    requires
        p@.len() > 0,
    ensures
        r@ == replaced(cs@, p@, v@),
{
    let mut out: Vec<char> = Vec::new();
    let mut i: usize = 0;
    assert(cs@.skip(0) =~= cs@);
    while i < cs.len()
        invariant
            p@.len() > 0,
            i <= cs@.len(),
            out@ + replaced(cs@.skip(i as int), p@, v@) == replaced(cs@, p@, v@),
        decreases cs@.len() - i,
    {
        let ghost rest = cs@.skip(i as int);
        let ghost before = out@;
        if match_at(cs, i, p) {
            assert(matches_at(rest, 0, p@)) by {
                assert(rest.subrange(0, p@.len() as int) =~= cs@.subrange(i as int, i + p@.len()));
            }
            assert(rest.skip(p@.len() as int) =~= cs@.skip(i + p@.len()));
            extend_chars(&mut out, v);
            assert(before + replaced(rest, p@, v@) =~= out@ + replaced(
                cs@.skip(i + p@.len()),
                p@,
                v@,
            ));
            i = i + p.len();
        } else {
            assert(!matches_at(rest, 0, p@)) by {
                if matches_at(rest, 0, p@) {
                    assert(rest.subrange(0, p@.len() as int) =~= cs@.subrange(
                        i as int,
                        i + p@.len(),
                    ));
                }
            }
            out.push(cs[i]);
            assert(rest.skip(1) =~= cs@.skip(i + 1));
            assert(before + replaced(rest, p@, v@) =~= out@ + replaced(cs@.skip(i + 1), p@, v@));
            i = i + 1;
        }
    }
    assert(cs@.skip(i as int) =~= Seq::<char>::empty());
    assert(out@ + Seq::<char>::empty() =~= out@);
    out
}

/// `s` without the newlines it ends with.
pub open spec fn without_trailing_newlines(s: Seq<char>) -> Seq<char>
    decreases s.len(),
{
    if s.len() > 0 && s.last() == '\n' {
        without_trailing_newlines(s.drop_last())
    } else {
        s
    }
}

/// What `String::from_utf8_lossy` gives for `bytes`: the decoded text, with U+FFFD for each
/// invalid sequence.
pub uninterp spec fn utf8_lossy(bytes: Seq<u8>) -> Seq<char>;

/// `String::from_utf8_lossy`. The contract names the result and states the documented case:
/// valid UTF-8 decodes to its characters. Where replacement characters go is left unstated.
#[verifier::external_body]
pub(crate) fn lossy_text(bytes: &[u8]) -> (r: String)
    ensures
        r@ == utf8_lossy(bytes@),
        valid_utf8(bytes@) ==> r@ == decode_utf8(bytes@),
{
    String::from_utf8_lossy(bytes).into_owned()
}

/// `String::from_utf8`: the text when `bytes` are valid UTF-8, else nothing.
#[verifier::external_body]
pub(crate) fn utf8_text(bytes: Vec<u8>) -> (r: Option<String>)
    ensures
        r is Some <==> valid_utf8(bytes@),
        r matches Some(s) ==> s@ == decode_utf8(bytes@),
{
    String::from_utf8(bytes).ok()
}

/// `items` joined with `sep` between them.
pub open spec fn joined_with(items: Seq<Seq<char>>, sep: Seq<char>) -> Seq<char>
    decreases items.len(),
{
    if items.len() == 0 {
        seq![]
    } else if items.len() == 1 {
        items[0]
    } else {
        joined_with(items.drop_last(), sep) + sep + items.last()
    }
}

/// The strings of `items` joined with `sep` between them.
pub fn join_strings(items: &Vec<String>, sep: &str) -> (r: String)
    ensures
        r@ == joined_with(texts(items@), sep@),
{
    let mut out = String::new();
    let mut i: usize = 0;
    while i < items.len()
        invariant
            i <= items@.len(),
            out@ == joined_with(texts(items@).take(i as int), sep@),
        decreases items@.len() - i,
    {
        if i > 0 {
            out.append(sep);
        }
        out.append(items[i].as_str());
        assert(texts(items@).take(i + 1).drop_last() =~= texts(items@).take(i as int));
        i = i + 1;
    }
    assert(texts(items@).take(i as int) =~= texts(items@));
    out
}

/// `s` with ASCII upper-case letters turned to lower case.
pub open spec fn ascii_lower(s: Seq<char>) -> Seq<char> {
    s.map_values(|c: char| if 'A' <= c && c <= 'Z' { ((c as u32) + 32) as char } else { c })
}

/// `s` with its ASCII upper-case letters turned to lower case, as `to_ascii_lowercase` does.
pub fn to_ascii_lower(s: &str) -> (r: String)
    ensures
        r@ == ascii_lower(s@),
{
    let cs = chars_of(s);
    let mut low: Vec<char> = Vec::new();
    let mut i: usize = 0;
    while i < cs.len()
        invariant
            cs@ == s@,
            i <= cs@.len(),
            low@ == ascii_lower(cs@.take(i as int)),
        decreases cs@.len() - i,
    {
        let c = cs[i];
        let l = if 'A' <= c && c <= 'Z' { ((c as u8) + 32) as char } else { c };
        low.push(l);
        assert(ascii_lower(cs@.take(i + 1)) =~= ascii_lower(cs@.take(i as int)).push(l));
        i = i + 1;
    }
    assert(cs@.take(i as int) =~= cs@);
    string_of(low.as_slice())
}

/// `a` sorts before `b`: the order of `String`'s `Ord`, which compares UTF-8 bytes and so
/// characters by code point, a proper prefix first.
pub open spec fn text_less(a: Seq<char>, b: Seq<char>) -> bool
    decreases a.len(),
{
    if a.len() == 0 {
        b.len() > 0
    } else if b.len() == 0 {
        false
    } else if a[0] != b[0] {
        a[0] < b[0]
    } else {
        text_less(a.skip(1), b.skip(1))
    }
}

pub proof fn lemma_text_less_irreflexive(a: Seq<char>)
    ensures
        !text_less(a, a),
    decreases a.len(),
{
    if a.len() > 0 {
        lemma_text_less_irreflexive(a.skip(1));
    }
}

pub proof fn lemma_text_less_transitive(a: Seq<char>, b: Seq<char>, c: Seq<char>)
    requires
        text_less(a, b),
        text_less(b, c),
    ensures
        text_less(a, c),
    decreases a.len(),
{
    if a.len() > 0 && b.len() > 0 && c.len() > 0 && a[0] == b[0] && b[0] == c[0] {
        lemma_text_less_transitive(a.skip(1), b.skip(1), c.skip(1));
    }
}

pub proof fn lemma_text_less_total(a: Seq<char>, b: Seq<char>)
    ensures
        a == b || text_less(a, b) || text_less(b, a),
    decreases a.len(),
{
    if a.len() > 0 && b.len() > 0 {
        if a[0] == b[0] {
            lemma_text_less_total(a.skip(1), b.skip(1));
            if a.skip(1) == b.skip(1) {
                assert(a =~= seq![a[0]] + a.skip(1));
                assert(b =~= seq![b[0]] + b.skip(1));
            }
        }
    } else if a.len() == 0 && b.len() == 0 {
        assert(a =~= b);
    }
}

proof fn lemma_text_less_asymmetric(a: Seq<char>, b: Seq<char>)
    requires
        text_less(a, b),
    ensures
        !text_less(b, a),
{
    if text_less(b, a) {
        lemma_text_less_transitive(a, b, a);
        lemma_text_less_irreflexive(a);
    }
}

/// Whether `a` sorts before `b` (see [`text_less`]).
pub fn chars_less(a: &[char], b: &[char]) -> (r: bool)
    ensures
        r == text_less(a@, b@),
{
    let mut i: usize = 0;
    assert(a@.skip(0) =~= a@);
    assert(b@.skip(0) =~= b@);
    while i < a.len() && i < b.len() && a[i] == b[i]
        invariant
            i <= a@.len(),
            i <= b@.len(),
            text_less(a@.skip(i as int), b@.skip(i as int)) == text_less(a@, b@),
        decreases a@.len() - i,
    {
        assert(a@.skip(i as int).skip(1) =~= a@.skip(i + 1));
        assert(b@.skip(i as int).skip(1) =~= b@.skip(i + 1));
        i = i + 1;
    }
    if i == a.len() {
        i < b.len()
    } else if i == b.len() {
        false
    } else {
        a[i] < b[i]
    }
}

/// Every element of `s` sorts before the ones after it: sorted, with nothing twice.
pub open spec fn strictly_sorted(s: Seq<Seq<char>>) -> bool {
    forall|i: int, j: int| 0 <= i < j < s.len() ==> text_less(s[i], s[j])
}

/// Puts `x` into the strictly sorted `v`, unless it is there already.
pub fn insert_sorted(v: &mut Vec<String>, x: String)
    requires
        strictly_sorted(texts(old(v)@)),
    ensures
        strictly_sorted(texts(final(v)@)),
        texts(final(v)@).to_set() == texts(old(v)@).to_set().insert(x@),
{
    let xs = chars_of(x.as_str());
    let ghost s = texts(v@);
    let mut i: usize = 0;
    while i < v.len()
        invariant
            s == texts(v@),
            xs@ == x@,
            strictly_sorted(s),
            i <= v@.len(),
            forall|j: int| 0 <= j < i ==> text_less(#[trigger] s[j], x@),
        ensures
            s == texts(v@),
            i <= v@.len(),
            forall|j: int| 0 <= j < i ==> text_less(#[trigger] s[j], x@),
            i < v@.len() ==> !text_less(s[i as int], x@) && s[i as int] != x@,
        decreases v@.len() - i,
    {
        let here = chars_of(v[i].as_str());
        assert(here@ == s[i as int]);
        if chars_eq(here.as_slice(), xs.as_slice()) {
            assert(s.to_set().insert(x@) =~= s.to_set()) by {
                assert(s.contains(x@)) by {
                    assert(s[i as int] == x@);
                }
            }
            return ;
        }
        if !chars_less(here.as_slice(), xs.as_slice()) {
            break;
        }
        i = i + 1;
    }
    proof {
        if i < s.len() {
            lemma_text_less_total(s[i as int], x@);
        }
    }
    let ghost at = i;
    v.insert(i, x);
    let ghost t = texts(v@);
    assert(t =~= s.insert(at as int, x@));
    assert forall|a: int, b: int| 0 <= a < b < t.len() implies text_less(t[a], t[b]) by {
        if b < at {
        } else if a < at && b == at {
        } else if a < at && b > at {
            if at < b - 1 {
                lemma_text_less_transitive(x@, s[at as int], s[b - 1]);
            }
            lemma_text_less_transitive(s[a], x@, s[b - 1]);
        } else if a == at {
            if at < b - 1 {
                lemma_text_less_transitive(x@, s[at as int], s[b - 1]);
            }
        } else {
        }
    }
    assert(t.to_set() =~= s.to_set().insert(x@)) by {
        assert forall|e: Seq<char>| t.to_set().contains(e) <==> s.to_set().insert(x@).contains(e) by {
            if t.contains(e) {
                let w = choose|w: int| 0 <= w < t.len() && t[w] == e;
                if w < at {
                    assert(s[w] == e);
                } else if w > at {
                    assert(s[w - 1] == e);
                }
            }
            if s.contains(e) {
                let w = choose|w: int| 0 <= w < s.len() && s[w] == e;
                if w < at {
                    assert(t[w] == e);
                } else {
                    assert(t[w + 1] == e);
                }
            }
            if e == x@ {
                assert(t[at as int] == e);
            }
        }
    }
}

/// Two strictly sorted sequences that hold the same texts are the same sequence: a set of
/// texts has exactly one sorted listing.
pub proof fn sorted_listing_is_unique(s: Seq<Seq<char>>, t: Seq<Seq<char>>)
    requires
        strictly_sorted(s),
        strictly_sorted(t),
        s.to_set() == t.to_set(),
    ensures
        s == t,
    decreases s.len(),
{
    if s.len() == 0 {
        if t.len() > 0 {
            assert(t.to_set().contains(t[0]));
        }
        assert(s =~= t);
    } else if t.len() == 0 {
        assert(s.to_set().contains(s[0]));
    } else {
        assert(t.to_set().contains(s[0]));
        assert(s.to_set().contains(t[0]));
        let k = choose|k: int| 0 <= k < t.len() && t[k] == s[0];
        let m = choose|m: int| 0 <= m < s.len() && s[m] == t[0];
        if k > 0 && m > 0 {
            assert(text_less(t[0], t[k]));
            assert(text_less(s[0], s[m]));
            lemma_text_less_asymmetric(t[0], s[0]);
        } else if k > 0 {
            assert(text_less(t[0], t[k]));
            lemma_text_less_irreflexive(t[0]);
        } else if m > 0 {
            assert(text_less(s[0], s[m]));
            lemma_text_less_irreflexive(s[0]);
        }
        assert(s[0] == t[0]);
        let s1 = s.skip(1);
        let t1 = t.skip(1);
        assert forall|e: Seq<char>| s1.to_set().contains(e) <==> t1.to_set().contains(e) by {
            if s1.contains(e) {
                let w = choose|w: int| 0 <= w < s1.len() && s1[w] == e;
                assert(text_less(s[0], s[w + 1]));
                assert(t.to_set().contains(e));
                let v = choose|v: int| 0 <= v < t.len() && t[v] == e;
                if v == 0 {
                    lemma_text_less_irreflexive(e);
                }
                assert(t1[v - 1] == e);
            }
            if t1.contains(e) {
                let w = choose|w: int| 0 <= w < t1.len() && t1[w] == e;
                assert(text_less(t[0], t[w + 1]));
                assert(s.to_set().contains(e));
                let v = choose|v: int| 0 <= v < s.len() && s[v] == e;
                if v == 0 {
                    lemma_text_less_irreflexive(e);
                }
                assert(s1[v - 1] == e);
            }
        }
        assert(s1.to_set() =~= t1.to_set());
        sorted_listing_is_unique(s1, t1);
        assert(s =~= seq![s[0]] + s1);
        assert(t =~= seq![t[0]] + t1);
    }
}


/// Unicode `White_Space`, the characters `str::trim` strips.
pub open spec fn white_space(c: char) -> bool {
    ||| ('\u{9}' <= c && c <= '\u{d}')
    ||| c == ' '
    ||| c == '\u{85}'
    ||| c == '\u{a0}'
    ||| c == '\u{1680}'
    ||| ('\u{2000}' <= c && c <= '\u{200a}')
    ||| c == '\u{2028}'
    ||| c == '\u{2029}'
    ||| c == '\u{202f}'
    ||| c == '\u{205f}'
    ||| c == '\u{3000}'
}

/// `s` without the white space it starts with.
pub open spec fn trim_start(s: Seq<char>) -> Seq<char>
    decreases s.len(),
{
    if s.len() > 0 && white_space(s[0]) {
        trim_start(s.skip(1))
    } else {
        s
    }
}

/// `s` without the white space it ends with.
pub open spec fn trim_end(s: Seq<char>) -> Seq<char>
    decreases s.len(),
{
    if s.len() > 0 && white_space(s.last()) {
        trim_end(s.drop_last())
    } else {
        s
    }
}

/// `s` without white space at either end, as `str::trim` leaves it.
pub open spec fn trimmed(s: Seq<char>) -> Seq<char> {
    trim_end(trim_start(s))
}

/// Whether `c` is white space.
pub fn is_white_space(c: char) -> (r: bool)
    ensures
        r == white_space(c),
{
    ('\u{9}' <= c && c <= '\u{d}') || c == ' ' || c == '\u{85}' || c == '\u{a0}' || c
        == '\u{1680}' || ('\u{2000}' <= c && c <= '\u{200a}') || c == '\u{2028}' || c
        == '\u{2029}' || c == '\u{202f}' || c == '\u{205f}' || c == '\u{3000}'
}

/// Where the trimmed part of `cs` lies in it.
pub fn trim_range(cs: &[char]) -> (r: (usize, usize))
    ensures
        r.0 <= r.1 <= cs@.len(),
        cs@.subrange(r.0 as int, r.1 as int) == trimmed(cs@),
{
    let mut a: usize = 0;
    assert(cs@.skip(0) =~= cs@);
    while a < cs.len() && is_white_space(cs[a])
        invariant
            a <= cs@.len(),
            trim_start(cs@) == trim_start(cs@.skip(a as int)),
        decreases cs@.len() - a,
    {
        assert(cs@.skip(a as int)[0] == cs@[a as int]);
        assert(cs@.skip(a as int).skip(1) =~= cs@.skip(a + 1));
        a = a + 1;
    }
    if a < cs.len() {
        assert(cs@.skip(a as int)[0] == cs@[a as int]);
    }
    assert(trim_start(cs@) == cs@.skip(a as int));
    let mut b: usize = cs.len();
    assert(cs@.skip(a as int) =~= cs@.subrange(a as int, b as int));
    while b > a && is_white_space(cs[b - 1])
        invariant
            a <= b <= cs@.len(),
            trim_start(cs@) == cs@.skip(a as int),
            trim_end(cs@.skip(a as int)) == trim_end(cs@.subrange(a as int, b as int)),
        decreases b,
    {
        assert(cs@.subrange(a as int, b as int).last() == cs@[b - 1]);
        assert(cs@.subrange(a as int, b as int).drop_last() =~= cs@.subrange(a as int, b - 1));
        b = b - 1;
    }
    if b > a {
        assert(cs@.subrange(a as int, b as int).last() == cs@[b - 1]);
    }
    (a, b)
}

} // verus!





