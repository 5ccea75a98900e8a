//! `pub new <kind> <component>`: a crate from the skeleton set, rendered in memory into
//! `crates/<CRATE_PREFIX>-<repo>-<component>/` of a repository.
//!
//! Text is substituted and written with exactly one trailing newline, a file that is not text
//! is copied byte for byte. A malformed component, an existing path or a placeholder this
//! library does not know refuses the run before a byte is written.

pub mod listing;
pub mod org;

use vstd::prelude::*;

use crate::catalog::lower_or_digit;
use crate::text::chars_eq;
use crate::text::chars_of;
use crate::text::find_from;
use crate::text::first_match;
use crate::text::lemma_occurs_iff_first;
use crate::text::matches_at;
use crate::text::occurs_in;
use crate::text::extend_chars;
use crate::text::replace_all;
use crate::text::replaced;
use crate::text::without_trailing_newlines;
use vstd::slice::slice_subrange;
use vstd::slice::slice_to_vec;
use vstd::utf8::decode_utf8;
use vstd::utf8::encode_utf8;
use vstd::utf8::valid_utf8;
use crate::text::string_of;
use crate::text::texts;
use crate::text::ascii_lower;
use crate::text::join_strings;
use crate::text::joined_with;
use crate::text::utf8_text;
use crate::text::lossy_text;
use crate::text::utf8_lossy;

verus! {

/// The templates repository, cloned when no templates path is given.
pub const TEMPLATES_URL: &'static str = "https://github.com/public-software/templates";

/// The ref of the templates repository the clone pins.
pub const TEMPLATES_REF: &'static str = "main";

/// A crate kind of the skeleton set.
#[derive(Clone, Copy, Debug, PartialEq, Eq)]
pub enum Kind {
    /// A library crate.
    Lib,
    /// A command; the binary is the component name.
    App,
    /// A daemon; the binary is `<DAEMON_PREFIX>-<component>`.
    Service,
    /// A `<WIT_NAMESPACE>:core` component (cdylib + rlib).
    Plugin,
    /// A specification with its conformance cases.
    Spec,
}

/// The name of a kind, as the skeleton directory and `CATALOG.toml` write it.
pub open spec fn kind_name(kind: Kind) -> Seq<char> {
    match kind {
        Kind::Lib => "lib"@,
        Kind::App => "app"@,
        Kind::Service => "service"@,
        Kind::Plugin => "plugin"@,
        Kind::Spec => "spec"@,
    }
}

impl Kind {
    /// The kind as the skeleton directory and `CATALOG.toml` name it.
    pub fn name(self) -> (r: &'static str)
        ensures
            r@ == kind_name(self),
    {
        match self {
            Kind::Lib => "lib",
            Kind::App => "app",
            Kind::Service => "service",
            Kind::Plugin => "plugin",
            Kind::Spec => "spec",
        }
    }
}

/// Lowercase words (`a-z`, `0-9`) joined by single hyphens.
pub open spec fn component_ok(s: Seq<char>) -> bool {
    &&& s.len() > 0
    &&& s[0] != '-'
    &&& s[s.len() - 1] != '-'
    &&& forall|i: int| 0 <= i < s.len() ==> lower_or_digit(#[trigger] s[i]) || s[i] == '-'
    &&& forall|i: int| 0 < i < s.len() ==> !(#[trigger] s[i] == '-' && s[i - 1] == '-')
}

/// A component is lowercase words joined by hyphens: `sched`, `boot-hello`.
pub fn component_is_well_formed(component: &str) -> (r: bool)
    ensures
        r == component_ok(component@),
{
    let cs = chars_of(component);
    let n = cs.len();
    if n == 0 || cs[0] == '-' || cs[n - 1] == '-' {
        return false;
    }
    let mut i: usize = 0;
    while i < n
        invariant
            cs@ == component@,
            n == cs@.len(),
            n > 0,
            cs@[0] != '-',
            cs@[n - 1] != '-',
            i <= n,
            forall|k: int| 0 <= k < i ==> lower_or_digit(#[trigger] cs@[k]) || cs@[k] == '-',
            forall|k: int| 0 < k < i ==> !(#[trigger] cs@[k] == '-' && cs@[k - 1] == '-'),
        decreases n - i,
    {
        let c = cs[i];
        if !(('a' <= c && c <= 'z') || ('0' <= c && c <= '9') || c == '-') {
            assert(!(lower_or_digit(cs@[i as int]) || cs@[i as int] == '-'));
            return false;
        }
        if i > 0 && c == '-' && cs[i - 1] == '-' {
            assert(cs@[i as int] == '-' && cs@[i - 1] == '-');
            return false;
        }
        i = i + 1;
    }
    true
}

/// `s` with every `-` turned into `_`.
pub open spec fn ident_of(s: Seq<char>) -> Seq<char> {
    s.map_values(|c: char| if c == '-' { '_' } else { c })
}

/// `s` with every `-` turned into `_`, as `str::replace('-', "_")` gives it.
pub fn to_ident(s: &str) -> (r: String)
    ensures
        r@ == ident_of(s@),
{
    let mut cs = chars_of(s);
    let mut i: usize = 0;
    while i < cs.len()
        invariant
            cs@.len() == s@.len(),
            i <= cs@.len(),
            forall|k: int| 0 <= k < i ==> cs@[k] == ident_of(s@)[k],
            forall|k: int| i <= k < cs@.len() ==> cs@[k] == s@[k],
        decreases cs@.len() - i,
    {
        if cs[i] == '-' {
            cs.set(i, '_');
        }
        i = i + 1;
    }
    assert(cs@ =~= ident_of(s@));
    string_of(cs.as_slice())
}

/// The placeholder vocabulary: the organization's names plus what the invocation determines,
/// as (name, value) pairs in this order.
pub open spec fn vocabulary(
    kind: Kind,
    repo: Seq<char>,
    component: Seq<char>,
    crate_name: Seq<char>,
) -> Seq<(Seq<char>, Seq<char>)> {
    seq![
        ("ORG"@, org::ORG@),
        ("ORG_DISPLAY_NAME"@, org::ORG_DISPLAY_NAME@),
        ("ORG_URL"@, org::ORG_URL@),
        ("CLI"@, org::CLI@),
        ("CRATE_PREFIX"@, org::CRATE_PREFIX@),
        ("DAEMON_PREFIX"@, org::DAEMON_PREFIX@),
        ("WIT_NAMESPACE"@, org::WIT_NAMESPACE@),
        ("MSRV"@, org::MSRV@),
        ("EDITION"@, org::EDITION@),
        ("LICENSE_SPDX"@, org::LICENSE_SPDX@),
        ("KIND"@, kind_name(kind)),
        ("REPO"@, repo),
        ("COMPONENT"@, component),
        ("COMPONENT_IDENT"@, ident_of(component)),
        ("CRATE"@, crate_name),
        ("CRATE_IDENT"@, ident_of(crate_name)),
    ]
}

/// The (name, value) pairs of a list of placeholder definitions.
pub open spec fn pairs(v: Seq<(&str, String)>) -> Seq<(Seq<char>, Seq<char>)> {
    v.map_values(|e: (&str, String)| (e.0@, e.1@))
}

/// The placeholder vocabulary: the organization's names plus what the invocation determines.
pub fn vars(kind: Kind, repo: &str, component: &str, crate_name: &str) -> (r: Vec<
    (&'static str, String),
>)
    ensures
        pairs(r@) == vocabulary(kind, repo@, component@, crate_name@),
{
    let mut v: Vec<(&'static str, String)> = Vec::new();
    v.push(("ORG", String::from_str(org::ORG)));
    v.push(("ORG_DISPLAY_NAME", String::from_str(org::ORG_DISPLAY_NAME)));
    v.push(("ORG_URL", String::from_str(org::ORG_URL)));
    v.push(("CLI", String::from_str(org::CLI)));
    v.push(("CRATE_PREFIX", String::from_str(org::CRATE_PREFIX)));
    v.push(("DAEMON_PREFIX", String::from_str(org::DAEMON_PREFIX)));
    v.push(("WIT_NAMESPACE", String::from_str(org::WIT_NAMESPACE)));
    v.push(("MSRV", String::from_str(org::MSRV)));
    v.push(("EDITION", String::from_str(org::EDITION)));
    v.push(("LICENSE_SPDX", String::from_str(org::LICENSE_SPDX)));
    v.push(("KIND", String::from_str(kind.name())));
    v.push(("REPO", String::from_str(repo)));
    v.push(("COMPONENT", String::from_str(component)));
    v.push(("COMPONENT_IDENT", to_ident(component)));
    v.push(("CRATE", String::from_str(crate_name)));
    v.push(("CRATE_IDENT", to_ident(crate_name)));
    assert(pairs(v@) =~= vocabulary(kind, repo@, component@, crate_name@));
    v
}

/// How a placeholder is written in a skeleton file: `{{NAME}}`.
pub open spec fn placeholder(name: Seq<char>) -> Seq<char> {
    "{{"@ + name + "}}"@
}

/// `text` with each placeholder of `vars` replaced by its value, one name after the other
/// in the order of `vars`.
pub open spec fn substituted(text: Seq<char>, vars: Seq<(Seq<char>, Seq<char>)>) -> Seq<char>
    decreases vars.len(),
{
    if vars.len() == 0 {
        text
    } else {
        replaced(substituted(text, vars.drop_last()), placeholder(vars.last().0), vars.last().1)
    }
}

/// The characters of `{{name}}`.
fn placeholder_chars(name: &str) -> (r: Vec<char>)
    ensures
        r@ == placeholder(name@),
        r@.len() > 0,
{
    let mut r = chars_of("{{");
    extend_chars(&mut r, chars_of(name).as_slice());
    extend_chars(&mut r, chars_of("}}").as_slice());
    proof {
        reveal_strlit("{{");
    }
    r
}

/// Replaces every `{{NAME}}` of `vars` in `text`, verbatim.
pub fn substitute(text: &str, vars: &[(&str, String)]) -> (r: String)
    ensures
        r@ == substituted(text@, pairs(vars@)),
{
    let mut cs = chars_of(text);
    let mut k: usize = 0;
    while k < vars.len()
        invariant
            k <= vars@.len(),
            cs@ == substituted(text@, pairs(vars@.take(k as int))),
        decreases vars@.len() - k,
    {
        let (name, value) = &vars[k];
        let pattern = placeholder_chars(name);
        let value_chars = chars_of(value.as_str());
        cs = replace_all(cs.as_slice(), pattern.as_slice(), value_chars.as_slice());
        assert(pairs(vars@.take(k + 1)).drop_last() =~= pairs(vars@.take(k as int)));
        assert(pairs(vars@.take(k + 1)).last() == (name@, value@));
        k = k + 1;
    }
    assert(vars@.take(k as int) =~= vars@);
    string_of(cs.as_slice())
}

/// `text` with exactly one trailing newline: the newlines it ends with are dropped and one
/// is added.
pub open spec fn normalized(text: Seq<char>) -> Seq<char> {
    without_trailing_newlines(text).push('\n')
}

/// Exactly one trailing newline, the way `printf '%s\n' "$(cat)"` writes a text.
pub fn normalize(text: &str) -> (r: String)
    ensures
        r@ == normalized(text@),
{
    let cs = chars_of(text);
    let mut end: usize = cs.len();
    assert(cs@.take(end as int) =~= cs@);
    while end > 0 && cs[end - 1] == '\n'
        invariant
            cs@ == text@,
            end <= cs@.len(),
            without_trailing_newlines(cs@.take(end as int)) == without_trailing_newlines(cs@),
        decreases end,
    {
        assert(cs@.take(end as int).drop_last() =~= cs@.take(end - 1));
        end = end - 1;
    }
    assert(without_trailing_newlines(cs@.take(end as int)) == cs@.take(end as int));
    let mut out: Vec<char> = Vec::new();
    extend_chars(&mut out, slice_subrange(cs.as_slice(), 0, end));
    out.push('\n');
    assert(cs@.take(end as int) =~= cs@.subrange(0, end as int));
    string_of(out.as_slice())
}

proof fn lemma_without_newlines_last(s: Seq<char>)
    ensures
        without_trailing_newlines(s).len() == 0 || without_trailing_newlines(s).last() != '\n',
        without_trailing_newlines(without_trailing_newlines(s)) == without_trailing_newlines(s),
    decreases s.len(),
{
    if s.len() > 0 && s.last() == '\n' {
        lemma_without_newlines_last(s.drop_last());
    }
}

/// A normalized text ends with exactly one newline, and normalizing it again changes nothing.
pub proof fn normalize_leaves_one_newline(text: Seq<char>)
    ensures
        normalized(text).last() == '\n',
        normalized(text).len() < 2 || normalized(text)[normalized(text).len() - 2] != '\n',
        normalized(normalized(text)) == normalized(text),
{
    let w = without_trailing_newlines(text);
    lemma_without_newlines_last(text);
    assert(w.push('\n').drop_last() =~= w);
    assert(without_trailing_newlines(w.push('\n')) == without_trailing_newlines(w));
}

proof fn lemma_replaced_absent(s: Seq<char>, p: Seq<char>, v: Seq<char>)
    requires
        p.len() > 0,
        !occurs_in(s, p),
    ensures
        replaced(s, p, v) == s,
    decreases s.len(),
{
    if s.len() > 0 {
        assert(!matches_at(s, 0, p));
        let rest = s.skip(1);
        assert forall|i: int| !#[trigger] matches_at(rest, i, p) by {
            if matches_at(rest, i, p) {
                assert(s.subrange(i + 1, i + 1 + p.len()) =~= rest.subrange(i, i + p.len()));
                assert(matches_at(s, i + 1, p));
            }
        }
        lemma_replaced_absent(rest, p, v);
        assert(seq![s[0]] + rest =~= s);
    }
}

/// Substitution leaves a text alone when none of the placeholders of `vars` occurs in it:
/// other braces, such as `${{ github.ref }}` or `{{lower}}`, come out as they went in.
pub proof fn substitute_leaves_text_without_placeholders(
    text: Seq<char>,
    vars: Seq<(Seq<char>, Seq<char>)>,
)
    requires
        forall|k: int| 0 <= k < vars.len() ==> !occurs_in(text, #[trigger] placeholder(vars[k].0)),
    ensures
        substituted(text, vars) == text,
    decreases vars.len(),
{
    if vars.len() > 0 {
        let init = vars.drop_last();
        assert forall|k: int| 0 <= k < init.len() implies !occurs_in(
            text,
            #[trigger] placeholder(init[k].0),
        ) by {
            assert(init[k] == vars[k]);
        }
        substitute_leaves_text_without_placeholders(text, init);
        let last = vars.len() - 1;
        assert(vars.last() == vars[last]);
        assert(!occurs_in(text, placeholder(vars[last].0)));
        reveal_strlit("{{");
        lemma_replaced_absent(text, placeholder(vars.last().0), vars.last().1);
    }
}

proof fn lemma_substituted_concat(
    t: Seq<char>,
    a: Seq<(Seq<char>, Seq<char>)>,
    b: Seq<(Seq<char>, Seq<char>)>,
)
    ensures
        substituted(t, a + b) == substituted(substituted(t, a), b),
    decreases b.len(),
{
    if b.len() == 0 {
        assert(a + b =~= a);
    } else {
        lemma_substituted_concat(t, a, b.drop_last());
        assert((a + b).drop_last() =~= a + b.drop_last());
        assert((a + b).last() == b.last());
    }
}

proof fn lemma_replaced_whole(p: Seq<char>, v: Seq<char>)
    requires
        p.len() > 0,
    ensures
        replaced(p, p, v) == v,
{
    assert(p.subrange(0, p.len() as int) =~= p);
    assert(matches_at(p, 0, p));
    assert(p.skip(p.len() as int) =~= Seq::<char>::empty());
    assert(replaced(p.skip(p.len() as int), p, v) == Seq::<char>::empty());
    assert(v + Seq::<char>::empty() =~= v);
}

/// A placeholder whose name differs from `COMPONENT` at `q` does not occur in
/// `{{COMPONENT}}`.
proof fn lemma_not_in_component_placeholder(n: Seq<char>, q: int)
    requires
        0 <= q < n.len(),
        q < 9,
        n[q] != "COMPONENT"@[q],
    ensures
        !occurs_in(placeholder("COMPONENT"@), placeholder(n)),
{
    reveal_strlit("{{");
    reveal_strlit("}}");
    reveal_strlit("COMPONENT");
    let big = placeholder("COMPONENT"@);
    let small = placeholder(n);
    assert(big =~= seq!['{', '{', 'C', 'O', 'M', 'P', 'O', 'N', 'E', 'N', 'T', '}', '}']);
    if exists|i: int| matches_at(big, i, small) {
        let i = choose|i: int| matches_at(big, i, small);
        let sub = big.subrange(i, i + small.len());
        assert(sub[0] == small[0] && sub[1] == small[1]);
        assert(big[i] == '{' && big[i + 1] == '{');
        assert(i == 0);
        assert(sub[2 + q] == small[2 + q]);
        assert(small[2 + q] == n[q]);
        assert(big[2 + q] == "COMPONENT"@[q]);
    }
}

/// No placeholder occurs in a text without `{`.
proof fn lemma_no_placeholder_without_brace(t: Seq<char>, n: Seq<char>)
    requires
        forall|i: int| 0 <= i < t.len() ==> t[i] != '{',
    ensures
        !occurs_in(t, placeholder(n)),
{
    reveal_strlit("{{");
    if exists|i: int| matches_at(t, i, placeholder(n)) {
        let i = choose|i: int| matches_at(t, i, placeholder(n));
        assert(t.subrange(i, i + placeholder(n).len())[0] == placeholder(n)[0]);
        assert(t[i] == '{');
    }
}

/// No `{` in `s`.
spec fn brace_free(s: Seq<char>) -> bool {
    forall|i: int| 0 <= i < s.len() ==> s[i] != '{'
}

/// A placeholder that differs at `q` from `{{big}}`, a name without `{`, does not occur in
/// `{{big}}`: both start with `{{`, which `{{big}}` holds only at its start.
proof fn lemma_not_in_placeholder(big: Seq<char>, n: Seq<char>, q: int)
    requires
        brace_free(big),
        0 <= q < placeholder(n).len(),
        q < placeholder(big).len(),
        placeholder(n)[q] != placeholder(big)[q],
    ensures
        !occurs_in(placeholder(big), placeholder(n)),
{
    reveal_strlit("{{");
    reveal_strlit("}}");
    let b = placeholder(big);
    let small = placeholder(n);
    assert(forall|k: int| 2 <= k < 2 + big.len() ==> #[trigger] b[k] == big[k - 2]);
    assert(forall|k: int| 2 + big.len() <= k < b.len() ==> #[trigger] b[k] == '}');
    if exists|i: int| matches_at(b, i, small) {
        let i = choose|i: int| matches_at(b, i, small);
        let sub = b.subrange(i, i + small.len());
        assert(sub[0] == small[0] && sub[1] == small[1]);
        assert(b[i] == '{' && b[i + 1] == '{');
        assert(i == 0);
        assert(sub[q] == small[q]);
    }
}

/// Substituting the definitions `v` into the placeholder of entry `m` gives its value, when
/// no earlier placeholder occurs in it and no later one can occur in the value.
proof fn lemma_renders_as(v: Seq<(Seq<char>, Seq<char>)>, m: int)
    requires
        0 <= m < v.len(),
        forall|k: int| 0 <= k < m ==> !occurs_in(placeholder(v[m].0), #[trigger] placeholder(v[k].0)),
        brace_free(v[m].1),
    ensures
        substituted(placeholder(v[m].0), v) == v[m].1,
{
    reveal_strlit("{{");
    let p = placeholder(v[m].0);
    let pre = v.take(m);
    let mid = v.subrange(m, m + 1);
    let post = v.skip(m + 1);
    assert(v =~= pre + mid + post);
    assert forall|k: int| 0 <= k < pre.len() implies !occurs_in(p, #[trigger] placeholder(pre[k].0)) by {
        assert(pre[k] == v[k]);
    }
    substitute_leaves_text_without_placeholders(p, pre);
    lemma_substituted_concat(p, pre, mid);
    assert(mid.drop_last() =~= Seq::<(Seq<char>, Seq<char>)>::empty());
    assert(mid.last() == v[m]);
    lemma_replaced_whole(p, v[m].1);
    assert(substituted(p, mid.drop_last()) == p);
    assert(substituted(p, mid) == replaced(p, p, v[m].1));
    assert(substituted(p, pre + mid) == v[m].1);
    assert forall|k: int| 0 <= k < post.len() implies !occurs_in(
        v[m].1,
        #[trigger] placeholder(post[k].0),
    ) by {
        lemma_no_placeholder_without_brace(v[m].1, post[k].0);
    }
    substitute_leaves_text_without_placeholders(v[m].1, post);
    lemma_substituted_concat(p, pre + mid, post);
}

/// The placeholders that name the crate render as the arguments they come from: `{{KIND}}`
/// as the kind's name, `{{REPO}}` as the repository, `{{COMPONENT}}` as the component,
/// `{{CRATE}}` as the crate name, and the `_IDENT` forms as those names with every `-` turned
/// into `_`.
pub proof fn each_crate_placeholder_renders_as_its_argument(
    kind: Kind,
    repo: Seq<char>,
    component: Seq<char>,
    crate_name: Seq<char>,
)
    requires
        forall|i: int| 0 <= i < repo.len() ==> repo[i] != '{',
        forall|i: int| 0 <= i < component.len() ==> component[i] != '{',
        forall|i: int| 0 <= i < crate_name.len() ==> crate_name[i] != '{',
    ensures
        substituted(placeholder("KIND"@), vocabulary(kind, repo, component, crate_name))
            == match kind {
            Kind::Lib => "lib"@,
            Kind::App => "app"@,
            Kind::Service => "service"@,
            Kind::Plugin => "plugin"@,
            Kind::Spec => "spec"@,
        },
        substituted(placeholder("REPO"@), vocabulary(kind, repo, component, crate_name)) == repo,
        substituted(placeholder("COMPONENT"@), vocabulary(kind, repo, component, crate_name))
            == component,
        substituted(placeholder("COMPONENT_IDENT"@), vocabulary(kind, repo, component, crate_name))
            == component.map_values(|c: char| if c == '-' { '_' } else { c }),
        substituted(placeholder("CRATE"@), vocabulary(kind, repo, component, crate_name))
            == crate_name,
        substituted(placeholder("CRATE_IDENT"@), vocabulary(kind, repo, component, crate_name))
            == crate_name.map_values(|c: char| if c == '-' { '_' } else { c }),
{
    let v = vocabulary(kind, repo, component, crate_name);
    reveal_strlit("{{");
    reveal_strlit("}}");
    reveal_strlit("ORG");
    reveal_strlit("ORG_DISPLAY_NAME");
    reveal_strlit("ORG_URL");
    reveal_strlit("CLI");
    reveal_strlit("CRATE_PREFIX");
    reveal_strlit("DAEMON_PREFIX");
    reveal_strlit("WIT_NAMESPACE");
    reveal_strlit("MSRV");
    reveal_strlit("EDITION");
    reveal_strlit("LICENSE_SPDX");
    reveal_strlit("KIND");
    reveal_strlit("REPO");
    reveal_strlit("COMPONENT");
    reveal_strlit("COMPONENT_IDENT");
    reveal_strlit("CRATE");
    reveal_strlit("CRATE_IDENT");
    reveal_strlit("lib");
    reveal_strlit("app");
    reveal_strlit("service");
    reveal_strlit("plugin");
    reveal_strlit("spec");
    let ci = ident_of(component);
    let ri = ident_of(crate_name);
    assert(brace_free(ci));
    assert(brace_free(ri));
    assert(brace_free(kind_name(kind)));
    // {{KIND}}
    assert forall|k: int| 0 <= k < 10 implies !occurs_in(placeholder(v[10].0), #[trigger] placeholder(v[k].0)) by {
        lemma_not_in_placeholder(v[10].0, v[k].0, 2);
    }
    lemma_renders_as(v, 10);
    // {{REPO}}
    assert forall|k: int| 0 <= k < 11 implies !occurs_in(placeholder(v[11].0), #[trigger] placeholder(v[k].0)) by {
        lemma_not_in_placeholder(v[11].0, v[k].0, 2);
    }
    lemma_renders_as(v, 11);
    // {{COMPONENT}}
    assert forall|k: int| 0 <= k < 12 implies !occurs_in(placeholder(v[12].0), #[trigger] placeholder(v[k].0)) by {
        let q: int = if k == 3 || k == 4 { 3 } else { 2 };
        lemma_not_in_placeholder(v[12].0, v[k].0, q);
    }
    lemma_renders_as(v, 12);
    // {{COMPONENT_IDENT}}
    assert forall|k: int| 0 <= k < 13 implies !occurs_in(placeholder(v[13].0), #[trigger] placeholder(v[k].0)) by {
        let q: int = if k == 3 || k == 4 { 3 } else if k == 12 { 11 } else { 2 };
        lemma_not_in_placeholder(v[13].0, v[k].0, q);
    }
    lemma_renders_as(v, 13);
    // {{CRATE}}
    assert forall|k: int| 0 <= k < 14 implies !occurs_in(placeholder(v[14].0), #[trigger] placeholder(v[k].0)) by {
        let q: int = if k == 3 || k == 12 || k == 13 { 3 } else if k == 4 { 7 } else { 2 };
        lemma_not_in_placeholder(v[14].0, v[k].0, q);
    }
    lemma_renders_as(v, 14);
    // {{CRATE_IDENT}}
    assert forall|k: int| 0 <= k < 15 implies !occurs_in(placeholder(v[15].0), #[trigger] placeholder(v[k].0)) by {
        let q: int = if k == 3 || k == 12 || k == 13 { 3 } else if k == 4 { 8 } else if k == 14 { 7 } else { 2 };
        lemma_not_in_placeholder(v[15].0, v[k].0, q);
    }
    lemma_renders_as(v, 15);
}

/// `{{COMPONENT}}` renders as the component name itself, whatever the kind, repository and
/// crate name; the crate name is another placeholder's value.
pub proof fn the_component_placeholder_is_the_component(
    kind: Kind,
    repo: Seq<char>,
    component: Seq<char>,
    crate_name: Seq<char>,
)
    requires
        forall|i: int| 0 <= i < component.len() ==> component[i] != '{',
    ensures
        substituted(placeholder("COMPONENT"@), vocabulary(kind, repo, component, crate_name))
            == component,
{
    let v = vocabulary(kind, repo, component, crate_name);
    let p = placeholder("COMPONENT"@);
    let pre = v.take(12);
    let mid = v.subrange(12, 13);
    let post = v.skip(13);
    assert(v =~= pre + mid + post);
    reveal_strlit("ORG");
    reveal_strlit("ORG_DISPLAY_NAME");
    reveal_strlit("ORG_URL");
    reveal_strlit("CLI");
    reveal_strlit("CRATE_PREFIX");
    reveal_strlit("DAEMON_PREFIX");
    reveal_strlit("WIT_NAMESPACE");
    reveal_strlit("MSRV");
    reveal_strlit("EDITION");
    reveal_strlit("LICENSE_SPDX");
    reveal_strlit("KIND");
    reveal_strlit("REPO");
    reveal_strlit("COMPONENT");
    assert forall|k: int| 0 <= k < pre.len() implies !occurs_in(p, #[trigger] placeholder(pre[k].0)) by {
        let q: int = if k == 3 || k == 4 {
            1
        } else {
            0
        };
        lemma_not_in_component_placeholder(pre[k].0, q);
    }
    substitute_leaves_text_without_placeholders(p, pre);
    lemma_substituted_concat(p, pre, mid);
    assert(mid.drop_last() =~= Seq::<(Seq<char>, Seq<char>)>::empty());
    assert(mid.last() == ("COMPONENT"@, component));
    reveal_strlit("{{");
    lemma_replaced_whole(p, component);
    assert(substituted(p, pre) == p);
    assert(substituted(p, mid.drop_last()) == p);
    assert(placeholder(mid.last().0) == p);
    assert(substituted(p, mid) == replaced(p, p, component));
    assert(substituted(p, pre + mid) == component);
    assert forall|k: int| 0 <= k < post.len() implies !occurs_in(
        component,
        #[trigger] placeholder(post[k].0),
    ) by {
        lemma_no_placeholder_without_brace(component, post[k].0);
    }
    substitute_leaves_text_without_placeholders(component, post);
    lemma_substituted_concat(p, pre + mid, post);
}

/// A placeholder name: upper-case ASCII letters and underscores, at least one.
pub open spec fn placeholder_name_ok(n: Seq<char>) -> bool {
    &&& n.len() > 0
    &&& forall|i: int| 0 <= i < n.len() ==> ('A' <= #[trigger] n[i] && n[i] <= 'Z') || n[i] == '_'
}

/// A placeholder written with its braces: `{{` + `n` + `}}`.
pub open spec fn braced(n: Seq<char>) -> Seq<char> {
    seq!['{', '{'] + n + seq!['}', '}']
}

/// `{{NAME}}` stands in `s` at position `i`, with `n` a placeholder name.
pub open spec fn placeholder_at(s: Seq<char>, i: int, n: Seq<char>) -> bool {
    placeholder_name_ok(n) && matches_at(s, i, braced(n))
}

/// `{{n}}` stands at `i`, and no `{{NAME}}` starts earlier.
pub open spec fn first_placeholder(s: Seq<char>, i: int, n: Seq<char>) -> bool {
    &&& placeholder_at(s, i, n)
    &&& forall|j: int, m: Seq<char>| 0 <= j < i ==> !#[trigger] placeholder_at(s, j, m)
}

/// The first `{{NAME}}` left in `s`: the name of the placeholder that starts earliest, or
/// nothing when none is left.
pub open spec fn surviving(s: Seq<char>) -> Option<Seq<char>> {
    if exists|i: int, n: Seq<char>| first_placeholder(s, i, n) {
        let (i, n) = choose|i: int, n: Seq<char>| first_placeholder(s, i, n);
        Some(n)
    } else {
        None
    }
}

proof fn lemma_placeholder_name_unique(s: Seq<char>, i: int, n1: Seq<char>, n2: Seq<char>)
    requires
        placeholder_at(s, i, n1),
        placeholder_at(s, i, n2),
    ensures
        n1 == n2,
{
    if n1.len() < n2.len() {
        assert(s.subrange(i, i + braced(n1).len())[(2 + n1.len()) as int] == '}');
        assert(s.subrange(i, i + braced(n2).len())[(2 + n1.len()) as int] == n2[n1.len() as int]);
    } else if n2.len() < n1.len() {
        assert(s.subrange(i, i + braced(n2).len())[(2 + n2.len()) as int] == '}');
        assert(s.subrange(i, i + braced(n1).len())[(2 + n2.len()) as int] == n1[n2.len() as int]);
    } else {
        assert forall|k: int| 0 <= k < n1.len() implies n1[k] == n2[k] by {
            assert(s.subrange(i, i + braced(n1).len())[2 + k] == n1[k]);
            assert(s.subrange(i, i + braced(n2).len())[2 + k] == n2[k]);
        }
        assert(n1 =~= n2);
    }
}

proof fn lemma_first_placeholder_exists(s: Seq<char>, i: int, n: Seq<char>)
    requires
        placeholder_at(s, i, n),
    ensures
        exists|j: int, m: Seq<char>| first_placeholder(s, j, m),
    decreases i,
{
    if exists|j: int, m: Seq<char>| 0 <= j < i && placeholder_at(s, j, m) {
        let (j, m) = choose|j: int, m: Seq<char>| 0 <= j < i && placeholder_at(s, j, m);
        lemma_first_placeholder_exists(s, j, m);
    } else {
        assert(first_placeholder(s, i, n));
    }
}

proof fn lemma_surviving_is(s: Seq<char>, i: int, n: Seq<char>)
    requires
        first_placeholder(s, i, n),
    ensures
        surviving(s) == Some(n),
{
    let (j, m) = choose|j: int, m: Seq<char>| first_placeholder(s, j, m);
    if j < i {
        assert(!placeholder_at(s, j, m));
    } else if i < j {
        assert(!placeholder_at(s, i, n));
    } else {
        lemma_placeholder_name_unique(s, i, n, m);
    }
}

/// The first `{{NAME}}` (upper-case letters and underscores) left in `text`.
pub fn surviving_placeholder<'a>(text: &'a str) -> (r: Option<&'a str>)
    ensures
        r matches Some(n) ==> surviving(text@) == Some(n@),
        r is None ==> surviving(text@) is None,
{
    let cs = chars_of(text);
    let n = cs.len();
    let mut i: usize = 0;
    while i < n
        invariant
            cs@ == text@,
            n == cs@.len(),
            i <= n,
            forall|j: int, m: Seq<char>| 0 <= j < i ==> !#[trigger] placeholder_at(cs@, j, m),
        decreases n - i,
    {
        if i + 1 < n && cs[i] == '{' && cs[i + 1] == '{' {
            let mut j: usize = i + 2;
            while j < n && (('A' <= cs[j] && cs[j] <= 'Z') || cs[j] == '_')
                invariant
                    cs@ == text@,
                    n == cs@.len(),
                    i + 2 <= j <= n,
                    forall|k: int| i + 2 <= k < j ==> ('A' <= #[trigger] cs@[k] && cs@[k] <= 'Z')
                        || cs@[k] == '_',
                decreases n - j,
            {
                j = j + 1;
            }
            let ghost name = cs@.subrange(i + 2, j as int);
            if j > i + 2 && j < n && j + 1 < n && cs[j] == '}' && cs[j + 1] == '}' {
                proof {
                    assert(cs@.subrange(i as int, i + braced(name).len()) =~= braced(name));
                    assert(placeholder_at(cs@, i as int, name));
                    lemma_surviving_is(cs@, i as int, name);
                }
                return Some(text.substring_char(i + 2, j));
            }
            proof {
                assert forall|m: Seq<char>| !placeholder_at(cs@, i as int, m) by {
                    if placeholder_at(cs@, i as int, m) {
                        let sub = cs@.subrange(i as int, i + braced(m).len());
                        assert forall|k: int| 0 <= k < m.len() implies cs@[i + 2 + k] == m[k] by {
                            assert(sub[2 + k] == m[k]);
                        }
                        assert(cs@[i + 2 + m.len()] == sub[(2 + m.len()) as int]);
                        assert(cs@[i + 3 + m.len()] == sub[(3 + m.len()) as int]);
                        if j < i + 2 + m.len() {
                            assert(cs@[j as int] == m[j - i - 2]);
                        } else if j > i + 2 + m.len() {
                            assert(('A' <= cs@[i + 2 + m.len()] && cs@[i + 2 + m.len()] <= 'Z')
                                || cs@[i + 2 + m.len()] == '_');
                        }
                    }
                }
            }
        } else {
            proof {
                assert forall|m: Seq<char>| !placeholder_at(cs@, i as int, m) by {
                    if placeholder_at(cs@, i as int, m) {
                        let sub = cs@.subrange(i as int, i + braced(m).len());
                        assert(cs@[i as int] == sub[0]);
                        assert(cs@[i + 1] == sub[1]);
                    }
                }
            }
        }
        i = i + 1;
    }
    proof {
        if exists|j: int, m: Seq<char>| first_placeholder(cs@, j, m) {
            let (j, m) = choose|j: int, m: Seq<char>| first_placeholder(cs@, j, m);
            assert(j < n);
        }
    }
    None
}

/// `surviving` misses no placeholder: it finds one exactly when some `{{NAME}}` stands in the
/// text, and the one it finds starts before every other.
pub proof fn surviving_finds_the_first_placeholder(s: Seq<char>)
    ensures
        surviving(s) is None <==> forall|i: int, n: Seq<char>| !placeholder_at(s, i, n),
        surviving(s) is Some ==> exists|i: int| first_placeholder(s, i, surviving(s)->0),
{
    if exists|i: int, n: Seq<char>| placeholder_at(s, i, n) {
        let (i, n) = choose|i: int, n: Seq<char>| placeholder_at(s, i, n);
        lemma_first_placeholder_exists(s, i, n);
    }
    if surviving(s) is Some {
        let (j, m) = choose|j: int, m: Seq<char>| first_placeholder(s, j, m);
        lemma_surviving_is(s, j, m);
        assert(first_placeholder(s, j, surviving(s)->0));
    }
}

/// The opening fence of a TOML block: three backticks, `toml`, a newline.
pub open spec fn toml_fence() -> Seq<char> {
    seq!['`', '`', '`', 't', 'o', 'm', 'l', '\n']
}

/// The closing fence of a block: a newline, then three backticks.
pub open spec fn closing_fence() -> Seq<char> {
    seq!['\n', '`', '`', '`']
}

/// The table header a component entry carries.
pub open spec fn component_header() -> Seq<char> {
    seq!['[', '[', 'c', 'o', 'm', 'p', 'o', 'n', 'e', 'n', 't', ']', ']']
}

/// The first fenced TOML block of `s` that holds a `[[component]]` table, with a newline
/// after it. The search stops at the first opening fence that is never closed.
pub open spec fn toml_component(s: Seq<char>) -> Option<Seq<char>>
    decreases s.len(),
{
    match first_match(s, toml_fence()) {
        None => None,
        Some(start) => {
            let body = s.skip(start + 8);
            match first_match(body, closing_fence()) {
                None => None,
                Some(end) => {
                    let block = body.take(end);
                    if occurs_in(block, component_header()) {
                        Some(block.push('\n'))
                    } else {
                        proof {
                            lemma_occurs_iff_first(s, toml_fence());
                            lemma_occurs_iff_first(body, closing_fence());
                        }
                        toml_component(body.skip(end))
                    }
                }
            }
        }
    }
}

/// The component entry is a fenced TOML block of the README: it ends with a newline, holds a
/// `[[component]]` table, and stands in the README as `` ```toml\n `` + entry + `` ``` ``;
/// a README without an opening `` ```toml `` fence has none.
pub proof fn component_entry_is_a_fenced_block(s: Seq<char>)
    ensures
        toml_component(s) matches Some(e) ==> {
            &&& e.len() > 0
            &&& e.last() == '\n'
            &&& occurs_in(e, component_header())
            &&& occurs_in(s, toml_fence() + e + seq!['`', '`', '`'])
        },
        !occurs_in(s, toml_fence()) ==> toml_component(s) is None,
    decreases s.len(),
{
    lemma_occurs_iff_first(s, toml_fence());
    match first_match(s, toml_fence()) {
        None => {},
        Some(start) => {
            let body = s.skip(start + 8);
            lemma_occurs_iff_first(body, closing_fence());
            match first_match(body, closing_fence()) {
                None => {},
                Some(end) => {
                    let block = body.take(end);
                    assert(s.subrange(start, start + 8) == toml_fence());
                    assert(body.subrange(end, end + 4) == closing_fence());
                    if occurs_in(block, component_header()) {
                        let e = block.push('\n');
                        let w = toml_fence() + e + seq!['`', '`', '`'];
                        assert(s.subrange(start, start + w.len()) =~= w) by {
                            assert forall|k: int| 0 <= k < w.len() implies s.subrange(
                                start,
                                start + w.len(),
                            )[k] == w[k] by {
                                if k < 8 {
                                    assert(s.subrange(start, start + 8)[k] == toml_fence()[k]);
                                } else if k < 8 + end {
                                    assert(body[k - 8] == s[start + k]);
                                } else {
                                    assert(body.subrange(end, end + 4)[k - 8 - end] == body[k
                                        - 8]);
                                    assert(body[k - 8] == s[start + k]);
                                }
                            }
                        }
                        assert(matches_at(s, start, w));
                        let h = choose|h: int| matches_at(block, h, component_header());
                        assert(e.subrange(h, h + 13) =~= block.subrange(h, h + 13));
                        assert(matches_at(e, h, component_header()));
                    } else {
                        let rest = body.skip(end);
                        component_entry_is_a_fenced_block(rest);
                        if toml_component(rest) is Some {
                            let e = toml_component(rest)->0;
                            let w = toml_fence() + e + seq!['`', '`', '`'];
                            let p = choose|p: int| matches_at(rest, p, w);
                            assert(s.subrange(start + 8 + end + p, start + 8 + end + p + w.len())
                                =~= rest.subrange(p, p + w.len()));
                            assert(matches_at(s, start + 8 + end + p, w));
                        }
                    }
                },
            }
        },
    }
}

/// The first fenced TOML block of `readme` that holds a `[[component]]` table.
pub fn component_entry(readme: &str) -> (r: Option<String>)
    ensures
        r matches Some(e) ==> toml_component(readme@) == Some(e@),
        r is None ==> toml_component(readme@) is None,
{
    let cs = chars_of(readme);
    let fence = vec!['`', '`', '`', 't', 'o', 'm', 'l', '\n'];
    let closing = vec!['\n', '`', '`', '`'];
    let header = vec!['[', '[', 'c', 'o', 'm', 'p', 'o', 'n', 'e', 'n', 't', ']', ']'];
    assert(fence@ =~= toml_fence());
    assert(closing@ =~= closing_fence());
    assert(header@ =~= component_header());
    let mut pos: usize = 0;
    assert(cs@.skip(0) =~= cs@);
    while pos <= cs.len()
        invariant
            cs@ == readme@,
            fence@ == toml_fence(),
            closing@ == closing_fence(),
            header@ == component_header(),
            pos <= cs@.len(),
            toml_component(cs@.skip(pos as int)) == toml_component(cs@),
        decreases cs@.len() - pos,
    {
        let ghost rest = cs@.skip(pos as int);
        let k = match find_from(cs.as_slice(), pos, fence.as_slice()) {
            None => {
                return None;
            },
            Some(k) => k,
        };
        proof {
            lemma_occurs_iff_first(rest, toml_fence());
        }
        let b = k + 8;
        let ghost body = rest.skip(k - pos + 8);
        assert(body =~= cs@.skip(b as int));
        let e = match find_from(cs.as_slice(), b, closing.as_slice()) {
            None => {
                return None;
            },
            Some(e) => e,
        };
        proof {
            lemma_occurs_iff_first(body, closing_fence());
        }
        let block = slice_subrange(cs.as_slice(), b, e);
        assert(block@ =~= body.take(e - b));
        let found = find_from(block, 0, header.as_slice());
        proof {
            assert(block@.skip(0) =~= block@);
            lemma_occurs_iff_first(block@, component_header());
        }
        if found.is_some() {
            let mut out: Vec<char> = Vec::new();
            extend_chars(&mut out, block);
            out.push('\n');
            return Some(string_of(out.as_slice()));
        }
        assert(body.skip(e - b) =~= cs@.skip(e as int));
        pos = e;
    }
    None
}

/// The position of the last `c` in `s`.
pub open spec fn last_index_of(s: Seq<char>, c: char) -> Option<int>
    decreases s.len(),
{
    if s.len() == 0 {
        None
    } else if s.last() == c {
        Some(s.len() - 1)
    } else {
        last_index_of(s.drop_last(), c)
    }
}

pub proof fn lemma_last_index_of(s: Seq<char>, c: char)
    ensures
        last_index_of(s, c) matches Some(k) ==> 0 <= k < s.len() && s[k] == c && forall|j: int|
            k < j < s.len() ==> s[j] != c,
        last_index_of(s, c) is None ==> forall|j: int| 0 <= j < s.len() ==> s[j] != c,
    decreases s.len(),
{
    if s.len() > 0 && s.last() != c {
        let d = s.drop_last();
        lemma_last_index_of(d, c);
        assert forall|j: int| 0 <= j < d.len() implies d[j] == s[j] by {}
    }
}

/// The last component of a `/`-separated path, as `Path::components` yields it: empty and
/// `.` components are skipped; empty when none is left.
pub open spec fn last_component(p: Seq<char>) -> Seq<char>
    decreases p.len(),
{
    if p.len() == 0 {
        seq![]
    } else if p.last() == '/' {
        last_component(p.drop_last())
    } else {
        match last_index_of(p, '/') {
            None => if p == seq!['.'] {
                seq![]
            } else {
                p
            },
            Some(k) => if p.skip(k + 1) == seq!['.'] {
                proof {
                    lemma_last_index_of(p, '/');
                }
                last_component(p.take(k))
            } else {
                p.skip(k + 1)
            },
        }
    }
}

/// The extension of a path, as `Path::extension` gives it: the text after the last `.` of
/// the file name, unless the name is `..`, has no `.`, or has its only `.` up front.
pub open spec fn path_extension(p: Seq<char>) -> Option<Seq<char>> {
    let name = last_component(p);
    if name.len() == 0 || name == seq!['.', '.'] {
        None
    } else {
        match last_index_of(name, '.') {
            None => None,
            Some(k) => if k == 0 {
                None
            } else {
                Some(name.skip(k + 1))
            },
        }
    }
}

/// Files with these extensions are copied byte for byte instead of substituted.
pub open spec fn binary_extensions() -> Seq<Seq<char>> {
    seq![
        "png"@,
        "jpg"@,
        "jpeg"@,
        "gif"@,
        "ico"@,
        "webp"@,
        "woff"@,
        "woff2"@,
        "pdf"@,
    ]
}

/// Files with these extensions are copied byte for byte instead of substituted.
pub const BINARY_EXTENSIONS: [&'static str; 9] = [
    "png",
    "jpg",
    "jpeg",
    "gif",
    "ico",
    "webp",
    "woff",
    "woff2",
    "pdf",
];

/// Whether a skeleton file (a relative path) is copied byte for byte: its extension, in lower
/// case, is one of [`BINARY_EXTENSIONS`].
pub open spec fn binary_path(p: Seq<char>) -> bool {
    path_extension(p) matches Some(e) && binary_extensions().contains(ascii_lower(e))
}

fn last_index(cs: &[char], end: usize, c: char) -> (r: Option<usize>)
    requires
        end <= cs@.len(),
    ensures
        r matches Some(k) ==> last_index_of(cs@.take(end as int), c) == Some(k as int),
        r is None ==> last_index_of(cs@.take(end as int), c) is None,
{
    let mut i: usize = end;
    while i > 0
        invariant
            i <= end <= cs@.len(),
            last_index_of(cs@.take(end as int), c) == last_index_of(cs@.take(i as int), c),
        decreases i,
    {
        assert(cs@.take(i as int).drop_last() =~= cs@.take(i - 1));
        if cs[i - 1] == c {
            return Some(i - 1);
        }
        i = i - 1;
    }
    None
}

/// The last component of `cs[..end]`, as a range `(from, to)` of `cs`.
pub(crate) fn last_component_range(cs: &[char], end: usize) -> (r: (usize, usize))
    requires
        end <= cs@.len(),
    ensures
        r.0 <= r.1 <= end,
        cs@.subrange(r.0 as int, r.1 as int) == last_component(cs@.take(end as int)),
    decreases end,
{
    let ghost p = cs@.take(end as int);
    if end == 0 {
        return (0, 0);
    }
    if cs[end - 1] == '/' {
        assert(p.drop_last() =~= cs@.take(end - 1));
        return last_component_range(cs, end - 1);
    }
    match last_index(cs, end, '/') {
        None => {
            if end == 1 && cs[0] == '.' {
                assert(p =~= seq!['.']);
                (0, 0)
            } else {
                assert(p != seq!['.']);
                assert(cs@.subrange(0, end as int) =~= p);
                (0, end)
            }
        },
        Some(k) => {
            proof {
                lemma_last_index_of(p, '/');
            }
            assert(p.skip(k + 1) =~= cs@.subrange(k + 1, end as int));
            if end == k + 2 && cs[k + 1] == '.' {
                assert(p.skip(k + 1) =~= seq!['.']);
                assert(p.take(k as int) =~= cs@.take(k as int));
                last_component_range(cs, k)
            } else {
                assert(p.skip(k + 1).len() == end - k - 1);
                if end == k + 2 {
                    assert(p.skip(k + 1)[0] == cs@[k + 1]);
                }
                assert(p.skip(k + 1) != seq!['.']);
                (k + 1, end)
            }
        },
    }
}

fn is_binary_extension(e: &[char]) -> (r: bool)
    ensures
        r == binary_extensions().contains(ascii_lower(e@)),
{
    let mut low: Vec<char> = Vec::new();
    let mut i: usize = 0;
    while i < e.len()
        invariant
            i <= e@.len(),
            low@ == ascii_lower(e@.take(i as int)),
        decreases e@.len() - i,
    {
        let c = e[i];
        let l = if 'A' <= c && c <= 'Z' { ((c as u8) + 32) as char } else { c };
        low.push(l);
        assert(ascii_lower(e@.take(i + 1)) =~= ascii_lower(e@.take(i as int)).push(l));
        i = i + 1;
    }
    assert(e@.take(i as int) =~= e@);
    let mut k: usize = 0;
    while k < 9
        invariant
            low@ == ascii_lower(e@),
            k <= 9,
            forall|j: int| 0 <= j < k ==> binary_extensions()[j] != low@,
        decreases 9 - k,
    {
        let candidate = chars_of(BINARY_EXTENSIONS[k]);
        assert(BINARY_EXTENSIONS@[k as int]@ == binary_extensions()[k as int]);
        if chars_eq(candidate.as_slice(), low.as_slice()) {
            assert(binary_extensions()[k as int] == low@);
            return true;
        }
        k = k + 1;
    }
    false
}

/// Where the extension of the path `cs` lies in it.
#[verifier::rlimit(60)]
#[verifier::spinoff_prover]
fn extension_range(cs: &[char]) -> (r: Option<(usize, usize)>)
    ensures
        r matches Some((a, b)) ==> a <= b <= cs@.len() && path_extension(cs@) == Some(
            cs@.subrange(a as int, b as int),
        ),
        r is None ==> path_extension(cs@) is None,
{
    assert(cs@.take(cs@.len() as int) =~= cs@);
    let (from, to) = last_component_range(cs, cs.len());
    let name = slice_subrange(cs, from, to);
    if name.len() == 0 || (name.len() == 2 && name[0] == '.' && name[1] == '.') {
        assert(name@.len() == 2 ==> name@ =~= seq!['.', '.']);
        return None;
    }
    assert(name@ != seq!['.', '.']);
    assert(name@.take(name@.len() as int) =~= name@);
    proof {
        lemma_last_index_of(name@, '.');
    }
    match last_index(name, name.len(), '.') {
        None => None,
        Some(k) => {
            if k == 0 {
                None
            } else {
                assert(cs@.subrange(from + k + 1, to as int) =~= name@.skip(k + 1));
                Some((from + k + 1, to))
            }
        },
    }
}

/// Whether a skeleton file is copied byte for byte.
pub fn is_binary(rel: &str) -> (r: bool)
    ensures
        r == binary_path(rel@),
{
    let cs = chars_of(rel);
    match extension_range(cs.as_slice()) {
        None => false,
        Some((a, b)) => is_binary_extension(slice_subrange(cs.as_slice(), a, b)),
    }
}

/// `Path::join` on `/`-separated paths: an absolute `b` replaces `a`; otherwise a separator
/// goes between them unless `a` is empty or already ends with one.
pub open spec fn joined(a: Seq<char>, b: Seq<char>) -> Seq<char> {
    if b.len() > 0 && b[0] == '/' {
        b
    } else if a.len() == 0 || a.last() == '/' {
        a + b
    } else {
        a + seq!['/'] + b
    }
}

/// `a` joined with `b` as `Path::join` joins them.
pub fn join_path(a: &str, b: &str) -> (r: String)
    ensures
        r@ == joined(a@, b@),
{
    let acs = chars_of(a);
    let bcs = chars_of(b);
    if bcs.len() > 0 && bcs[0] == '/' {
        return String::from_str(b);
    }
    let mut out = String::from_str(a);
    if !(acs.len() == 0 || acs[acs.len() - 1] == '/') {
        crate::text::push_char(&mut out, '/');
    }
    out.append(b);
    assert(out@ =~= joined(a@, b@));
    out
}

/// The repository a crate is rendered into.
#[derive(Debug, PartialEq, Eq)]
pub struct Repo {
    /// The directory holding `CATALOG.toml` and `Cargo.toml`.
    pub root: String,
    /// `[repo] name` of its `CATALOG.toml`.
    pub name: String,
}

/// A crate rendered in memory, ready to write.
#[derive(Debug)]
pub struct Rendered {
    /// `<CRATE_PREFIX>-<repo>-<component>`.
    pub crate_name: String,
    /// `crates/<crate_name>` of the repository.
    pub dir: String,
    /// Every file, relative to `dir`, with its bytes.
    pub files: Vec<(String, Vec<u8>)>,
}

/// `<CRATE_PREFIX>-<repo>-<component>`.
pub open spec fn crate_name_of(repo: Seq<char>, component: Seq<char>) -> Seq<char> {
    org::CRATE_PREFIX@ + "-"@ + repo + "-"@ + component
}

/// `crates/<crate_name>` under the repository's root.
pub open spec fn crate_dir_of(root: Seq<char>, crate_name: Seq<char>) -> Seq<char> {
    joined(joined(root, "crates"@), crate_name)
}

/// The text of a skeleton file once rendered: substituted, then normalized.
pub open spec fn rendered_text(text: Seq<char>, vars: Seq<(Seq<char>, Seq<char>)>) -> Seq<char> {
    normalized(substituted(text, vars))
}

/// What one skeleton file becomes, given what reading it gave: its bytes (copied for a
/// binary, rendered text otherwise) and the placeholder that survived in it, or the problem
/// that refuses the run.
pub open spec fn file_outcome(
    vars: Seq<(Seq<char>, Seq<char>)>,
    skeleton: Seq<char>,
    rel: Seq<char>,
    read: Result<Seq<u8>, Seq<char>>,
) -> Result<(Seq<u8>, Option<Seq<char>>), Seq<char>> {
    match read {
        Err(e) => Err(joined(skeleton, rel) + ": "@ + e),
        Ok(bytes) => if binary_path(rel) {
            Ok((bytes, None))
        } else if valid_utf8(bytes) {
            let text = rendered_text(decode_utf8(bytes), vars);
            Ok((encode_utf8(text), surviving(text)))
        } else {
            Err(joined(skeleton, rel) + ": not UTF-8 text (an unknown binary extension?)"@)
        },
    }
}

/// The files as read: each relative path with its bytes or the read error.
pub open spec fn reads_view(files: Seq<(String, Result<Vec<u8>, String>)>) -> Seq<
    (Seq<char>, Result<Seq<u8>, Seq<char>>),
> {
    files.map_values(
        |f: (String, Result<Vec<u8>, String>)|
            (
                f.0@,
                match f.1 {
                    Ok(b) => Ok(b@),
                    Err(e) => Err(e@),
                },
            ),
    )
}

/// How a surviving placeholder is reported: `{{NAME}} in <rel>`.
pub open spec fn survivor_note(name: Seq<char>, rel: Seq<char>) -> Seq<char> {
    "{{"@ + name + "}} in "@ + rel
}

/// The first `n` files rendered, in order: their (path, bytes) and the survivor notes, or the
/// first problem.
pub open spec fn render_prefix(
    vars: Seq<(Seq<char>, Seq<char>)>,
    skeleton: Seq<char>,
    files: Seq<(Seq<char>, Result<Seq<u8>, Seq<char>>)>,
    n: nat,
) -> Result<(Seq<(Seq<char>, Seq<u8>)>, Seq<Seq<char>>), Seq<char>>
    decreases n,
{
    if n == 0 {
        Ok((seq![], seq![]))
    } else {
        match render_prefix(vars, skeleton, files, (n - 1) as nat) {
            Err(e) => Err(e),
            Ok((out, notes)) => {
                let (rel, read) = files[n - 1];
                match file_outcome(vars, skeleton, rel, read) {
                    Err(e) => Err(e),
                    Ok((bytes, survivor)) => Ok(
                        (
                            out.push((rel, bytes)),
                            match survivor {
                                Some(name) => notes.push(survivor_note(name, rel)),
                                None => notes,
                            },
                        ),
                    ),
                }
            },
        }
    }
}

/// The problem of a skeleton with placeholders this library does not know.
pub open spec fn unknown_placeholders_message(notes: Seq<Seq<char>>) -> Seq<char> {
    "the skeleton knows a placeholder this command does not: "@ + joined_with(notes, ", "@)
        + " (nothing written)"@
}

/// The rendered files as (path, bytes) views.
pub open spec fn files_view(files: Seq<(String, Vec<u8>)>) -> Seq<(Seq<char>, Seq<u8>)> {
    files.map_values(|f: (String, Vec<u8>)| (f.0@, f.1@))
}

/// The characters of an optional string.
pub open spec fn opt_view(o: Option<String>) -> Option<Seq<char>> {
    match o {
        Some(s) => Some(s@),
        None => None,
    }
}

/// `<CRATE_PREFIX>-<repo>-<component>` and `crates/<that>` under the repository's root.
pub fn crate_target(repo: &Repo, component: &str) -> (r: (String, String))
    ensures
        r.0@ == crate_name_of(repo.name@, component@),
        r.1@ == crate_dir_of(repo.root@, r.0@),
{
    let mut name = String::from_str(org::CRATE_PREFIX);
    name.append("-");
    name.append(repo.name.as_str());
    name.append("-");
    name.append(component);
    let crates = join_path(repo.root.as_str(), "crates");
    let dir = join_path(crates.as_str(), name.as_str());
    (name, dir)
}

fn render_file(
    vars: &[(&str, String)],
    skeleton: &str,
    rel: &String,
    read: &Result<Vec<u8>, String>,
) -> (r: Result<(Vec<u8>, Option<String>), String>)
    ensures
        match file_outcome(
            pairs(vars@),
            skeleton@,
            rel@,
            match read {
                Ok(b) => Ok(b@),
                Err(e) => Err(e@),
            },
        ) {
            Err(e) => r matches Err(m) && m@ == e,
            Ok((bytes, survivor)) => r matches Ok((b, s)) && b@ == bytes && opt_view(s)
                == survivor,
        },
{
    match read {
        Err(e) => {
            let mut m = join_path(skeleton, rel.as_str());
            m.append(": ");
            m.append(e.as_str());
            Err(m)
        },
        Ok(bytes) => {
            if is_binary(rel.as_str()) {
                return Ok((slice_to_vec(bytes.as_slice()), None));
            }
            match utf8_text(slice_to_vec(bytes.as_slice())) {
                None => {
                    let mut m = join_path(skeleton, rel.as_str());
                    m.append(": not UTF-8 text (an unknown binary extension?)");
                    Err(m)
                },
                Some(text) => {
                    let subbed = substitute(text.as_str(), vars);
                    let out = normalize(subbed.as_str());
                    let survivor = match surviving_placeholder(out.as_str()) {
                        Some(name) => Some(String::from_str(name)),
                        None => None,
                    };
                    let out_bytes = slice_to_vec(out.as_str().as_bytes());
                    Ok((out_bytes, survivor))
                },
            }
        },
    }
}

/// Renders the skeleton files for `component` of `repo`, in memory. `dir_exists` tells
/// whether the crate's directory is already there; `files` holds each skeleton file, relative
/// to `skeleton`, with what reading it gave. Refuses a path that exists, a file that cannot be
/// read or is neither binary nor UTF-8, and a placeholder the vocabulary does not cover.
pub fn render(
    kind: Kind,
    repo: &Repo,
    component: &str,
    skeleton: &str,
    dir_exists: bool,
    files: &Vec<(String, Result<Vec<u8>, String>)>,
) -> (r: Result<Rendered, String>)
    ensures
        ({
            let crate_name = crate_name_of(repo.name@, component@);
            let dir = crate_dir_of(repo.root@, crate_name);
            let vars = vocabulary(kind, repo.name@, component@, crate_name);
            if dir_exists {
                r matches Err(m) && m@ == dir + " exists"@
            } else {
                match render_prefix(vars, skeleton@, reads_view(files@), files@.len()) {
                    Err(e) => r matches Err(m) && m@ == e,
                    Ok((out, notes)) => if notes.len() > 0 {
                        r matches Err(m) && m@ == unknown_placeholders_message(notes)
                    } else {
                        r matches Ok(x) && x.crate_name@ == crate_name && x.dir@ == dir
                            && files_view(x.files@) == out
                    },
                }
            }
        }),
{
    let (crate_name, dir) = crate_target(repo, component);
    if dir_exists {
        let mut m = dir;
        m.append(" exists");
        return Err(m);
    }
    let vars = vars(kind, repo.name.as_str(), component, crate_name.as_str());
    let ghost vs = pairs(vars@);
    let ghost reads = reads_view(files@);
    let mut out: Vec<(String, Vec<u8>)> = Vec::new();
    let mut notes: Vec<String> = Vec::new();
    assert(files_view(out@) =~= Seq::<(Seq<char>, Seq<u8>)>::empty());
    assert(texts(notes@) =~= Seq::<Seq<char>>::empty());
    let mut i: usize = 0;
    while i < files.len()
        invariant
            vs == pairs(vars@),
            vs == vocabulary(kind, repo.name@, component@, crate_name_of(repo.name@, component@)),
            crate_name@ == crate_name_of(repo.name@, component@),
            dir@ == crate_dir_of(repo.root@, crate_name@),
            !dir_exists,
            reads == reads_view(files@),
            i <= files@.len(),
            render_prefix(vs, skeleton@, reads, i as nat) == Ok::<
                (Seq<(Seq<char>, Seq<u8>)>, Seq<Seq<char>>),
                Seq<char>,
            >((files_view(out@), texts(notes@))),
        decreases files@.len() - i,
    {
        let (rel, read) = &files[i];
        assert(reads[i as int] == (rel@, match read {
            Ok(b) => Ok(b@),
            Err(e) => Err(e@),
        }));
        match render_file(vars.as_slice(), skeleton, rel, read) {
            Err(e) => {
                assert(render_prefix(vs, skeleton@, reads, (i + 1) as nat) == Err::<
                    (Seq<(Seq<char>, Seq<u8>)>, Seq<Seq<char>>),
                    Seq<char>,
                >(e@));
                proof {
                    lemma_render_prefix_err(vs, skeleton@, reads, (i + 1) as nat, files@.len());
                }
                return Err(e);
            },
            Ok((bytes, survivor)) => {
                let ghost before_out = out@;
                let ghost before_notes = notes@;
                out.push((rel.clone(), bytes));
                assert(files_view(out@) =~= files_view(before_out).push((rel@, bytes@)));
                match survivor {
                    Some(name) => {
                        let mut note = String::from_str("{{");
                        note.append(name.as_str());
                        note.append("}} in ");
                        note.append(rel.as_str());
                        notes.push(note);
                        assert(texts(notes@) =~= texts(before_notes).push(
                            survivor_note(name@, rel@),
                        ));
                    },
                    None => {},
                }
            },
        }
        i = i + 1;
    }
    assert(reads.len() == files@.len());
    if notes.len() > 0 {
        let mut m = String::from_str("the skeleton knows a placeholder this command does not: ");
        let joined = join_strings(&notes, ", ");
        m.append(joined.as_str());
        m.append(" (nothing written)");
        return Err(m);
    }
    Ok(Rendered { crate_name, dir, files: out })
}

proof fn lemma_render_prefix_err(
    vars: Seq<(Seq<char>, Seq<char>)>,
    skeleton: Seq<char>,
    files: Seq<(Seq<char>, Result<Seq<u8>, Seq<char>>)>,
    n: nat,
    m: nat,
)
    requires
        n <= m,
        render_prefix(vars, skeleton, files, n) is Err,
    ensures
        render_prefix(vars, skeleton, files, m) == render_prefix(vars, skeleton, files, n),
    decreases m - n,
{
    if n < m {
        lemma_render_prefix_err(vars, skeleton, files, n, (m - 1) as nat);
    }
}


/// `k` is the first rendered file whose path is `README.md`.
pub open spec fn first_readme(files: Seq<(Seq<char>, Seq<u8>)>, k: int) -> bool {
    &&& 0 <= k < files.len()
    &&& files[k].0 == "README.md"@
    &&& forall|j: int| 0 <= j < k ==> #[trigger] files[j].0 != "README.md"@
}

/// The `[[component]]` entry of the first `README.md` among the rendered files, read as
/// UTF-8 (invalid sequences replaced).
pub open spec fn readme_entry(files: Seq<(Seq<char>, Seq<u8>)>) -> Option<Seq<char>> {
    if exists|k: int| first_readme(files, k) {
        let k = choose|k: int| first_readme(files, k);
        toml_component(utf8_lossy(files[k].1))
    } else {
        None
    }
}

impl Rendered {
    /// The `[[component]]` entry the rendered README carries in its TOML block.
    pub fn component_entry(&self) -> (r: Option<String>)
        ensures
            opt_view(r) == readme_entry(files_view(self.files@)),
    {
        let ghost fs = files_view(self.files@);
        let readme = chars_of("README.md");
        let mut k: usize = 0;
        while k < self.files.len()
            invariant
                fs == files_view(self.files@),
                readme@ == "README.md"@,
                k <= self.files@.len(),
                forall|j: int| 0 <= j < k ==> #[trigger] fs[j].0 != "README.md"@,
            decreases self.files@.len() - k,
        {
            let (rel, bytes) = &self.files[k];
            assert(fs[k as int] == (rel@, bytes@));
            if chars_eq(chars_of(rel.as_str()).as_slice(), readme.as_slice()) {
                proof {
                    assert(first_readme(fs, k as int));
                    let c = choose|c: int| first_readme(fs, c);
                    if c < k {
                        assert(fs[c].0 != "README.md"@);
                    } else if c > k {
                        assert(fs[k as int].0 != "README.md"@);
                    }
                }
                let text = lossy_text(bytes.as_slice());
                let entry = component_entry(text.as_str());
                return match entry {
                    Some(e) => Some(e),
                    None => None,
                };
            }
            k = k + 1;
        }
        assert forall|c: int| !first_readme(fs, c) by {
            if 0 <= c < fs.len() {
                assert(fs[c].0 != "README.md"@);
            }
        }
        None
    }
}

/// What `pub new` was asked to do.
#[derive(Debug)]
pub struct Options {
    /// The crate kind.
    pub kind: Kind,
    /// The component name: lowercase words joined by hyphens.
    pub component: String,
    /// The repository, or a directory inside it; default: the current directory.
    pub dir: Option<String>,
    /// A templates checkout (`crate/<kind>/` under it) or the bootstrap kit
    /// (`templates/skeleton/crate/<kind>/`); default: a shallow clone of [`TEMPLATES_URL`].
    pub templates: Option<String>,
    /// The ref to clone; default: [`TEMPLATES_REF`].
    pub reference: Option<String>,
}

/// Why a component name is refused.
pub open spec fn bad_component_message(component: Seq<char>) -> Seq<char> {
    "`"@ + component
        + "` is not a component name: lowercase words joined by hyphens (a-z, 0-9, -)"@
}

/// The first check of `pub new`: the component is lowercase words joined by hyphens.
pub fn check_component(component: &str) -> (r: Result<(), String>)
    ensures
        r is Ok <==> component_ok(component@),
        r matches Err(m) ==> m@ == bad_component_message(component@),
{
    if component_is_well_formed(component) {
        Ok(())
    } else {
        let mut m = String::from_str("`");
        m.append(component);
        m.append("` is not a component name: lowercase words joined by hyphens (a-z, 0-9, -)");
        Err(m)
    }
}

/// What `toml::from_str` into a `toml::Table`, then the lookup of `[table] key` as a string,
/// give for a document: the error message, nothing (no such table, key or string), or the
/// string.
pub uninterp spec fn toml_string_at(
    text: Seq<char>,
    table: Seq<char>,
    key: Seq<char>,
) -> Result<Option<Seq<char>>, Seq<char>>;

/// `toml::from_str::<toml::Table>`, then `Table::get`, `Value::get` and `Value::as_str`: the
/// string at `[table] key` of the document. The contract names the result; what TOML accepts
/// and how its errors read is left to the `toml` crate.
#[verifier::external_body]
fn read_toml_string(text: &str, table: &str, key: &str) -> (r: Result<Option<String>, String>)
    ensures
        match r {
            Ok(Some(s)) => toml_string_at(text@, table@, key@) == Ok::<
                Option<Seq<char>>,
                Seq<char>,
            >(Some(s@)),
            Ok(None) => toml_string_at(text@, table@, key@) == Ok::<Option<Seq<char>>, Seq<char>>(
                None,
            ),
            Err(e) => toml_string_at(text@, table@, key@) == Err::<Option<Seq<char>>, Seq<char>>(
                e@,
            ),
        },
{
    match toml::from_str::<toml::Table>(text) {
        Err(e) => Err(e.to_string()),
        Ok(parsed) => Ok(
            match parsed.get(table) {
                Some(section) => match section.get(key) {
                    Some(value) => value.as_str().map(String::from),
                    None => None,
                },
                None => None,
            },
        ),
    }
}

/// What reading `[repo] name` out of a `CATALOG.toml` at `path` gives, from the lookup.
pub open spec fn repo_name_outcome(
    path: Seq<char>,
    lookup: Result<Option<Seq<char>>, Seq<char>>,
) -> Result<Seq<char>, Seq<char>> {
    match lookup {
        Err(e) => Err(path + ": "@ + e),
        Ok(None) => Err(path + ": no [repo] name"@),
        Ok(Some(name)) => Ok(name),
    }
}

/// The views of a result of strings.
pub open spec fn result_view(r: Result<String, String>) -> Result<Seq<char>, Seq<char>> {
    match r {
        Ok(s) => Ok(s@),
        Err(e) => Err(e@),
    }
}

/// `[repo] name` of a `CATALOG.toml` at `path`, from what the TOML lookup gave.
pub fn repo_name_from(path: &str, lookup: Result<Option<String>, String>) -> (r: Result<
    String,
    String,
>)
    ensures
        result_view(r) == repo_name_outcome(
            path@,
            match lookup {
                Ok(Some(s)) => Ok(Some(s@)),
                Ok(None) => Ok(None),
                Err(e) => Err(e@),
            },
        ),
{
    match lookup {
        Err(e) => {
            let mut m = String::from_str(path);
            m.append(": ");
            m.append(e.as_str());
            Err(m)
        },
        Ok(None) => {
            let mut m = String::from_str(path);
            m.append(": no [repo] name");
            Err(m)
        },
        Ok(Some(name)) => Ok(name),
    }
}

/// `[repo] name` of the `CATALOG.toml` at `path` whose text is `text`.
pub fn repo_name(path: &str, text: &str) -> (r: Result<String, String>)
    ensures
        result_view(r) == repo_name_outcome(path@, toml_string_at(text@, "repo"@, "name"@)),
{
    let lookup = read_toml_string(text, "repo", "name");
    repo_name_from(path, lookup)
}

/// What one directory on the way up decides, given what it holds: `found` is `None` without
/// a `CATALOG.toml` file, else what reading its `[repo] name` gave and whether a `Cargo.toml`
/// file is beside it. `None` means: go on to the parent, as for a `CATALOG.toml` that carries
/// no `[repo] name`; the repository is the first directory whose `CATALOG.toml` carries one.
pub open spec fn locate_step_outcome(
    dir: Seq<char>,
    found: Option<(Result<Seq<char>, Seq<char>>, bool)>,
) -> Option<Result<(Seq<char>, Seq<char>), Seq<char>>> {
    match found {
        None => None,
        Some((Err(_), _)) => None,
        Some((Ok(name), cargo)) => if cargo {
            Some(Ok((dir, name)))
        } else {
            Some(
                Err(joined(dir, "CATALOG.toml"@)
                    + " has no Cargo.toml beside it; a crate needs a workspace to land in"@),
            )
        },
    }
}

/// What the search answers when no directory from `start` up holds a `CATALOG.toml`.
pub open spec fn not_in_repository_message(start: Seq<char>) -> Seq<char> {
    start
        + " is not inside a repository: no CATALOG.toml with a [repo] table in it or above it (--dir names one)"@
}

impl Repo {
    /// One step of the search for the repository a directory lies in, at directory `dir`.
    pub fn locate_step(dir: &str, found: Option<(Result<String, String>, bool)>) -> (r: Option<
        Result<Repo, String>,
    >)
        ensures
            match locate_step_outcome(
                dir@,
                match found {
                    None => None,
                    Some((name, cargo)) => Some((result_view(name), cargo)),
                },
            ) {
                None => r is None,
                Some(Err(e)) => r matches Some(Err(m)) && m@ == e,
                Some(Ok((root, name))) => r matches Some(Ok(repo)) && repo.root@ == root
                    && repo.name@ == name,
            },
    {
        match found {
            None => None,
            Some((Err(_), _)) => None,
            Some((Ok(name), cargo)) => {
                if cargo {
                    Some(Ok(Repo { root: String::from_str(dir), name }))
                } else {
                    let mut m = join_path(dir, "CATALOG.toml");
                    m.append(" has no Cargo.toml beside it; a crate needs a workspace to land in");
                    Some(Err(m))
                }
            },
        }
    }

    /// What the search answers when no directory from `start` up holds a `CATALOG.toml`.
    pub fn not_in_repository(start: &str) -> (r: String)
        ensures
            r@ == not_in_repository_message(start@),
    {
        let mut m = String::from_str(start);
        m.append(
            " is not inside a repository: no CATALOG.toml with a [repo] table in it or above it (--dir names one)",
        );
        m
    }
}

/// The skeleton directory of one kind, and the clone it came from when it was fetched.
#[derive(Debug)]
pub struct Skeleton {
    /// `…/crate/<kind>`.
    pub dir: String,
    /// A temporary clone to remove when done.
    pub clone: Option<String>,
}

/// `crate/<kind>`: where a kind's skeleton lies in a templates checkout.
pub open spec fn skeleton_rel(kind: Kind) -> Seq<char> {
    joined("crate"@, kind_name(kind))
}

/// Where a kind's skeleton may lie under a templates path, in the order they are tried: a
/// templates checkout, then the bootstrap kit.
pub open spec fn skeleton_candidates(kind: Kind, root: Seq<char>) -> Seq<Seq<char>> {
    seq![
        joined(root, skeleton_rel(kind)),
        joined(joined(root, "templates/skeleton"@), skeleton_rel(kind)),
    ]
}

impl Skeleton {
    /// `crate/<kind>`.
    pub fn rel(kind: Kind) -> (r: String)
        ensures
            r@ == skeleton_rel(kind),
    {
        join_path("crate", kind.name())
    }

    /// Where `crate/<kind>/` may lie under `root`, in the order they are tried.
    pub fn candidates(kind: Kind, root: &str) -> (r: Vec<String>)
        ensures
            texts(r@) == skeleton_candidates(kind, root@),
    {
        let rel = Self::rel(kind);
        let mut v: Vec<String> = Vec::new();
        v.push(join_path(root, rel.as_str()));
        let kit = join_path(root, "templates/skeleton");
        v.push(join_path(kit.as_str(), rel.as_str()));
        assert(texts(v@) =~= skeleton_candidates(kind, root@));
        v
    }

    /// The skeleton under a templates path `root`: the first candidate that is a directory
    /// (`present[k]` tells whether candidate `k` is one), else the refusal naming the path.
    pub fn pick(kind: Kind, root: &str, present: &[bool]) -> (r: Result<Skeleton, String>)
        ensures
            match r {
                Ok(s) => s.clone is None && exists|k: int|
                    0 <= k < 2 && k < present@.len() && present@[k] && (forall|j: int|
                        0 <= j < k ==> !present@[j]) && s.dir@ == skeleton_candidates(kind, root@)[k],
                Err(m) => (forall|k: int| 0 <= k < 2 && k < present@.len() ==> !present@[k])
                    && m@ == root@ + " carries no "@ + skeleton_rel(kind)
                    + ": pass a templates checkout or the bootstrap kit"@,
            },
    {
        let candidates = Self::candidates(kind, root);
        assert(candidates@.len() == texts(candidates@).len());
        let mut k: usize = 0;
        while k < 2 && k < present.len()
            invariant
                texts(candidates@) == skeleton_candidates(kind, root@),
                candidates@.len() == 2,
                k <= 2,
                forall|j: int| 0 <= j < k ==> !present@[j],
            decreases 2 - k,
        {
            if present[k] {
                let dir = candidates[k].clone();
                assert(texts(candidates@)[k as int] == candidates@[k as int]@);
                return Ok(Skeleton { dir, clone: None });
            }
            k = k + 1;
        }
        let mut m = String::from_str(root);
        m.append(" carries no ");
        m.append(Self::rel(kind).as_str());
        m.append(": pass a templates checkout or the bootstrap kit");
        Err(m)
    }

    /// The skeleton in a fresh clone at `clone` of the templates repository at `reference`,
    /// from how the clone went: the trimmed error output of a failed `git clone`, or whether
    /// `crate/<kind>` is a directory of the clone.
    pub fn from_clone(kind: Kind, clone: &str, reference: &str, cloned: Result<bool, String>) -> (r:
        Result<Skeleton, String>)
        ensures
            match cloned {
                Err(stderr) => r matches Err(m) && m@ == "git clone "@ + TEMPLATES_URL@ + " at "@
                    + reference@ + " failed: "@ + stderr@
                    + "\n  (a local checkout works too: --templates <path>)"@,
                Ok(false) => r matches Err(m) && m@ == TEMPLATES_URL@ + " at "@ + reference@
                    + " carries no "@ + skeleton_rel(kind)
                    + " yet: pass --templates <path> to a checkout that does"@,
                Ok(true) => r matches Ok(s) && s.dir@ == joined(clone@, skeleton_rel(kind))
                    && (s.clone matches Some(c) && c@ == clone@),
            },
    {
        match cloned {
            Err(stderr) => {
                let mut m = String::from_str("git clone ");
                m.append(TEMPLATES_URL);
                m.append(" at ");
                m.append(reference);
                m.append(" failed: ");
                m.append(stderr.as_str());
                m.append("\n  (a local checkout works too: --templates <path>)");
                Err(m)
            },
            Ok(false) => {
                let mut m = String::from_str(TEMPLATES_URL);
                m.append(" at ");
                m.append(reference);
                m.append(" carries no ");
                m.append(Self::rel(kind).as_str());
                m.append(" yet: pass --templates <path> to a checkout that does");
                Err(m)
            },
            Ok(true) => {
                let rel = Self::rel(kind);
                Ok(Skeleton { dir: join_path(clone, rel.as_str()), clone: Some(String::from_str(clone)) })
            },
        }
    }
}

/// What `pub new` prints once the crate is written.
pub open spec fn report_text(
    crate_name: Seq<char>,
    dir: Seq<char>,
    skeleton: Seq<char>,
    root: Seq<char>,
    entry: Option<Seq<char>>,
) -> Seq<char> {
    "  ✓ "@ + crate_name + " rendered into "@ + dir + " (from "@ + skeleton
        + ")\n\n  next:\n  1. add this entry to "@ + joined(root, "CATALOG.toml"@) + ":\n\n"@
        + match entry {
        Some(e) => e,
        None => "  (the skeleton's README carries no [[component]] entry)\n"@,
    } + "\n  2. add a Status row to "@ + joined(root, "README.md"@) + "\n  3. "@ + org::CLI@
        + " check\n"@
}

/// What `pub new` prints once `rendered` is written from the skeleton at `skeleton` into
/// `repo`.
pub fn report(rendered: &Rendered, skeleton: &str, repo: &Repo) -> (r: String)
    ensures
        r@ == report_text(
            rendered.crate_name@,
            rendered.dir@,
            skeleton@,
            repo.root@,
            readme_entry(files_view(rendered.files@)),
        ),
{
    let mut out = String::from_str("  ✓ ");
    out.append(rendered.crate_name.as_str());
    out.append(" rendered into ");
    out.append(rendered.dir.as_str());
    out.append(" (from ");
    out.append(skeleton);
    out.append(")\n\n  next:\n  1. add this entry to ");
    out.append(join_path(repo.root.as_str(), "CATALOG.toml").as_str());
    out.append(":\n\n");
    match rendered.component_entry() {
        Some(entry) => out.append(entry.as_str()),
        None => out.append("  (the skeleton's README carries no [[component]] entry)\n"),
    }
    out.append("\n  2. add a Status row to ");
    out.append(join_path(repo.root.as_str(), "README.md").as_str());
    out.append("\n  3. ");
    out.append(org::CLI);
    out.append(" check\n");
    out
}

/// A rendering that succeeds mirrors the skeleton: one file per skeleton file, in order and
/// under the same path; a binary is its bytes as read; a text is the substituted text, with
/// exactly one trailing newline and no placeholder left.
pub proof fn rendering_mirrors_the_skeleton(
    vars: Seq<(Seq<char>, Seq<char>)>,
    skeleton: Seq<char>,
    files: Seq<(Seq<char>, Result<Seq<u8>, Seq<char>>)>,
    n: nat,
)
    requires
        n <= files.len(),
        render_prefix(vars, skeleton, files, n) is Ok,
        render_prefix(vars, skeleton, files, n)->Ok_0.1.len() == 0,
    ensures
        ({
            let out = render_prefix(vars, skeleton, files, n)->Ok_0.0;
            &&& out.len() == n
            &&& forall|k: int|
                0 <= k < n ==> {
                    let (rel, read) = #[trigger] files[k];
                    &&& out[k].0 == rel
                    &&& binary_path(rel) ==> read == Ok::<Seq<u8>, Seq<char>>(out[k].1)
                    &&& !binary_path(rel) ==> (read matches Ok(b) && valid_utf8(b) && {
                        let text = rendered_text(decode_utf8(b), vars);
                        &&& out[k].1 == encode_utf8(text)
                        &&& surviving(text) is None
                        &&& text.last() == '\n'
                        &&& (text.len() < 2 || text[text.len() - 2] != '\n')
                    })
                }
        }),
    decreases n,
{
    if n > 0 {
        let m = (n - 1) as nat;
        let prev = render_prefix(vars, skeleton, files, m);
        assert(prev is Ok);
        let (out0, notes0) = prev->Ok_0;
        let (rel, read) = files[m as int];
        let fo = file_outcome(vars, skeleton, rel, read);
        assert(fo is Ok);
        let (bytes, survivor) = fo->Ok_0;
        assert(notes0.len() == 0 && survivor is None) by {
            if survivor is Some {
                assert(render_prefix(vars, skeleton, files, n)->Ok_0.1.len() == notes0.len() + 1);
            }
        }
        rendering_mirrors_the_skeleton(vars, skeleton, files, m);
        if !binary_path(rel) {
            if let Ok(b) = read {
                normalize_leaves_one_newline(substituted(decode_utf8(b), vars));
            }
        }
        let out = render_prefix(vars, skeleton, files, n)->Ok_0.0;
        assert(out == out0.push((rel, bytes)));
        assert forall|k: int| 0 <= k < m implies out[k] == out0[k] by {}
    }
}

} // verus!












