//! How `validate` reports a repository name that an earlier repository already has: once,
//! naming the first, and only then.

use vstd::prelude::*;

use crate::catalog::catalog_problems;
use crate::catalog::digits_value;
use crate::catalog::duplicate_names_the_first_namesake;
use crate::catalog::duplicate_problems;
use crate::catalog::first_namesake;
use crate::catalog::is_digit;
use crate::catalog::layer_ok;
use crate::catalog::layer_step;
use crate::catalog::layers_problems;
use crate::catalog::lemma_prefix_extends;
use crate::catalog::login_ok;
use crate::catalog::meta_problems;
use crate::catalog::problem_if;
use crate::catalog::repo_at;
use crate::catalog::repo_problems;
use crate::catalog::repos_problems;
use crate::catalog::starts_with;
use crate::catalog::Catalog;
use crate::catalog::Repo;
use crate::catalog::VERSION;
use crate::text::debug_str;
use crate::text::decimal;
use crate::text::digit_char;
use crate::text::texts;

verus! {

proof fn lemma_decimal_digits(n: nat)
    ensures
        decimal(n).len() > 0,
        forall|k: int| 0 <= k < decimal(n).len() ==> is_digit(#[trigger] decimal(n)[k]),
        digits_value(decimal(n)) == n,
    decreases n,
{
    let d = digit_char(n % 10);
    assert(d as u32 == (n % 10) + 48);
    if n < 10 {
        let s = decimal(n);
        assert(s.drop_last() =~= Seq::<char>::empty());
        assert(digits_value(s.drop_last()) == 0);
        assert(s.last() == d);
        assert(((d as u32) - 48) as nat == n);
        assert(digits_value(s) == digits_value(s.drop_last()) * 10 + ((s.last() as u32) - 48) as nat);
    } else {
        lemma_decimal_digits(n / 10);
        let s = decimal(n);
        assert(s.drop_last() =~= decimal(n / 10));
        assert(s.last() == d);
        assert((n / 10) * 10 + n % 10 == n) by (nonlinear_arith);
        assert(((d as u32) - 48) as nat == n % 10);
        assert(digits_value(s) == digits_value(s.drop_last()) * 10 + ((s.last() as u32) - 48) as nat);
    }
}

/// Two different positions are written differently: some character of `repo_at(i)` differs
/// from the one at the same place in `repo_at(j)`.
proof fn lemma_repo_at_apart(i: nat, j: nat)
    requires
        i != j,
    ensures
        exists|q: int|
            0 <= q < repo_at(i).len() && q < repo_at(j).len() && #[trigger] repo_at(i)[q]
                != repo_at(j)[q],
{
    reveal_strlit("catalog.repo[");
    reveal_strlit("]");
    let d = decimal(i);
    let e = decimal(j);
    lemma_decimal_digits(i);
    lemma_decimal_digits(j);
    let a = repo_at(i);
    let b = repo_at(j);
    assert(forall|k: int| 0 <= k < d.len() ==> a[13 + k] == #[trigger] d[k]);
    assert(forall|k: int| 0 <= k < e.len() ==> b[13 + k] == #[trigger] e[k]);
    assert(a[(13 + d.len()) as int] == ']');
    assert(b[(13 + e.len()) as int] == ']');
    if d.len() == e.len() {
        if forall|k: int| 0 <= k < d.len() ==> d[k] == e[k] {
            assert(d =~= e);
        }
        let k = choose|k: int| 0 <= k < d.len() && d[k] != e[k];
        assert(a[13 + k] != b[13 + k]);
    } else if d.len() < e.len() {
        assert(is_digit(e[d.len() as int]));
        assert(a[(13 + d.len()) as int] != b[(13 + d.len()) as int]);
    } else {
        assert(is_digit(d[e.len() as int]));
        assert(a[(13 + e.len()) as int] != b[(13 + e.len()) as int]);
    }
}

/// How the report that the name of repository `i` is taken starts.
pub open spec fn duplicate_prefix(repos: Seq<Repo>, i: int) -> Seq<char> {
    repo_at(i as nat) + ".name: "@ + debug_str(repos[i].name@) + " is already"@
}

/// The report that the name of repository `i` is already that of repository `f`.
pub open spec fn duplicate_message(repos: Seq<Repo>, i: int, f: int) -> Seq<char> {
    repo_at(i as nat) + ".name: "@ + debug_str(repos[i].name@) + " is already repo["@ + decimal(
        f as nat,
    ) + "]"@
}

/// No problem of `s` starts with `p`.
pub open spec fn none_starts_with(s: Seq<Seq<char>>, p: Seq<char>) -> bool {
    forall|k: int| 0 <= k < s.len() ==> !starts_with(#[trigger] s[k], p)
}

/// Every problem of `s` starts with `p`.
pub open spec fn all_start_with(s: Seq<Seq<char>>, p: Seq<char>) -> bool {
    forall|k: int| 0 <= k < s.len() ==> starts_with(#[trigger] s[k], p)
}

proof fn lemma_self_prefix(a: Seq<char>)
    ensures
        starts_with(a, a),
{
    assert(a.take(a.len() as int) =~= a);
}

proof fn lemma_prefix_trans(m: Seq<char>, a: Seq<char>, p: Seq<char>)
    requires
        starts_with(m, a),
        starts_with(a, p),
    ensures
        starts_with(m, p),
{
    assert(m.take(p.len() as int) =~= a.take(p.len() as int));
}

/// A text that starts with `a` does not start with `p` when `a` and `p` differ at `q`.
proof fn lemma_diverge(m: Seq<char>, a: Seq<char>, p: Seq<char>, q: int)
    requires
        starts_with(m, a),
        0 <= q < a.len(),
        q < p.len(),
        a[q] != p[q],
    ensures
        !starts_with(m, p),
{
    if starts_with(m, p) {
        assert(m.take(p.len() as int)[q] == m[q]);
        assert(m.take(a.len() as int)[q] == m[q]);
    }
}

/// `at + lit` and `at + other` part where `lit` and `other` do.
proof fn lemma_apart_after(m: Seq<char>, at: Seq<char>, lit: Seq<char>, p: Seq<char>, other: Seq<char>, k: int)
    requires
        starts_with(m, at + lit),
        starts_with(p, at + other),
        0 <= k < lit.len(),
        k < other.len(),
        lit[k] != other[k],
    ensures
        !starts_with(m, p),
{
    let q = at.len() + k;
    assert((at + lit)[q] == lit[k]);
    assert(p.take((at + other).len() as int)[q] == p[q]);
    assert((at + other)[q] == other[k]);
    lemma_diverge(m, at + lit, p, q);
}

proof fn lemma_none_concat(a: Seq<Seq<char>>, b: Seq<Seq<char>>, p: Seq<char>)
    requires
        none_starts_with(a, p),
        none_starts_with(b, p),
    ensures
        none_starts_with(a + b, p),
{
    assert forall|k: int| 0 <= k < (a + b).len() implies !starts_with(#[trigger] (a + b)[k], p) by {
        if k < a.len() {
            assert((a + b)[k] == a[k]);
        } else {
            assert((a + b)[k] == b[k - a.len()]);
        }
    }
}

proof fn lemma_all_concat(a: Seq<Seq<char>>, b: Seq<Seq<char>>, p: Seq<char>)
    requires
        all_start_with(a, p),
        all_start_with(b, p),
    ensures
        all_start_with(a + b, p),
{
    assert forall|k: int| 0 <= k < (a + b).len() implies starts_with(#[trigger] (a + b)[k], p) by {
        if k < a.len() {
            assert((a + b)[k] == a[k]);
        } else {
            assert((a + b)[k] == b[k - a.len()]);
        }
    }
}

/// `at + lit + x + y` starts with `at + lit`, and so with `at`.
proof fn lemma_starts(at: Seq<char>, lit: Seq<char>, x: Seq<char>, y: Seq<char>)
    ensures
        starts_with(at + lit + x + y, at + lit),
        starts_with(at + lit + x, at + lit),
        starts_with(at + lit, at + lit),
        starts_with(at + lit + x + y, at),
        starts_with(at + lit + x, at),
        starts_with(at + lit, at),
{
    lemma_self_prefix(at + lit);
    lemma_prefix_extends(at + lit, x, at + lit);
    lemma_prefix_extends(at + lit + x, y, at + lit);
    lemma_self_prefix(at);
    lemma_prefix_extends(at, lit, at);
    lemma_prefix_trans(at + lit + x, at + lit, at);
    lemma_prefix_trans(at + lit + x + y, at + lit, at);
}

/// Every problem of a repository found at `at` starts with `at`, and none starts as the report
/// of a taken name does.
proof fn lemma_repo_problems(r: Repo, at: Seq<char>, p: Seq<char>)
    requires
        starts_with(p, at + ".name: "@ + debug_str(r.name@) + " is already"@),
    ensures
        all_start_with(repo_problems(r, at), at),
        none_starts_with(repo_problems(r, at), p),
{
    reveal_strlit(".name: ");
    reveal_strlit(" is already");
    reveal_strlit(" is not a repository name (lowercase, digits, hyphens)");
    reveal_strlit(".ring: ");
    reveal_strlit(".wave: ");
    reveal_strlit(".layers: fewer than 1 items");
    reveal_strlit(".purpose: shorter than 1");
    reveal_strlit(".contents: shorter than 1");
    let n = ".name: "@;
    let dn = debug_str(r.name@);
    let head = n + dn + " is already"@;
    assert(at + n + dn + " is already"@ =~= at + head);
    // name
    let not_name = " is not a repository name (lowercase, digits, hyphens)"@;
    let m_name = at + n + dn + not_name;
    lemma_starts(at, n + dn + not_name, seq![], seq![]);
    assert(at + (n + dn + not_name) =~= m_name);
    assert(m_name + Seq::<char>::empty() =~= m_name);
    lemma_apart_after(m_name, at, n + dn + not_name, p, head, (7 + dn.len() + 4) as int);
    // ring
    let ring = ".ring: "@;
    let m_ring = at + ring + debug_str(r.ring@)
        + " is not one of [\"spine\", \"platform\", \"system\", \"domain\", \"standards\"]"@;
    lemma_starts(
        at,
        ring,
        debug_str(r.ring@),
        " is not one of [\"spine\", \"platform\", \"system\", \"domain\", \"standards\"]"@,
    );
    lemma_apart_after(m_ring, at, ring, p, head, 1);
    // wave
    let wave = ".wave: "@;
    let m_wave = at + wave + decimal(r.wave as nat) + " is below 1"@;
    lemma_starts(at, wave, decimal(r.wave as nat), " is below 1"@);
    lemma_apart_after(m_wave, at, wave, p, head, 1);
    // the flags
    let fewer = ".layers: fewer than 1 items"@;
    let purpose = ".purpose: shorter than 1"@;
    let contents = ".contents: shorter than 1"@;
    lemma_starts(at, fewer, seq![], seq![]);
    lemma_starts(at, purpose, seq![], seq![]);
    lemma_starts(at, contents, seq![], seq![]);
    lemma_apart_after(at + fewer, at, fewer, p, head, 1);
    lemma_apart_after(at + purpose, at, purpose, p, head, 1);
    lemma_apart_after(at + contents, at, contents, p, head, 1);
    lemma_layers(texts(r.layers@), at, p, head, r.layers@.len());
    let a = problem_if(!crate::catalog::repo_name_ok(r.name@), m_name);
    let b = problem_if(!crate::catalog::rings().contains(r.ring@), m_ring);
    let c = problem_if(r.wave < 1, m_wave);
    let d = problem_if(r.layers@.len() == 0, at + fewer);
    let e = layers_problems(texts(r.layers@), at, r.layers@.len());
    let f = problem_if(r.purpose@.len() == 0, at + purpose);
    let g = problem_if(r.contents@.len() == 0, at + contents);
    lemma_all_concat(a, b, at);
    lemma_all_concat(a + b, c, at);
    lemma_all_concat(a + b + c, d, at);
    lemma_all_concat(a + b + c + d, e, at);
    lemma_all_concat(a + b + c + d + e, f, at);
    lemma_all_concat(a + b + c + d + e + f, g, at);
    lemma_none_concat(a, b, p);
    lemma_none_concat(a + b, c, p);
    lemma_none_concat(a + b + c, d, p);
    lemma_none_concat(a + b + c + d, e, p);
    lemma_none_concat(a + b + c + d + e, f, p);
    lemma_none_concat(a + b + c + d + e + f, g, p);
}

proof fn lemma_layers(layers: Seq<Seq<char>>, at: Seq<char>, p: Seq<char>, head: Seq<char>, n: nat)
    requires
        n <= layers.len(),
        starts_with(p, at + head),
        head.len() > 1,
        head[1] == 'n',
    ensures
        all_start_with(layers_problems(layers, at, n), at),
        none_starts_with(layers_problems(layers, at, n), p),
    decreases n,
{
    if n > 0 {
        let j = (n - 1) as nat;
        lemma_layers(layers, at, p, head, j);
        let layer = layers[j as int];
        reveal_strlit(".layers[");
        reveal_strlit("]: ");
        reveal_strlit(".layers: repeated items");
        let open = ".layers["@;
        let tail = decimal(j) + "]: "@ + debug_str(layer) + " is not L0..L18 or \"all\""@;
        let m = at + open + decimal(j) + "]: "@ + debug_str(layer) + " is not L0..L18 or \"all\""@;
        assert(m =~= at + open + tail);
        lemma_starts(at, open, tail, seq![]);
        assert(at + open + tail + Seq::<char>::empty() =~= m);
        lemma_apart_after(m, at, open, p, head, 1);
        let rep = ".layers: repeated items"@;
        lemma_starts(at, rep, seq![], seq![]);
        lemma_apart_after(at + rep, at, rep, p, head, 1);
        let a = problem_if(!layer_ok(layer), m);
        let b = problem_if(layers.take(j as int).contains(layer), at + rep);
        assert(layer_step(layers, at, j) == a + b);
        lemma_all_concat(a, b, at);
        lemma_none_concat(a, b, p);
        lemma_all_concat(layers_problems(layers, at, j), a + b, at);
        lemma_none_concat(layers_problems(layers, at, j), a + b, p);
    }
}

proof fn lemma_none_from_all(s: Seq<Seq<char>>, a: Seq<char>, p: Seq<char>, b: Seq<char>, q: int)
    requires
        all_start_with(s, a),
        starts_with(p, b),
        0 <= q < a.len(),
        q < b.len(),
        a[q] != b[q],
    ensures
        none_starts_with(s, p),
{
    assert(p.take(b.len() as int)[q] == p[q]);
    assert forall|k: int| 0 <= k < s.len() implies !starts_with(#[trigger] s[k], p) by {
        lemma_diverge(s[k], a, p, q);
    }
}

/// The report of a taken name starts with where the repository is.
proof fn lemma_prefix_starts(repos: Seq<Repo>, i: int)
    ensures
        starts_with(duplicate_prefix(repos, i), repo_at(i as nat)),
        forall|f: int| starts_with(#[trigger] duplicate_message(repos, i, f), duplicate_prefix(repos, i)),
        forall|f: int| starts_with(#[trigger] duplicate_message(repos, i, f), repo_at(i as nat)),
{
    reveal_strlit(" is already");
    reveal_strlit(" is already repo[");
    let at = repo_at(i as nat);
    let base = at + ".name: "@ + debug_str(repos[i].name@);
    lemma_starts(at, ".name: "@, debug_str(repos[i].name@), " is already"@);
    assert forall|f: int|
        starts_with(#[trigger] duplicate_message(repos, i, f), duplicate_prefix(repos, i))
            && starts_with(duplicate_message(repos, i, f), at) by {
        let al = " is already"@;
        let alr = " is already repo["@;
        assert((base + alr).take((base + al).len() as int) =~= base + al);
        lemma_prefix_extends(base + alr, decimal(f as nat), base + al);
        lemma_prefix_extends(base + alr + decimal(f as nat), "]"@, base + al);
        lemma_prefix_trans(duplicate_message(repos, i, f), duplicate_prefix(repos, i), at);
    }
}

/// What `catalog.repo[i]` starts with.
proof fn lemma_repo_at_starts(i: nat)
    ensures
        starts_with(repo_at(i), "catalog.repo["@),
{
    lemma_starts("catalog.repo["@, decimal(i), "]"@, seq![]);
    assert("catalog.repo["@ + decimal(i) + "]"@ + Seq::<char>::empty() =~= repo_at(i));
}

/// The problems of the catalog table, and of a catalog without repositories, never start as
/// the report of a taken name does.
proof fn lemma_meta_free(c: Catalog, i: int)
    ensures
        none_starts_with(meta_problems(c), duplicate_prefix(c.repo@, i)),
{
    let p = duplicate_prefix(c.repo@, i);
    let r = "catalog.repo["@;
    reveal_strlit("catalog.repo[");
    reveal_strlit("catalog.catalog.version: ");
    reveal_strlit("catalog.catalog.org: ");
    reveal_strlit("catalog.repo: fewer than 1 items");
    lemma_prefix_starts(c.repo@, i);
    lemma_repo_at_starts(i as nat);
    lemma_prefix_trans(p, repo_at(i as nat), r);
    let v = "catalog.catalog.version: "@;
    let o = "catalog.catalog.org: "@;
    let e = "catalog.repo: fewer than 1 items"@;
    let mv = v + decimal(c.catalog.version as nat) + " is not 1"@;
    let mo = o + debug_str(c.catalog.org@) + " is not a GitHub login"@;
    lemma_starts(v, seq![], decimal(c.catalog.version as nat), " is not 1"@);
    assert(v + Seq::<char>::empty() =~= v);
    assert(v + Seq::<char>::empty() + decimal(c.catalog.version as nat) + " is not 1"@ =~= mv);
    lemma_starts(o, seq![], debug_str(c.catalog.org@), " is not a GitHub login"@);
    assert(o + Seq::<char>::empty() =~= o);
    assert(o + Seq::<char>::empty() + debug_str(c.catalog.org@) + " is not a GitHub login"@ =~= mo);
    lemma_self_prefix(e);
    assert(p.take(13)[8] == p[8]);
    assert(p.take(13)[12] == p[12]);
    lemma_diverge(mv, v, p, 8);
    lemma_diverge(mo, o, p, 8);
    lemma_diverge(e, e, p, 12);
    let a = problem_if(c.catalog.version != VERSION, mv);
    let b = problem_if(!login_ok(c.catalog.org@), mo);
    let d = problem_if(c.repo@.len() == 0, e);
    lemma_none_concat(a, b, p);
    lemma_none_concat(a + b, d, p);
}

/// What repository `j` adds to the problems, and how it stands to the report that the name of
/// repository `i` is taken.
proof fn lemma_repo_block(repos: Seq<Repo>, j: int, i: int)
    requires
        0 <= j < repos.len(),
        0 <= i < repos.len(),
    ensures
        j != i ==> none_starts_with(
            repo_problems(repos[j], repo_at(j as nat)) + duplicate_problems(repos, j),
            duplicate_prefix(repos, i),
        ),
        none_starts_with(repo_problems(repos[i], repo_at(i as nat)), duplicate_prefix(repos, i)),
        all_start_with(duplicate_problems(repos, i), duplicate_prefix(repos, i)),
{
    let p = duplicate_prefix(repos, i);
    lemma_prefix_starts(repos, i);
    lemma_self_prefix(p);
    lemma_repo_problems(repos[i], repo_at(i as nat), p);
    if exists|f: int| first_namesake(repos, i, f) {
        let f = choose|f: int| first_namesake(repos, i, f);
        assert(duplicate_problems(repos, i) =~= seq![duplicate_message(repos, i, f)]);
    } else {
        assert(duplicate_problems(repos, i) =~= Seq::<Seq<char>>::empty());
    }
    if j != i {
        let atj = repo_at(j as nat);
        let pj = duplicate_prefix(repos, j);
        lemma_prefix_starts(repos, j);
        lemma_self_prefix(pj);
        lemma_repo_problems(repos[j], atj, pj);
        let dup = duplicate_problems(repos, j);
        if exists|f: int| first_namesake(repos, j, f) {
            let f = choose|f: int| first_namesake(repos, j, f);
            assert(dup =~= seq![duplicate_message(repos, j, f)]);
        } else {
            assert(dup =~= Seq::<Seq<char>>::empty());
        }
        assert(all_start_with(dup, atj));
        lemma_all_concat(repo_problems(repos[j], atj), dup, atj);
        lemma_repo_at_apart(j as nat, i as nat);
        let q = choose|q: int|
            0 <= q < repo_at(j as nat).len() && q < repo_at(i as nat).len() && #[trigger] repo_at(
                j as nat,
            )[q] != repo_at(i as nat)[q];
        lemma_none_from_all(repo_problems(repos[j], atj) + dup, atj, p, repo_at(i as nat), q);
    }
}

proof fn lemma_before_free(repos: Seq<Repo>, i: int, n: nat)
    requires
        n <= i < repos.len(),
    ensures
        none_starts_with(repos_problems(repos, n), duplicate_prefix(repos, i)),
    decreases n,
{
    if n > 0 {
        let j = (n - 1) as nat;
        lemma_before_free(repos, i, j);
        lemma_repo_block(repos, j as int, i);
        lemma_none_concat(
            repos_problems(repos, j),
            repo_problems(repos[j as int], repo_at(j)) + duplicate_problems(repos, j as int),
            duplicate_prefix(repos, i),
        );
        assert(repos_problems(repos, n) =~= repos_problems(repos, j) + (repo_problems(
            repos[j as int],
            repo_at(j),
        ) + duplicate_problems(repos, j as int)));
    }
}

proof fn lemma_after_free(repos: Seq<Repo>, i: int, n: nat)
    requires
        0 <= i < n <= repos.len(),
    ensures
        repos_problems(repos, n).len() >= repos_problems(repos, (i + 1) as nat).len(),
        repos_problems(repos, n).take(repos_problems(repos, (i + 1) as nat).len() as int)
            == repos_problems(repos, (i + 1) as nat),
        none_starts_with(
            repos_problems(repos, n).skip(repos_problems(repos, (i + 1) as nat).len() as int),
            duplicate_prefix(repos, i),
        ),
    decreases n,
{
    let head = repos_problems(repos, (i + 1) as nat);
    let l = head.len() as int;
    if n == i + 1 {
        assert(head.take(l) =~= head);
        assert(head.skip(l) =~= Seq::<Seq<char>>::empty());
    } else {
        let j = (n - 1) as nat;
        lemma_after_free(repos, i, j);
        lemma_repo_block(repos, j as int, i);
        let block = repo_problems(repos[j as int], repo_at(j)) + duplicate_problems(
            repos,
            j as int,
        );
        let before = repos_problems(repos, j);
        assert(repos_problems(repos, n) =~= before + block);
        assert((before + block).take(l) =~= before.take(l));
        assert((before + block).skip(l) =~= before.skip(l) + block);
        lemma_none_concat(before.skip(l), block, duplicate_prefix(repos, i));
    }
}

/// `validate` reports that the name of repository `i` is taken exactly when an earlier
/// repository has it, naming the first such repository, and in at most one line.
#[verifier::rlimit(80)]
pub proof fn validate_reports_a_taken_name_once(c: Catalog, i: int)
    requires
        0 <= i < c.repo@.len(),
    ensures
        forall|f: int|
            starts_with(
                #[trigger] duplicate_message(c.repo@, i, f),
                duplicate_prefix(c.repo@, i),
            ),
        (exists|k: int| 0 <= k < i && #[trigger] c.repo@[k].name@ == c.repo@[i].name@) ==> exists|
            f: int,
        |
            #[trigger] first_namesake(c.repo@, i, f) && catalog_problems(c).contains(
                duplicate_message(c.repo@, i, f),
            ),
        !(exists|k: int| 0 <= k < i && #[trigger] c.repo@[k].name@ == c.repo@[i].name@)
            ==> none_starts_with(catalog_problems(c), duplicate_prefix(c.repo@, i)),
        forall|a: int, b: int|
            0 <= a < b < catalog_problems(c).len() && starts_with(
                #[trigger] catalog_problems(c)[a],
                duplicate_prefix(c.repo@, i),
            ) ==> !starts_with(#[trigger] catalog_problems(c)[b], duplicate_prefix(c.repo@, i)),
{
    let repos = c.repo@;
    let p = duplicate_prefix(repos, i);
    lemma_prefix_starts(repos, i);
    lemma_meta_free(c, i);
    lemma_before_free(repos, i, i as nat);
    lemma_repo_block(repos, i, i);
    lemma_after_free(repos, i, repos.len());
    duplicate_names_the_first_namesake(repos, i);
    let rp = repo_problems(repos[i], repo_at(i as nat));
    let d = duplicate_problems(repos, i);
    let head = repos_problems(repos, (i + 1) as nat);
    assert(head =~= repos_problems(repos, i as nat) + rp + d);
    let all = repos_problems(repos, repos.len());
    let l = head.len() as int;
    let z = all.skip(l);
    let a = meta_problems(c) + repos_problems(repos, i as nat) + rp;
    lemma_none_concat(meta_problems(c), repos_problems(repos, i as nat), p);
    lemma_none_concat(meta_problems(c) + repos_problems(repos, i as nat), rp, p);
    assert(all =~= all.take(l) + z);
    let ps = catalog_problems(c);
    assert(ps =~= a + d + z);
    assert forall|x: int| 0 <= x < ps.len() && starts_with(#[trigger] ps[x], p) implies x
        == a.len() by {
        if x < a.len() {
            assert(ps[x] == a[x]);
        } else if x >= a.len() + d.len() {
            assert(ps[x] == z[x - a.len() - d.len()]);
        }
    }
    if d.len() == 1 {
        assert(ps[a.len() as int] == d[0]);
        let f = choose|f: int|
            #[trigger] first_namesake(repos, i, f) && d[0] == repo_at(i as nat) + ".name: "@
                + debug_str(repos[i].name@) + " is already repo["@ + decimal(f as nat) + "]"@;
        assert(d[0] == duplicate_message(repos, i, f));
        assert(ps.contains(duplicate_message(repos, i, f)));
    } else {
        assert(d.len() == 0);
        assert forall|x: int| 0 <= x < ps.len() implies !starts_with(#[trigger] ps[x], p) by {
            if x < a.len() {
                assert(ps[x] == a[x]);
            } else {
                assert(ps[x] == z[x - a.len()]);
            }
        }
    }
}

} // verus!
