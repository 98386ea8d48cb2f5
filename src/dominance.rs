//! The dominance strategy. The distinct fragments of a block are put in
//! lexicographic order; every fragment that another fragment of its class
//! dominates is filtered out; every pair whose lengths add up to a
//! multiple of eight proposes a candidate; and the candidate with the most
//! votes wins, the lexicographically smallest among equally voted ones. The
//! result depends on the set of distinct fragments alone, not on the order in
//! which they arrive nor on repeats (`lemma_stable_order_independent`).

use vstd::prelude::*;
use crate::fragment::{
    dominates, lemma_lex_asymmetric, lemma_lex_total, lemma_lex_transitive, lex_less, lex_less_str,
    satisfies_remove_requirements, views,
};

verus! {

/// Every element of `s` comes before every later one in the lexicographic
/// order.
pub open spec fn strictly_sorted(s: Seq<Seq<char>>) -> bool {
    forall|i: int, j: int| 0 <= i < j < s.len() ==> lex_less(#[trigger] s[i], #[trigger] s[j])
}

/// `x` added to the sorted `s` in its place, unless `s` holds it already.
pub open spec fn insert_sorted(s: Seq<Seq<char>>, x: Seq<char>) -> Seq<Seq<char>>
    decreases s.len(),
{
    if s.len() == 0 {
        seq![x]
    } else if s[0] == x {
        s
    } else if lex_less(x, s[0]) {
        seq![x] + s
    } else {
        seq![s[0]] + insert_sorted(s.drop_first(), x)
    }
}

/// The distinct elements of `s` in lexicographic order.
pub open spec fn sorted_distinct(s: Seq<Seq<char>>) -> Seq<Seq<char>>
    decreases s.len(),
{
    if s.len() == 0 {
        seq![]
    } else {
        insert_sorted(sorted_distinct(s.drop_last()), s.last())
    }
}

/// Some element of `s` dominates `s[j]`.
pub open spec fn dominated_in(s: Seq<Seq<char>>, j: int) -> bool {
    exists|i: int| 0 <= i < s.len() && #[trigger] dominates(s[i], s[j])
}

/// The elements among the first `n` of `s` that no element of `s` dominates,
/// in order.
pub open spec fn undominated_prefix(s: Seq<Seq<char>>, n: nat) -> Seq<Seq<char>>
    decreases n,
{
    if n == 0 {
        seq![]
    } else if dominated_in(s, n - 1) {
        undominated_prefix(s, (n - 1) as nat)
    } else {
        undominated_prefix(s, (n - 1) as nat).push(s[n - 1])
    }
}

/// The elements of `s` that no element of `s` dominates, in order.
pub open spec fn survivors(s: Seq<Seq<char>>) -> Seq<Seq<char>> {
    undominated_prefix(s, s.len())
}

/// The candidates `e + part` for every `e` of `elts` (in order) whose length
/// adds up with that of `part` to a multiple of eight.
pub open spec fn row_candidates(elts: Seq<Seq<char>>, part: Seq<char>) -> Seq<Seq<char>>
    decreases elts.len(),
{
    if elts.len() == 0 {
        seq![]
    } else {
        row_candidates(elts.drop_last(), part) + if (part.len() + elts.last().len()) % 8 == 0 {
            seq![elts.last() + part]
        } else {
            seq![]
        }
    }
}

/// The rows of candidates of each `part` of `parts` against all of `elts`.
pub open spec fn rows_candidates(elts: Seq<Seq<char>>, parts: Seq<Seq<char>>) -> Seq<Seq<char>>
    decreases parts.len(),
{
    if parts.len() == 0 {
        seq![]
    } else {
        rows_candidates(elts, parts.drop_last()) + row_candidates(elts, parts.last())
    }
}

/// Every ordered pair `(part, elt)` of `s`, a fragment with itself included,
/// whose lengths add up to a multiple of eight proposes `elt + part`.
pub open spec fn pair_candidates(s: Seq<Seq<char>>) -> Seq<Seq<char>> {
    rows_candidates(s, s)
}

/// How many times `x` occurs in `c`.
pub open spec fn votes(c: Seq<Seq<char>>, x: Seq<char>) -> nat
    decreases c.len(),
{
    if c.len() == 0 {
        0
    } else {
        votes(c.drop_last(), x) + if c.last() == x { 1nat } else { 0nat }
    }
}

/// The position, among the first `n` of `c`, of a candidate with the most
/// votes in all of `c`, the lexicographically smallest among equally voted
/// ones.
pub open spec fn leader(c: Seq<Seq<char>>, n: nat) -> int
    decreases n,
{
    if n <= 1 {
        0
    } else {
        let prev = leader(c, (n - 1) as nat);
        if votes(c, c[n - 1]) > votes(c, c[prev]) || (votes(c, c[n - 1]) == votes(c, c[prev])
            && lex_less(c[n - 1], c[prev])) {
            n - 1
        } else {
            prev
        }
    }
}

/// The winning candidate: the most voted one, the lexicographically smallest
/// among equally voted ones.
pub open spec fn vote_winner(c: Seq<Seq<char>>) -> Seq<char> {
    c[leader(c, c.len())]
}

/// The candidates that the dominance strategy votes on for a block.
pub open spec fn stable_candidates(fs: Seq<Seq<char>>) -> Seq<Seq<char>> {
    pair_candidates(survivors(sorted_distinct(fs)))
}

/// What the dominance strategy makes of a block's fragments.
pub open spec fn solve_stable_spec(fs: Seq<Seq<char>>) -> Option<Seq<char>> {
    let c = stable_candidates(fs);
    if c.len() == 0 {
        None
    } else {
        Some(vote_winner(c))
    }
}

/// `x` occurs in `s.push(y)` exactly when it occurs in `s` or is `y`.
proof fn lemma_push_contains(s: Seq<Seq<char>>, y: Seq<char>, x: Seq<char>)
    ensures
        s.push(y).contains(x) <==> (s.contains(x) || x == y),
{
    if s.contains(x) {
        let k = choose|k: int| 0 <= k < s.len() && s[k] == x;
        assert(s.push(y)[k] == x);
    }
    if x == y {
        assert(s.push(y)[s.len() as int] == x);
    }
    if s.push(y).contains(x) && x != y {
        let k = choose|k: int| 0 <= k < s.push(y).len() && s.push(y)[k] == x;
        assert(s[k] == x);
    }
}

proof fn lemma_insert_sorted(s: Seq<Seq<char>>, x: Seq<char>)
    requires
        strictly_sorted(s),
    ensures
        strictly_sorted(insert_sorted(s, x)),
        forall|y: Seq<char>| #[trigger] insert_sorted(s, x).contains(y) <==> (s.contains(y) || y == x),
    decreases s.len(),
{
    let r = insert_sorted(s, x);
    if s.len() == 0 {
        assert forall|y: Seq<char>| #[trigger] r.contains(y) <==> (s.contains(y) || y == x) by {
            if r.contains(y) {
                assert(r[0] == y);
            }
            if y == x {
                assert(r[0] == y);
            }
        }
    } else if s[0] == x {
        assert forall|y: Seq<char>| #[trigger] r.contains(y) <==> (s.contains(y) || y == x) by {
            if y == x {
                assert(s[0] == y);
            }
        }
    } else if lex_less(x, s[0]) {
        assert(r =~= seq![x] + s);
        assert forall|i: int, j: int| 0 <= i < j < r.len() implies lex_less(#[trigger] r[i], #[trigger] r[j]) by {
            if i == 0 {
                if j > 1 {
                    lemma_lex_transitive(x, s[0], s[j - 1]);
                }
            } else {
                assert(r[i] == s[i - 1] && r[j] == s[j - 1]);
            }
        }
        assert forall|y: Seq<char>| #[trigger] r.contains(y) <==> (s.contains(y) || y == x) by {
            if r.contains(y) {
                let k = choose|k: int| 0 <= k < r.len() && r[k] == y;
                if k > 0 {
                    assert(s[k - 1] == y);
                }
            }
            if s.contains(y) {
                let k = choose|k: int| 0 <= k < s.len() && s[k] == y;
                assert(r[k + 1] == y);
            }
            if y == x {
                assert(r[0] == y);
            }
        }
    } else {
        let t = s.drop_first();
        assert(strictly_sorted(t)) by {
            assert forall|i: int, j: int| 0 <= i < j < t.len() implies lex_less(#[trigger] t[i], #[trigger] t[j]) by {
                assert(t[i] == s[i + 1] && t[j] == s[j + 1]);
            }
        }
        lemma_insert_sorted(t, x);
        let u = insert_sorted(t, x);
        assert(r =~= seq![s[0]] + u);
        lemma_lex_total(x, s[0]);
        assert(lex_less(s[0], x));
        assert forall|y: Seq<char>| u.contains(y) implies lex_less(s[0], y) by {
            if y != x {
                let k = choose|k: int| 0 <= k < t.len() && t[k] == y;
                assert(s[k + 1] == y);
            }
        }
        assert forall|i: int, j: int| 0 <= i < j < r.len() implies lex_less(#[trigger] r[i], #[trigger] r[j]) by {
            if i == 0 {
                assert(u.contains(r[j])) by {
                    assert(u[j - 1] == r[j]);
                }
            } else {
                assert(r[i] == u[i - 1] && r[j] == u[j - 1]);
            }
        }
        assert forall|y: Seq<char>| #[trigger] r.contains(y) <==> (s.contains(y) || y == x) by {
            if r.contains(y) {
                let k = choose|k: int| 0 <= k < r.len() && r[k] == y;
                if k > 0 {
                    assert(u[k - 1] == y);
                    assert(u.contains(y));
                    assert(t.contains(y) || y == x);
                    if t.contains(y) {
                        let m = choose|m: int| 0 <= m < t.len() && t[m] == y;
                        assert(s[m + 1] == y);
                        assert(s.contains(y));
                    }
                } else {
                    assert(s[0] == y);
                    assert(s.contains(y));
                }
            }
            if s.contains(y) {
                let k = choose|k: int| 0 <= k < s.len() && s[k] == y;
                if k > 0 {
                    assert(t[k - 1] == y);
                    assert(t.contains(y));
                    assert(u.contains(y));
                    let m = choose|m: int| 0 <= m < u.len() && u[m] == y;
                    assert(r[m + 1] == y);
                } else {
                    assert(r[0] == y);
                }
            }
            if y == x {
                assert(u.contains(y));
                let m = choose|m: int| 0 <= m < u.len() && u[m] == y;
                assert(r[m + 1] == y);
            }
        }
    }
}

/// Sorting keeps exactly the elements of `s`, each once, in strictly
/// increasing order.
pub proof fn lemma_sorted_distinct(s: Seq<Seq<char>>)
    ensures
        strictly_sorted(sorted_distinct(s)),
        forall|y: Seq<char>| #[trigger] sorted_distinct(s).contains(y) <==> s.contains(y),
    decreases s.len(),
{
    if s.len() > 0 {
        let p = s.drop_last();
        lemma_sorted_distinct(p);
        lemma_insert_sorted(sorted_distinct(p), s.last());
        assert(s =~= p.push(s.last()));
        assert forall|y: Seq<char>| #[trigger] sorted_distinct(s).contains(y) <==> s.contains(y) by {
            lemma_push_contains(p, s.last(), y);
        }
    }
}

/// Two strictly sorted sequences with the same elements are equal.
pub proof fn lemma_sorted_unique(a: Seq<Seq<char>>, b: Seq<Seq<char>>)
    requires
        strictly_sorted(a),
        strictly_sorted(b),
        forall|y: Seq<char>| a.contains(y) <==> b.contains(y),
    ensures
        a == b,
    decreases a.len(),
{
    if a.len() == 0 {
        if b.len() > 0 {
            assert(b.contains(b[0]));
        }
        assert(a =~= b);
    } else {
        assert(a.contains(a[0]));
        assert(b.len() > 0);
        assert(b.contains(b[0]));
        if a[0] != b[0] {
            let j = choose|j: int| 0 <= j < a.len() && a[j] == b[0];
            let k = choose|k: int| 0 <= k < b.len() && b[k] == a[0];
            assert(lex_less(a[0], a[j]));
            assert(lex_less(b[0], b[k]));
            lemma_lex_asymmetric(a[0], b[0]);
        }
        let (ta, tb) = (a.drop_first(), b.drop_first());
        assert forall|y: Seq<char>| ta.contains(y) implies tb.contains(y) by {
            let j = choose|j: int| 0 <= j < ta.len() && ta[j] == y;
            assert(lex_less(a[0], a[j + 1]));
            lemma_lex_asymmetric(y, y);
            assert(b.contains(y));
            let k = choose|k: int| 0 <= k < b.len() && b[k] == y;
            assert(k != 0);
            assert(tb[k - 1] == y);
        }
        assert forall|y: Seq<char>| tb.contains(y) implies ta.contains(y) by {
            let j = choose|j: int| 0 <= j < tb.len() && tb[j] == y;
            assert(lex_less(b[0], b[j + 1]));
            lemma_lex_asymmetric(y, y);
            assert(a.contains(y));
            let k = choose|k: int| 0 <= k < a.len() && a[k] == y;
            assert(k != 0);
            assert(ta[k - 1] == y);
        }
        assert(strictly_sorted(ta)) by {
            assert forall|i: int, j: int| 0 <= i < j < ta.len() implies lex_less(#[trigger] ta[i], #[trigger] ta[j]) by {
                assert(ta[i] == a[i + 1] && ta[j] == a[j + 1]);
            }
        }
        assert(strictly_sorted(tb)) by {
            assert forall|i: int, j: int| 0 <= i < j < tb.len() implies lex_less(#[trigger] tb[i], #[trigger] tb[j]) by {
                assert(tb[i] == b[i + 1] && tb[j] == b[j + 1]);
            }
        }
        lemma_sorted_unique(ta, tb);
        assert(a =~= seq![a[0]] + ta);
        assert(b =~= seq![b[0]] + tb);
    }
}

/// The dominance strategy depends neither on arrival order nor on repeats: two blocks
/// with the same distinct fragments sort to the same sequence and get the
/// same answer.
pub proof fn lemma_stable_order_independent(f1: Seq<Seq<char>>, f2: Seq<Seq<char>>)
    requires
        forall|y: Seq<char>| f1.contains(y) <==> f2.contains(y),
    ensures
        sorted_distinct(f1) == sorted_distinct(f2),
        solve_stable_spec(f1) == solve_stable_spec(f2),
{
    lemma_sorted_distinct(f1);
    lemma_sorted_distinct(f2);
    let (a, b) = (sorted_distinct(f1), sorted_distinct(f2));
    assert forall|y: Seq<char>| a.contains(y) <==> b.contains(y) by {
        assert(a.contains(y) <==> f1.contains(y));
        assert(b.contains(y) <==> f2.contains(y));
    }
    lemma_sorted_unique(a, b);
}

proof fn lemma_insert_prefix(s: Seq<Seq<char>>, x: Seq<char>, p: int)
    requires
        0 <= p <= s.len(),
        forall|k: int| 0 <= k < p ==> lex_less(#[trigger] s[k], x),
    ensures
        insert_sorted(s, x) == s.take(p) + insert_sorted(s.skip(p), x),
    decreases p,
{
    if p == 0 {
        assert(s.skip(0) =~= s);
        assert(s.take(0) + insert_sorted(s, x) =~= insert_sorted(s, x));
    } else {
        lemma_insert_prefix(s, x, p - 1);
        let t = s.skip(p - 1);
        assert(t[0] == s[p - 1]);
        lemma_lex_asymmetric(s[p - 1], x);
        assert(t.drop_first() =~= s.skip(p));
        assert(insert_sorted(t, x) == seq![s[p - 1]] + insert_sorted(s.skip(p), x));
        assert(s.take(p - 1) + (seq![s[p - 1]] + insert_sorted(s.skip(p), x)) =~= s.take(p) + insert_sorted(
            s.skip(p),
            x,
        ));
    }
}

/// Adds `x` to the sorted `v` in its place, unless `v` holds it already.
fn insert_fragment(v: &mut Vec<String>, x: &String)
    requires
        strictly_sorted(views(old(v)@)),
    ensures
        views(final(v)@) == insert_sorted(views(old(v)@), x@),
{
    let ghost s = views(v@);
    let mut p: usize = 0;
    while p < v.len() && lex_less_str(v[p].as_str(), x.as_str())
        invariant
            p <= v@.len(),
            s == views(v@),
            forall|k: int| 0 <= k < p ==> lex_less(#[trigger] s[k], x@),
        decreases v@.len() - p,
    {
        p = p + 1;
    }
    proof {
        lemma_insert_prefix(s, x@, p as int);
    }
    if p < v.len() && v[p] == *x {
        proof {
            assert(s.skip(p as int)[0] == x@);
            assert(s.take(p as int) + s.skip(p as int) =~= s);
        }
        return;
    }
    proof {
        if p < s.len() {
            assert(s.skip(p as int)[0] == s[p as int]);
            lemma_lex_total(x@, s[p as int]);
        } else {
            assert(s.skip(p as int) =~= Seq::<Seq<char>>::empty());
        }
    }
    v.insert(p, x.clone());
    proof {
        assert(views(v@) =~= s.take(p as int) + insert_sorted(s.skip(p as int), x@));
    }
}

/// The distinct fragments of `fragments` in lexicographic order.
pub fn distinct_sorted(fragments: &Vec<String>) -> (r: Vec<String>)
    ensures
        views(r@) == sorted_distinct(views(fragments@)),
{
    let ghost s = views(fragments@);
    let mut out: Vec<String> = Vec::new();
    let mut i: usize = 0;
    while i < fragments.len()
        invariant
            i <= fragments@.len(),
            s == views(fragments@),
            views(out@) == sorted_distinct(s.take(i as int)),
        decreases fragments@.len() - i,
    {
        proof {
            assert(s.take(i + 1).drop_last() =~= s.take(i as int));
            assert(s.take(i + 1).last() == fragments@[i as int]@);
            lemma_sorted_distinct(s.take(i as int));
        }
        insert_fragment(&mut out, &fragments[i]);
        i = i + 1;
    }
    assert(s.take(i as int) =~= s);
    out
}

/// Removes every fragment that another fragment of `parts` dominates; the
/// others keep their order. Domination is transitive
/// (`lemma_dominates_transitive`), so this is what the pairwise sweep leaves
/// when it visits dominating fragments first, and it does not depend on the
/// order of `parts`.
pub fn remove_all_matches(parts: &mut Vec<String>)
    ensures
        views(final(parts)@) == survivors(views(old(parts)@)),
{
    let ghost s = views(parts@);
    let mut out: Vec<String> = Vec::new();
    let mut j: usize = 0;
    while j < parts.len()
        invariant
            j <= parts@.len(),
            s == views(parts@),
            views(out@) == undominated_prefix(s, j as nat),
        decreases parts@.len() - j,
    {
        let mut dominated = false;
        let mut i: usize = 0;
        while i < parts.len()
            invariant
                i <= parts@.len(),
                j < parts@.len(),
                s == views(parts@),
                dominated <==> exists|k: int| 0 <= k < i && #[trigger] dominates(s[k], s[j as int]),
            decreases parts@.len() - i,
        {
            if satisfies_remove_requirements(parts[i].as_str(), parts[j].as_str()) {
                assert(dominates(s[i as int], s[j as int]));
                dominated = true;
            }
            i = i + 1;
        }
        assert(dominated == dominated_in(s, j as int));
        if !dominated {
            out.push(parts[j].clone());
        }
        proof {
            assert(views(out@) =~= undominated_prefix(s, (j + 1) as nat));
        }
        j = j + 1;
    }
    *parts = out;
}

/// Every candidate of `pair_candidates` over `parts`.
pub fn create_pair_candidates(parts: &Vec<String>) -> (r: Vec<String>)
    ensures
        views(r@) == pair_candidates(views(parts@)),
{
    let ghost s = views(parts@);
    let mut out: Vec<String> = Vec::new();
    let mut p: usize = 0;
    while p < parts.len()
        invariant
            p <= parts@.len(),
            s == views(parts@),
            views(out@) == rows_candidates(s, s.take(p as int)),
        decreases parts@.len() - p,
    {
        let part = &parts[p];
        let part_len = part.unicode_len();
        let ghost base = views(out@);
        let mut e: usize = 0;
        while e < parts.len()
            invariant
                e <= parts@.len(),
                p < parts@.len(),
                s == views(parts@),
                part_len == s[p as int].len(),
                *part == parts@[p as int],
                views(out@) == base + row_candidates(s.take(e as int), s[p as int]),
            decreases parts@.len() - e,
        {
            let elt = &parts[e];
            proof {
                assert(s.take(e + 1).drop_last() =~= s.take(e as int));
                assert(s.take(e + 1).last() == elt@);
            }
            let ghost before = views(out@);
            let ghost sp = s[p as int];
            proof {
                let t = s.take(e + 1);
                assert(row_candidates(t, sp) == row_candidates(t.drop_last(), sp) + if (sp.len()
                    + t.last().len()) % 8 == 0 {
                    seq![t.last() + sp]
                } else {
                    seq![]
                });
            }
            let elt_len = elt.unicode_len();
            assert((part_len % 8 + elt_len % 8) % 8 == (part_len + elt_len) % 8);
            if (part_len % 8 + elt_len % 8) % 8 == 0 {
                let cand = elt.clone().concat(part.as_str());
                assert(cand@ == s[e as int] + s[p as int]);
                out.push(cand);
                assert(views(out@) =~= before.push(cand@));
            } else {
                assert(views(out@) =~= before);
            }
            proof {
                assert(views(out@) =~= base + row_candidates(s.take(e + 1), s[p as int]));
            }
            e = e + 1;
        }
        proof {
            assert(s.take(e as int) =~= s);
            assert(s.take(p + 1).drop_last() =~= s.take(p as int));
            assert(s.take(p + 1).last() == s[p as int]);
        }
        p = p + 1;
    }
    assert(s.take(p as int) =~= s);
    out
}

/// The number of votes `x` gets in `candidates`.
pub fn count_votes(candidates: &Vec<String>, x: &String) -> (r: usize)
    ensures
        r == votes(views(candidates@), x@),
{
    let ghost c = views(candidates@);
    let mut n: usize = 0;
    let mut i: usize = 0;
    while i < candidates.len()
        invariant
            i <= candidates@.len(),
            c == views(candidates@),
            n == votes(c.take(i as int), x@),
            n <= i,
        decreases candidates@.len() - i,
    {
        proof {
            assert(c.take(i + 1).drop_last() =~= c.take(i as int));
            assert(c.take(i + 1).last() == candidates@[i as int]@);
        }
        if candidates[i] == *x {
            n = n + 1;
        }
        i = i + 1;
    }
    assert(c.take(i as int) =~= c);
    n
}

/// The most voted candidate, the lexicographically smallest among equally
/// voted ones; `None`
/// when there is no candidate.
pub fn pick_winner(candidates: &Vec<String>) -> (r: Option<String>)
    ensures
        r.is_none() <==> candidates@.len() == 0,
        r matches Some(w) ==> w@ == vote_winner(views(candidates@)),
{
    let ghost c = views(candidates@);
    if candidates.len() == 0 {
        return None;
    }
    let mut best: usize = 0;
    let mut best_votes = count_votes(candidates, &candidates[0]);
    let mut k: usize = 1;
    while k < candidates.len()
        invariant
            1 <= k <= candidates@.len(),
            c == views(candidates@),
            best as int == leader(c, k as nat),
            best < k,
            best_votes == votes(c, c[best as int]),
        decreases candidates@.len() - k,
    {
        let v = count_votes(candidates, &candidates[k]);
        if v > best_votes || (v == best_votes && lex_less_str(
            candidates[k].as_str(),
            candidates[best].as_str(),
        )) {
            best = k;
            best_votes = v;
        }
        k = k + 1;
    }
    Some(candidates[best].clone())
}

/// Reconstructs a block by the dominance strategy: sorts the distinct
/// fragments, filters out dominated ones, and returns the candidate with the most
/// votes; `None` when no pair of fragments proposes a candidate.
pub fn solve_stable(fragments: &Vec<String>) -> (r: Option<String>)
    ensures
        match r {
            Some(w) => solve_stable_spec(views(fragments@)) == Some(w@),
            None => solve_stable_spec(views(fragments@)).is_none(),
        },
{
    let mut parts = distinct_sorted(fragments);
    remove_all_matches(&mut parts);
    let candidates = create_pair_candidates(&parts);
    pick_winner(&candidates)
}

proof fn lemma_undominated_prefix_contains(s: Seq<Seq<char>>, n: nat, x: Seq<char>)
    requires
        n <= s.len(),
    ensures
        undominated_prefix(s, n).contains(x) <==> exists|j: int|
            0 <= j < n && s[j] == x && !dominated_in(s, j),
    decreases n,
{
    if n > 0 {
        let p = undominated_prefix(s, (n - 1) as nat);
        lemma_undominated_prefix_contains(s, (n - 1) as nat, x);
        if !dominated_in(s, n - 1) {
            lemma_push_contains(p, s[n - 1], x);
        }
        if exists|j: int| 0 <= j < n && s[j] == x && !dominated_in(s, j) {
            let j = choose|j: int| 0 <= j < n && s[j] == x && !dominated_in(s, j);
            if j == n - 1 {
                assert(undominated_prefix(s, n) == p.push(s[n - 1]));
            }
        }
    }
}

/// A fragment survives the dominance filter exactly when it occurs in the
/// input and no fragment of the input dominates it.
pub proof fn lemma_survivors_contains(s: Seq<Seq<char>>, x: Seq<char>)
    ensures
        survivors(s).contains(x) <==> (s.contains(x) && forall|i: int|
            0 <= i < s.len() ==> !#[trigger] dominates(s[i], x)),
{
    lemma_undominated_prefix_contains(s, s.len(), x);
    if survivors(s).contains(x) {
        let j = choose|j: int| 0 <= j < s.len() && s[j] == x && !dominated_in(s, j);
        assert(s.contains(x));
    }
    if s.contains(x) && forall|i: int| 0 <= i < s.len() ==> !#[trigger] dominates(s[i], x) {
        let j = choose|j: int| 0 <= j < s.len() && s[j] == x;
        assert(!dominated_in(s, j));
    }
}

/// The dominance filter removes every fragment that some fragment of its
/// class dominates, wherever the two stand.
pub proof fn lemma_dominated_removed(s: Seq<Seq<char>>, i: int, j: int)
    requires
        0 <= i < s.len(),
        0 <= j < s.len(),
        dominates(s[i], s[j]),
    ensures
        !survivors(s).contains(s[j]),
{
    lemma_survivors_contains(s, s[j]);
}

/// The dominance filter keeps every fragment that no fragment dominates, in
/// particular every dominating fragment that nothing dominates in turn.
pub proof fn lemma_undominated_kept(s: Seq<Seq<char>>, j: int)
    requires
        0 <= j < s.len(),
        forall|i: int| 0 <= i < s.len() ==> !#[trigger] dominates(s[i], s[j]),
    ensures
        survivors(s).contains(s[j]),
{
    lemma_survivors_contains(s, s[j]);
}

/// After the dominance filter no surviving fragment dominates another.
pub proof fn lemma_survivors_undominated(s: Seq<Seq<char>>)
    ensures
        forall|a: int, b: int|
            0 <= a < survivors(s).len() && 0 <= b < survivors(s).len() ==> !dominates(
                #[trigger] survivors(s)[a],
                #[trigger] survivors(s)[b],
            ),
{
    let r = survivors(s);
    assert forall|a: int, b: int| 0 <= a < r.len() && 0 <= b < r.len() implies !dominates(
        #[trigger] r[a],
        #[trigger] r[b],
    ) by {
        assert(r.contains(r[a]));
        assert(r.contains(r[b]));
        lemma_survivors_contains(s, r[a]);
        lemma_survivors_contains(s, r[b]);
        let i = choose|i: int| 0 <= i < s.len() && s[i] == r[a];
        assert(!dominates(s[i], r[b]));
    }
}

/// `leader` points at a most voted candidate among the first `n`, which
/// comes before every other one among them with as many votes.
proof fn lemma_leader(c: Seq<Seq<char>>, n: nat)
    requires
        1 <= n <= c.len(),
    ensures
        0 <= leader(c, n) < n,
        forall|m: int| 0 <= m < n ==> votes(c, #[trigger] c[m]) <= votes(c, c[leader(c, n)]),
        forall|m: int|
            0 <= m < n && votes(c, #[trigger] c[m]) == votes(c, c[leader(c, n)]) ==> c[m] == c[leader(
                c,
                n,
            )] || lex_less(c[leader(c, n)], c[m]),
    decreases n,
{
    if n > 1 {
        let prev = leader(c, (n - 1) as nat);
        lemma_leader(c, (n - 1) as nat);
        let last = c[n - 1];
        if votes(c, last) == votes(c, c[prev]) {
            if lex_less(last, c[prev]) {
                assert forall|m: int|
                    0 <= m < n && votes(c, #[trigger] c[m]) == votes(c, last) implies c[m] == last
                    || lex_less(last, c[m]) by {
                    if m < n - 1 && c[m] != c[prev] {
                        lemma_lex_transitive(last, c[prev], c[m]);
                    }
                }
            } else if last != c[prev] {
                lemma_lex_total(last, c[prev]);
            }
        }
    }
}

/// The winner has the most votes, and comes lexicographically before every
/// other candidate with as many.
pub proof fn lemma_vote_winner(c: Seq<Seq<char>>)
    requires
        c.len() > 0,
    ensures
        c.contains(vote_winner(c)),
        forall|m: int| 0 <= m < c.len() ==> votes(c, #[trigger] c[m]) <= votes(c, vote_winner(c)),
        forall|m: int|
            0 <= m < c.len() && votes(c, #[trigger] c[m]) == votes(c, vote_winner(c)) ==> c[m]
                == vote_winner(c) || lex_less(vote_winner(c), c[m]),
{
    lemma_leader(c, c.len());
    assert(c[leader(c, c.len())] == vote_winner(c));
}

proof fn lemma_votes_contains(c: Seq<Seq<char>>, x: Seq<char>)
    requires
        votes(c, x) >= 1,
    ensures
        c.contains(x),
    decreases c.len(),
{
    if c.last() == x {
        assert(c[c.len() - 1] == x);
    } else {
        lemma_votes_contains(c.drop_last(), x);
        let k = choose|k: int| 0 <= k < c.len() - 1 && c.drop_last()[k] == x;
        assert(c[k] == x);
    }
}

/// Voting monotonicity: a candidate produced by `k >= 1` pairs while every
/// other candidate is produced by fewer than `k` wins the vote.
pub proof fn lemma_vote_monotonic(c: Seq<Seq<char>>, s: Seq<char>, k: nat)
    requires
        votes(c, s) == k,
        k >= 1,
        forall|m: int| 0 <= m < c.len() && c[m] != s ==> votes(c, #[trigger] c[m]) < k,
    ensures
        vote_winner(c) == s,
{
    lemma_votes_contains(c, s);
    let j = choose|j: int| 0 <= j < c.len() && c[j] == s;
    lemma_vote_winner(c);
    let w = leader(c, c.len());
    assert(votes(c, c[j]) <= votes(c, c[w]));
}

/// A bit-string of length a multiple of eight, cut at its midpoint into two
/// equal halves `a` and `b`, is rebuilt by the dominance strategy from the
/// block `{a, b}`.
pub proof fn lemma_round_trip_equal_halves(a: Seq<char>, b: Seq<char>)
    requires
        a == b,
        (a.len() + b.len()) % 8 == 0,
    ensures
        solve_stable_spec(seq![a, b]) == Some(a + b),
{
    let fs = seq![a, b];
    assert(fs.drop_last() =~= seq![a]);
    assert(seq![a].drop_last() =~= Seq::<Seq<char>>::empty());
    assert(sorted_distinct(Seq::<Seq<char>>::empty()) =~= seq![]);
    assert(insert_sorted(Seq::<Seq<char>>::empty(), a) =~= seq![a]);
    assert(sorted_distinct(seq![a]) =~= seq![a]);
    assert(insert_sorted(seq![a], a) =~= seq![a]);
    assert(sorted_distinct(fs) =~= seq![a]);
    assert(!dominated_in(seq![a], 0));
    assert(undominated_prefix(seq![a], 0) =~= seq![]);
    assert(survivors(seq![a]) =~= seq![a]);
    assert(row_candidates(Seq::<Seq<char>>::empty(), a) =~= seq![]);
    assert(seq![a].last() == a);
    assert(row_candidates(seq![a], a) =~= seq![a + a]);
    assert(rows_candidates(seq![a], Seq::<Seq<char>>::empty()) =~= seq![]);
    assert(rows_candidates(seq![a], seq![a]) =~= seq![a + a]);
}

} // verus!
