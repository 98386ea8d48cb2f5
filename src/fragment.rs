//! Fragments: strings over `0` and `1`, grouped by length class.

use vstd::prelude::*;

verus! {

/// A character that may appear in a fragment.
pub open spec fn is_bit(c: char) -> bool {
    c == '0' || c == '1'
}

/// Every character of `s` is `0` or `1`.
pub open spec fn is_bit_string(s: Seq<char>) -> bool {
    forall|i: int| 0 <= i < s.len() ==> is_bit(#[trigger] s[i])
}

/// The character sequences of a sequence of strings.
pub open spec fn views(v: Seq<String>) -> Seq<Seq<char>> {
    v.map_values(|s: String| s@)
}

/// Whether `v` holds a string equal to `s`.
pub fn contains_string(v: &Vec<String>, s: &String) -> (r: bool)
    ensures
        r == views(v@).contains(s@),
{
    let mut i: usize = 0;
    while i < v.len()
        invariant
            i <= v@.len(),
            forall|k: int| 0 <= k < i ==> v@[k]@ != s@,
        decreases v@.len() - i,
    {
        if v[i] == *s {
            assert(views(v@)[i as int] == s@);
            return true;
        }
        i = i + 1;
    }
    assert(!views(v@).contains(s@)) by {
        if views(v@).contains(s@) {
            let k = choose|k: int| 0 <= k < views(v@).len() && views(v@)[k] == s@;
            assert(v@[k]@ == s@);
        }
    }
    false
}

/// Lexicographic order on fragments: `a` comes before `b` when it is a proper
/// prefix of `b`, or when at the first position where they differ `a` holds
/// the smaller character (`0` before `1`).
pub open spec fn lex_less(a: Seq<char>, b: Seq<char>) -> bool
    decreases a.len(),
{
    if a.len() == 0 {
        b.len() > 0
    } else if b.len() == 0 {
        false
    } else if a[0] != b[0] {
        a[0] < b[0]
    } else {
        lex_less(a.drop_first(), b.drop_first())
    }
}

/// Nothing comes before itself, and of two fragments at most one comes first.
pub proof fn lemma_lex_asymmetric(a: Seq<char>, b: Seq<char>)
    ensures
        lex_less(a, b) ==> !lex_less(b, a),
        !lex_less(a, a),
    decreases a.len(),
{
    if a.len() > 0 && b.len() > 0 && a[0] == b[0] {
        lemma_lex_asymmetric(a.drop_first(), b.drop_first());
    }
    if a.len() > 0 {
        lemma_lex_asymmetric(a.drop_first(), a.drop_first());
    }
}

/// Of two different fragments one comes before the other.
pub proof fn lemma_lex_total(a: Seq<char>, b: Seq<char>)
    requires
        a != b,
    ensures
        lex_less(a, b) || lex_less(b, a),
    decreases a.len(),
{
    if a.len() > 0 && b.len() > 0 && a[0] == b[0] {
        assert(a =~= seq![a[0]] + a.drop_first());
        assert(b =~= seq![b[0]] + b.drop_first());
        lemma_lex_total(a.drop_first(), b.drop_first());
    } else if a.len() == 0 && b.len() == 0 {
        assert(a =~= b);
    }
}

/// The lexicographic order is transitive.
pub proof fn lemma_lex_transitive(a: Seq<char>, b: Seq<char>, c: Seq<char>)
    requires
        lex_less(a, b),
        lex_less(b, c),
    ensures
        lex_less(a, c),
    decreases a.len(),
{
    if a.len() > 0 && a[0] == b[0] && b[0] == c[0] {
        lemma_lex_transitive(a.drop_first(), b.drop_first(), c.drop_first());
    }
}

proof fn lemma_lex_skip(a: Seq<char>, b: Seq<char>, i: int)
    requires
        0 <= i <= a.len(),
        i <= b.len(),
        forall|k: int| 0 <= k < i ==> a[k] == b[k],
    ensures
        lex_less(a, b) == lex_less(a.skip(i), b.skip(i)),
    decreases i,
{
    if i == 0 {
        assert(a.skip(0) =~= a);
        assert(b.skip(0) =~= b);
    } else {
        lemma_lex_skip(a, b, i - 1);
        assert(a.skip(i - 1).drop_first() =~= a.skip(i));
        assert(b.skip(i - 1).drop_first() =~= b.skip(i));
        assert(a.skip(i - 1)[0] == b.skip(i - 1)[0]);
    }
}

/// Whether `a` comes before `b` in the lexicographic order.
pub fn lex_less_str(a: &str, b: &str) -> (r: bool)
    ensures
        r == lex_less(a@, b@),
{
    let (n, m) = (a.unicode_len(), b.unicode_len());
    let mut i: usize = 0;
    while i < n && i < m
        invariant
            n == a@.len(),
            m == b@.len(),
            i <= n,
            i <= m,
            forall|k: int| 0 <= k < i ==> a@[k] == b@[k],
        decreases n - i,
    {
        let (x, y) = (a.get_char(i), b.get_char(i));
        if x != y {
            proof {
                lemma_lex_skip(a@, b@, i as int);
                assert(a@.skip(i as int)[0] == x);
                assert(b@.skip(i as int)[0] == y);
            }
            return x < y;
        }
        i = i + 1;
    }
    proof {
        lemma_lex_skip(a@, b@, i as int);
    }
    i == n && i < m
}

/// Slot index of a fragment length: `len mod 4`.
pub open spec fn class_index(len: nat) -> nat {
    len % 4
}

/// Role of a fragment length: 0 for the "high" role, 1 for the "low" role.
pub open spec fn class_role(len: nat) -> nat {
    (len % 8) / 4
}

/// `a` dominates `b`: both lie in the same `length mod 8` class, their
/// lengths differ, and `a` is the longer one in the high role or the shorter
/// one in the low role.
pub open spec fn dominates(a: Seq<char>, b: Seq<char>) -> bool {
    &&& a.len() % 8 == b.len() % 8
    &&& a.len() != b.len()
    &&& (class_role(a.len()) == 0 && a.len() > b.len()
        || class_role(a.len()) == 1 && a.len() < b.len())
}

/// Domination is transitive: within a class it orders fragments by length.
pub proof fn lemma_dominates_transitive(a: Seq<char>, b: Seq<char>, c: Seq<char>)
    requires
        dominates(a, b),
        dominates(b, c),
    ensures
        dominates(a, c),
{
}

/// The slot index and role of a fragment of length `len`.
pub fn length_class(len: usize) -> (r: (usize, usize))
    ensures
        r.0 as nat == class_index(len as nat),
        r.1 as nat == class_role(len as nat),
        r.0 < 4,
        r.1 < 2,
{
    (len % 4, (len % 8) / 4)
}

/// Whether `part` dominates `elt` (see `dominates`).
pub fn satisfies_remove_requirements(part: &str, elt: &str) -> (r: bool)
    ensures
        r == dominates(part@, elt@),
{
    let (pl, el) = (part.unicode_len(), elt.unicode_len());
    pl % 8 == el % 8 && pl != el && (pl % 8 / 4 == 0 && pl > el || pl % 8 / 4 == 1 && pl < el)
}

/// Whether every character of `line` is `0` or `1`.
pub fn is_fragment(line: &str) -> (r: bool)
    ensures
        r == is_bit_string(line@),
{
    for c in it: line.chars()
        invariant
            it.seq() == line@,
            forall|k: int| 0 <= k < it.index() ==> is_bit(#[trigger] line@[k]),
    {
        if c != '0' && c != '1' {
            return false;
        }
    }
    true
}

} // verus!
