use vstd::prelude::*;

verus! {

/// Strict lexicographic order on strings, by code point: the order of `str`'s `cmp`.
pub open spec fn lex_lt(a: Seq<char>, b: Seq<char>) -> bool
    decreases a.len(),
{
    if a.len() == 0 {
        b.len() > 0
    } else if b.len() == 0 {
        false
    } else if a[0] != b[0] {
        (a[0] as int) < (b[0] as int)
    } else {
        lex_lt(a.drop_first(), b.drop_first())
    }
}

pub proof fn lemma_lex_irreflexive(a: Seq<char>)
    ensures
        !lex_lt(a, a),
    decreases a.len(),
{
    if a.len() > 0 {
        lemma_lex_irreflexive(a.drop_first());
    }
}

pub proof fn lemma_lex_transitive(a: Seq<char>, b: Seq<char>, c: Seq<char>)
    requires
        lex_lt(a, b),
        lex_lt(b, c),
    ensures
        lex_lt(a, c),
    decreases a.len(),
{
    if a.len() > 0 && b.len() > 0 && c.len() > 0 {
        if a[0] == b[0] && b[0] == c[0] {
            lemma_lex_transitive(a.drop_first(), b.drop_first(), c.drop_first());
        }
    }
}

pub proof fn lemma_lex_total(a: Seq<char>, b: Seq<char>)
    ensures
        a == b || lex_lt(a, b) || lex_lt(b, a),
    decreases a.len(),
{
    if a.len() > 0 && b.len() > 0 {
        if a[0] == b[0] {
            lemma_lex_total(a.drop_first(), b.drop_first());
            if a.drop_first() == b.drop_first() {
                assert(a =~= seq![a[0]] + a.drop_first());
                assert(b =~= seq![b[0]] + b.drop_first());
            }
        } else {
            assert((a[0] as int) != (b[0] as int));
        }
    } else if a.len() == 0 && b.len() == 0 {
        assert(a =~= b);
    }
}

/// Compares two strings in lexicographic order.
pub fn str_lt(a: &str, b: &str) -> (r: bool)
    ensures
        r == lex_lt(a@, b@),
{
    let la = a.unicode_len();
    let lb = b.unicode_len();
    let mut i: usize = 0;
    assert(a@.skip(0) =~= a@);
    assert(b@.skip(0) =~= b@);
    while i < la && i < lb
        invariant
            la == a@.len(),
            lb == b@.len(),
            i <= la,
            i <= lb,
            lex_lt(a@, b@) == lex_lt(a@.skip(i as int), b@.skip(i as int)),
        decreases la - i,
    {
        let x = a.get_char(i);
        let y = b.get_char(i);
        assert(a@.skip(i as int)[0] == x);
        assert(b@.skip(i as int)[0] == y);
        if x != y {
            return (x as u32) < (y as u32);
        }
        assert(a@.skip(i as int).drop_first() =~= a@.skip(i + 1));
        assert(b@.skip(i as int).drop_first() =~= b@.skip(i + 1));
        i = i + 1;
    }
    i == la && i < lb
}

/// A sort key: a rank, then two strings, then an index, compared in that order.
#[derive(Debug, Clone, PartialEq, Eq)]
pub struct SortKey {
    pub rank: u8,
    pub text: String,
    pub extra: String,
    pub index: usize,
}

pub open spec fn key_lt(a: SortKey, b: SortKey) -> bool {
    if a.rank != b.rank {
        a.rank < b.rank
    } else if a.text@ != b.text@ {
        lex_lt(a.text@, b.text@)
    } else if a.extra@ != b.extra@ {
        lex_lt(a.extra@, b.extra@)
    } else {
        a.index < b.index
    }
}

pub proof fn lemma_key_transitive(a: SortKey, b: SortKey, c: SortKey)
    requires
        key_lt(a, b),
        key_lt(b, c),
    ensures
        key_lt(a, c),
{
    if a.rank == b.rank && b.rank == c.rank {
        if a.text@ != b.text@ && b.text@ != c.text@ {
            lemma_lex_transitive(a.text@, b.text@, c.text@);
            if a.text@ == c.text@ {
                lemma_lex_transitive(b.text@, c.text@, b.text@);
                lemma_lex_irreflexive(b.text@);
            }
        } else if a.text@ == b.text@ && b.text@ == c.text@ {
            if a.extra@ != b.extra@ && b.extra@ != c.extra@ {
                lemma_lex_transitive(a.extra@, b.extra@, c.extra@);
                if a.extra@ == c.extra@ {
                    lemma_lex_transitive(b.extra@, c.extra@, b.extra@);
                    lemma_lex_irreflexive(b.extra@);
                }
            }
        }
    }
}

pub proof fn lemma_key_total(a: SortKey, b: SortKey)
    requires
        !key_lt(a, b),
    ensures
        key_lt(b, a) || (a.rank == b.rank && a.text@ == b.text@ && a.extra@ == b.extra@ && a.index == b.index),
{
    lemma_lex_total(a.text@, b.text@);
    lemma_lex_total(a.extra@, b.extra@);
}

fn key_less(a: &SortKey, b: &SortKey) -> (r: bool)
    ensures
        r == key_lt(*a, *b),
{
    if a.rank != b.rank {
        a.rank < b.rank
    } else if a.text != b.text {
        str_lt(a.text.as_str(), b.text.as_str())
    } else if a.extra != b.extra {
        str_lt(a.extra.as_str(), b.extra.as_str())
    } else {
        a.index < b.index
    }
}

pub open spec fn sorted_keys(s: Seq<SortKey>) -> bool {
    forall|i: int, j: int| 0 <= i < j < s.len() ==> !key_lt(#[trigger] s[j], #[trigger] s[i])
}

/// No two keys carry the same index.
pub open spec fn distinct_indices(s: Seq<SortKey>) -> bool {
    forall|i: int, j: int| 0 <= i < j < s.len() ==> #[trigger] s[i].index != #[trigger] s[j].index
}

/// Each key is below every key after it.
pub open spec fn strictly_sorted(s: Seq<SortKey>) -> bool {
    forall|i: int, j: int| 0 <= i < j < s.len() ==> key_lt(#[trigger] s[i], #[trigger] s[j])
}

/// Sorts keys into increasing order (insertion sort), keeping every key.
pub fn sort_keys(items: Vec<SortKey>) -> (r: Vec<SortKey>)
    ensures
        r@.to_multiset() == items@.to_multiset(),
        r@.len() == items@.len(),
        sorted_keys(r@),
        distinct_indices(items@) ==> distinct_indices(r@) && strictly_sorted(r@),
{
    broadcast use vstd::seq_lib::group_to_multiset_ensures;
    let mut out: Vec<SortKey> = Vec::new();
    let mut rest = items;
    let ghost orig = rest@;
    // take from the back so that no element has to move
    while rest.len() > 0
        invariant
            out@.len() + rest@.len() == orig.len(),
            rest@ == orig.take(rest@.len() as int),
            out@.to_multiset() == orig.skip(rest@.len() as int).to_multiset(),
            sorted_keys(out@),
            distinct_indices(orig) ==> distinct_indices(out@),
            distinct_indices(orig) ==> forall|a: int, b: int| 0 <= a < out@.len() && 0 <= b < rest@.len()
                ==> #[trigger] out@[a].index != #[trigger] rest@[b].index,
        decreases rest@.len(),
    {
        let ghost before = rest@;
        let x = rest.pop().unwrap();
        assert(rest@ == orig.take(rest@.len() as int)) by {
            assert(rest@ =~= orig.take(rest@.len() as int));
        }
        assert(orig.skip(rest@.len() as int) =~= seq![x] + orig.skip(before.len() as int));
        let mut pos: usize = 0;
        while pos < out.len() && !key_less(&x, &out[pos])
            invariant
                pos <= out@.len(),
                forall|i: int| 0 <= i < pos ==> !key_lt(x, #[trigger] out@[i]),
            decreases out@.len() - pos,
        {
            pos = pos + 1;
        }
        let ghost prev = out@;
        out.insert(pos, x);
        proof {
            vstd::seq_lib::to_multiset_insert(prev, pos as int, x);
            assert((seq![x] + orig.skip(before.len() as int)).to_multiset()
                == orig.skip(before.len() as int).to_multiset().insert(x)) by {
                vstd::seq_lib::to_multiset_insert(orig.skip(before.len() as int), 0, x);
                assert(orig.skip(before.len() as int).insert(0, x) =~= seq![x] + orig.skip(before.len() as int));
            }
            assert forall|i: int, j: int| 0 <= i < j < out@.len() implies !key_lt(#[trigger] out@[j], #[trigger] out@[i]) by {
                if i < pos && j == pos {
                    assert(out@[i] == prev[i]);
                } else if i == pos && j > pos {
                    assert(out@[j] == prev[j - 1]);
                    if key_lt(prev[j - 1], x) {
                        if j - 1 > pos {
                            assert(!key_lt(prev[j - 1], prev[pos as int]));
                            lemma_key_transitive(prev[j - 1], x, prev[pos as int]);
                        } else {
                            lemma_key_transitive(x, prev[pos as int], x);
                        }
                    }
                } else if i < pos && j > pos {
                    assert(out@[i] == prev[i]);
                    assert(out@[j] == prev[j - 1]);
                } else if i > pos {
                    assert(out@[i] == prev[i - 1]);
                    assert(out@[j] == prev[j - 1]);
                } else {
                    assert(out@[i] == prev[i]);
                    assert(out@[j] == prev[j]);
                }
            }
            if distinct_indices(orig) {
                assert(x == before[before.len() - 1]);
                assert forall|a: int, b: int| 0 <= a < out@.len() && 0 <= b < rest@.len()
                    implies #[trigger] out@[a].index != #[trigger] rest@[b].index by {
                    assert(rest@[b] == before[b]);
                    assert(before[b] == orig[b]);
                    assert(x == orig[before.len() - 1]);
                    if a < pos {
                        assert(out@[a] == prev[a]);
                    } else if a > pos {
                        assert(out@[a] == prev[a - 1]);
                    }
                }
                assert forall|a: int, b: int| 0 <= a < b < out@.len() implies #[trigger] out@[a].index != #[trigger] out@[b].index by {
                    if a != pos && b != pos {
                        let pa = if a < pos { a } else { a - 1 };
                        let pb = if b < pos { b } else { b - 1 };
                        assert(out@[a] == prev[pa]);
                        assert(out@[b] == prev[pb]);
                    } else if a == pos {
                        assert(out@[b] == prev[b - 1]);
                        assert(before[before.len() - 1] == x);
                    } else {
                        assert(out@[a] == prev[a]);
                        assert(before[before.len() - 1] == x);
                    }
                }
            }
        }
    }
    assert(orig.skip(0) =~= orig);
    proof {
        if distinct_indices(orig) {
            assert forall|i: int, j: int| 0 <= i < j < out@.len() implies key_lt(#[trigger] out@[i], #[trigger] out@[j]) by {
                assert(!key_lt(out@[j], out@[i]));
                lemma_key_total(out@[j], out@[i]);
            }
        }
    }
    out
}

/// Two strictly sorted key sequences that hold the same keys (compared by
/// rank, text, extra and index) hold them in the same order.
pub proof fn lemma_sorted_unique(s1: Seq<SortKey>, s2: Seq<SortKey>, i: int)
    requires
        strictly_sorted(s1),
        strictly_sorted(s2),
        s1.len() == s2.len(),
        0 <= i < s1.len(),
        forall|a: int| 0 <= a < s1.len() ==> #[trigger] holds_key(s2, s1[a]),
        forall|b: int| 0 <= b < s2.len() ==> #[trigger] holds_key(s1, s2[b]),
    ensures
        same_key(s1[i], s2[i]),
    decreases i,
{
    if i > 0 {
        lemma_sorted_unique(s1, s2, i - 1);
    }
    assert forall|a: int| 0 <= a < i implies same_key(s1[a], s2[a]) by {
        lemma_sorted_unique(s1, s2, a);
    }
    if !same_key(s1[i], s2[i]) {
        assert(holds_key(s2, s1[i]));
        assert(holds_key(s1, s2[i]));
        let j = choose|b: int| 0 <= b < s2.len() && #[trigger] same_key(s1[i], s2[b]);
        let m = choose|a: int| 0 <= a < s1.len() && #[trigger] same_key(s2[i], s1[a]);
        if j < i {
            assert(same_key(s1[j], s2[j]));
            assert(key_lt(s1[j], s1[i]));
        }
        if m < i {
            assert(same_key(s1[m], s2[m]));
            assert(key_lt(s2[m], s2[i]));
        }
        assert(key_lt(s2[i], s2[j]));
        assert(key_lt(s1[i], s1[m]));
        lemma_key_transitive(s1[i], s2[i], s1[i]);
    }
}

/// Some key of `s` agrees with `k` in rank, text, extra and index.
pub open spec fn holds_key(s: Seq<SortKey>, k: SortKey) -> bool {
    exists|b: int| 0 <= b < s.len() && #[trigger] same_key(k, s[b])
}

/// Two keys agree in rank, text, extra and index.
pub open spec fn same_key(a: SortKey, b: SortKey) -> bool {
    a.rank == b.rank && a.text@ == b.text@ && a.extra@ == b.extra@ && a.index == b.index
}

} // verus!
