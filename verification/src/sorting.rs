//! Sorting words in the order of `str`'s `Ord`: lexicographic by character.
use vstd::prelude::*;
use vstd::multiset::Multiset;
use crate::text::views;

verus! {

broadcast use vstd::multiset::group_multiset_axioms;

/// `a` comes strictly before `b` in `str`'s order: compared character by
/// character (UTF-8 bytes order strings as their code points do), a proper
/// prefix first.
pub open spec fn lex_lt(a: Seq<char>, b: Seq<char>) -> bool
    decreases a.len(),
{
    if a.len() == 0 {
        b.len() > 0
    } else if b.len() == 0 {
        false
    } else if a[0] != b[0] {
        a[0] < b[0]
    } else {
        lex_lt(a.drop_first(), b.drop_first())
    }
}

pub open spec fn lex_le(a: Seq<char>, b: Seq<char>) -> bool {
    a == b || lex_lt(a, b)
}

/// Each word comes no later than the ones after it.
pub open spec fn sorted(s: Seq<Seq<char>>) -> bool {
    forall|i: int, j: int| 0 <= i < j < s.len() ==> lex_le(s[i], s[j])
}

pub proof fn lemma_lex_irreflexive(a: Seq<char>)
    ensures
        !lex_lt(a, a),
    decreases a.len(),
{
    if a.len() > 0 {
        lemma_lex_irreflexive(a.drop_first());
    }
}

pub proof fn lemma_lex_total(a: Seq<char>, b: Seq<char>)
    ensures
        a == b || lex_lt(a, b) || lex_lt(b, a),
        !(lex_lt(a, b) && lex_lt(b, a)),
    decreases a.len(),
{
    if a.len() > 0 && b.len() > 0 {
        if a[0] == b[0] {
            lemma_lex_total(a.drop_first(), b.drop_first());
            if a.drop_first() == b.drop_first() {
                assert(a =~= seq![a[0]] + a.drop_first());
                assert(b =~= seq![b[0]] + b.drop_first());
            }
        }
    } else if a.len() == 0 && b.len() == 0 {
        assert(a =~= b);
    }
}

pub proof fn lemma_lex_transitive(a: Seq<char>, b: Seq<char>, c: Seq<char>)
    requires
        lex_lt(a, b),
        lex_lt(b, c),
    ensures
        lex_lt(a, c),
    decreases a.len(),
{
    if a.len() > 0 && b.len() > 0 && c.len() > 0 {
        if a[0] == b[0] && b[0] == c[0] {
            lemma_lex_transitive(a.drop_first(), b.drop_first(), c.drop_first());
        }
    }
}

/// Whether `a` comes strictly before `b`.
pub fn lex_less(a: &[char], b: &[char]) -> (r: bool)
    ensures
        r == lex_lt(a@, b@),
{
    let mut i: usize = 0;
    assert(a@.skip(0) =~= a@);
    assert(b@.skip(0) =~= b@);
    while i < a.len() && i < b.len() && a[i] == b[i]
        invariant
            i <= a@.len(),
            i <= b@.len(),
            lex_lt(a@.skip(i as int), b@.skip(i as int)) == lex_lt(a@, b@),
        decreases a@.len() - i,
    {
        assert(a@.skip(i as int).drop_first() =~= a@.skip(i + 1));
        assert(b@.skip(i as int).drop_first() =~= b@.skip(i + 1));
        i += 1;
    }
    if i == a.len() {
        i < b.len()
    } else if i == b.len() {
        false
    } else {
        assert(a@.skip(i as int)[0] == a@[i as int]);
        assert(b@.skip(i as int)[0] == b@[i as int]);
        a[i] < b[i]
    }
}

/// The words sorted in `str`'s order (stable; `[T]::sort`).
pub fn sort_words(v: Vec<Vec<char>>) -> (r: Vec<Vec<char>>)
    ensures
        sorted(views(r@)),
        views(r@).to_multiset() == views(v@).to_multiset(),
{
    let mut out: Vec<Vec<char>> = Vec::new();
    let n = v.len();
    let ghost all = views(v@);
    let mut rest = v;
    assert(all.take(0) =~= Seq::<Seq<char>>::empty());
    assert(views(out@) =~= Seq::<Seq<char>>::empty());
    for i in 0..n
        invariant
            n == all.len(),
            views(rest@) == all.skip(i as int),
            sorted(views(out@)),
            views(out@).to_multiset() == all.take(i as int).to_multiset(),
    {
        assert(views(rest@).len() == rest@.len());
        assert(views(rest@)[0] == rest@[0]@);
        let ghost prev = rest@;
        let x = rest.remove(0);
        assert(rest@ =~= prev.subrange(1, prev.len() as int));
        assert forall|j: int| 0 <= j < views(rest@).len() implies views(rest@)[j] == all.skip(
            i + 1,
        )[j] by {
            assert(views(rest@)[j] == rest@[j]@);
            assert(rest@[j] == prev[j + 1]);
            assert(views(prev)[j + 1] == prev[j + 1]@);
        }
        assert(views(rest@) =~= all.skip(i + 1));
        assert(x@ == all[i as int]);
        let mut k: usize = 0;
        while k < out.len() && !lex_less(&x, &out[k])
            invariant
                k <= out@.len(),
                forall|j: int| 0 <= j < k ==> !lex_lt(x@, #[trigger] views(out@)[j]),
            decreases out@.len() - k,
        {
            assert(views(out@)[k as int] == out@[k as int]@);
            k += 1;
        }
        let ghost before = views(out@);
        proof {
            if k < out@.len() {
                assert(views(out@)[k as int] == out@[k as int]@);
                assert(lex_lt(x@, before[k as int]));
            }
        }
        out.insert(k, x);
        proof {
            let after = views(out@);
            assert(after =~= before.insert(k as int, x@));
            before.insert_ensures(k as int, x@);
            assert forall|a: int, b: int| 0 <= a < b < after.len() implies lex_le(
                after[a],
                after[b],
            ) by {
                if a < k && b < k {
                } else if a < k && b == k {
                    lemma_lex_total(before[a], x@);
                } else if a < k && b > k {
                    assert(after[b] == before[b - 1]);
                } else if a == k {
                    assert(after[b] == before[b - 1]);
                    assert(lex_lt(x@, before[k as int]));
                    if b - 1 > k {
                        assert(lex_le(before[k as int], before[b - 1]));
                        if before[k as int] != before[b - 1] {
                            lemma_lex_transitive(x@, before[k as int], before[b - 1]);
                        }
                    }
                } else {
                    assert(after[a] == before[a - 1]);
                    assert(after[b] == before[b - 1]);
                }
            }
            assert(after.remove(k as int) =~= before);
            after.to_multiset_ensures();
            assert(after.to_multiset().remove(x@) == before.to_multiset());
            assert(after.contains(x@)) by {
                assert(after[k as int] == x@);
            }
            assert(after.to_multiset() =~= before.to_multiset().insert(x@));
            assert(all.take(i + 1) =~= all.take(i as int).push(x@));
            all.take(i as int).to_multiset_ensures();
        }
    }
    assert(all.take(n as int) =~= all);
    out
}

} // verus!
