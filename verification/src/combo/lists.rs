//! Facts about ascending lists of positions.
use crate::combo::model;
use vstd::prelude::*;

verus! {

/// The list holds exactly the positions that satisfy the predicate, in ascending order.
pub proof fn lemma_ascending(n: nat, p: spec_fn(usize) -> bool)
    requires
        n <= usize::MAX + 1,
    ensures
        forall|i: usize| #[trigger] model::ascending(n, p).contains(i) <==> i < n && p(i),
        forall|i: int, j: int|
            0 <= i < j < model::ascending(n, p).len() ==> #[trigger] model::ascending(n, p)[i]
                < #[trigger] model::ascending(n, p)[j],
        forall|i: int|
            0 <= i < model::ascending(n, p).len() ==> #[trigger] model::ascending(n, p)[i] < n && p(
                model::ascending(n, p)[i],
            ),
        model::ascending(n, p).len() <= n,
    decreases n,
{
    if n > 0 {
        let m = (n - 1) as nat;
        lemma_ascending(m, p);
        let rest = model::ascending(m, p);
        let all = model::ascending(n, p);
        assert forall|i: usize| #[trigger] all.contains(i) <==> i < n && p(i) by {
            if i < n && p(i) {
                if i < m {
                    assert(rest.contains(i));
                    let j = choose|j: int| 0 <= j < rest.len() && rest[j] == i;
                    assert(all[j] == i);
                } else {
                    assert(all[all.len() - 1] == i);
                }
            }
            if all.contains(i) {
                let j = choose|j: int| 0 <= j < all.len() && all[j] == i;
                if j < rest.len() {
                    assert(rest[j] == i);
                    assert(rest.contains(i));
                }
            }
        }
    }
}

/// The list has no duplicates.
pub proof fn lemma_ascending_distinct(n: nat, p: spec_fn(usize) -> bool)
    requires
        n <= usize::MAX + 1,
    ensures
        model::ascending(n, p).no_duplicates(),
{
    lemma_ascending(n, p);
    let s = model::ascending(n, p);
    assert forall|i: int, j: int| 0 <= i < s.len() && 0 <= j < s.len() && i != j implies s[i]
        != s[j] by {
        if i < j {
            assert(s[i] < s[j]);
        } else {
            assert(s[j] < s[i]);
        }
    }
}

/// Where no position satisfies the predicate the list does not grow.
pub proof fn lemma_ascending_gap(a: nat, b: nat, p: spec_fn(usize) -> bool)
    requires
        a <= b <= usize::MAX + 1,
        forall|i: usize| a <= i < b ==> !#[trigger] p(i),
    ensures
        model::ascending(b, p) == model::ascending(a, p),
    decreases b - a,
{
    if a < b {
        lemma_ascending_gap(a, (b - 1) as nat, p);
        assert(!p((b - 1) as usize));
    }
}

/// Predicates that agree have the same list.
pub proof fn lemma_ascending_same(n: nat, p: spec_fn(usize) -> bool, q: spec_fn(usize) -> bool)
    requires
        n <= usize::MAX + 1,
        forall|i: usize| i < n ==> #[trigger] p(i) == q(i),
    ensures
        model::ascending(n, p) == model::ascending(n, q),
    decreases n,
{
    if n > 0 {
        lemma_ascending_same((n - 1) as nat, p, q);
        assert(p((n - 1) as usize) == q((n - 1) as usize));
    }
}

/// An ascending sequence of the positions that satisfy the predicate is the list.
pub proof fn lemma_ascending_unique(n: nat, p: spec_fn(usize) -> bool, s: Seq<usize>)
    requires
        n <= usize::MAX + 1,
        forall|i: int, j: int| 0 <= i < j < s.len() ==> #[trigger] s[i] < #[trigger] s[j],
        forall|i: usize| #[trigger] s.contains(i) <==> i < n && p(i),
    ensures
        s == model::ascending(n, p),
    decreases n,
{
    if n == 0 {
        if s.len() > 0 {
            assert(s.contains(s[0]));
        }
        assert(s =~= model::ascending(n, p));
    } else {
        let m = (n - 1) as nat;
        let last = m as usize;
        if p(last) {
            assert(s.contains(last));
            let at = choose|at: int| 0 <= at < s.len() && s[at] == last;
            if at < s.len() - 1 {
                assert(s[at] < s[s.len() - 1]);
                assert(s.contains(s[s.len() - 1]));
            }
            let rest = s.drop_last();
            assert forall|i: usize| #[trigger] rest.contains(i) <==> i < m && p(i) by {
                if i < m && p(i) {
                    assert(s.contains(i));
                    let j = choose|j: int| 0 <= j < s.len() && s[j] == i;
                    assert(rest[j] == i);
                }
                if rest.contains(i) {
                    let j = choose|j: int| 0 <= j < rest.len() && rest[j] == i;
                    assert(s[j] == i);
                    assert(s.contains(i));
                    assert(s[j] < s[at]);
                }
            }
            lemma_ascending_unique(m, p, rest);
            assert(s =~= rest.push(last));
        } else {
            assert forall|i: usize| #[trigger] s.contains(i) <==> i < m && p(i) by {}
            lemma_ascending_unique(m, p, s);
        }
    }
}

/// No position between two neighbours of the list satisfies the predicate, nor one before the
/// first or past the last.
pub proof fn lemma_ascending_between(n: nat, p: spec_fn(usize) -> bool, i: int)
    requires
        n <= usize::MAX + 1,
        0 <= i <= model::ascending(n, p).len(),
    ensures
        forall|x: usize|
            (i == 0 || model::ascending(n, p)[i - 1] < x) && x < n && (i == model::ascending(
                n,
                p,
            ).len() || x < model::ascending(n, p)[i]) ==> !#[trigger] p(x),
{
    lemma_ascending(n, p);
    let whole = model::ascending(n, p);
    assert forall|x: usize|
        (i == 0 || whole[i - 1] < x) && x < n && (i == whole.len() || x
            < whole[i]) implies !#[trigger] p(x) by {
        if p(x) {
            assert(whole.contains(x));
            let j = choose|j: int| 0 <= j < whole.len() && whole[j] == x;
            if j < i - 1 {
                assert(whole[j] < whole[i - 1]);
            } else if j > i {
                assert(whole[i] < whole[j]);
            }
        }
    }
}

/// One more position satisfies the predicate: the tally grows by one.
pub proof fn lemma_tally_more(
    n: nat,
    p: spec_fn(usize) -> bool,
    q: spec_fn(usize) -> bool,
    at: usize,
)
    requires
        n <= usize::MAX + 1,
        at < n,
        !p(at),
        q(at),
        forall|i: usize| i < n && i != at ==> #[trigger] p(i) == q(i),
    ensures
        model::tally(n, q) == model::tally(n, p) + 1,
    decreases n,
{
    let m = (n - 1) as nat;
    if at == m {
        assert forall|i: usize| i < m implies #[trigger] p(i) == q(i) by {}
        lemma_ascending_same(m, p, q);
    } else {
        lemma_tally_more(m, p, q, at);
        assert(p(m as usize) == q(m as usize));
    }
}

/// The tally is positive exactly if some position satisfies the predicate.
pub proof fn lemma_tally_positive(n: nat, p: spec_fn(usize) -> bool)
    requires
        n <= usize::MAX + 1,
    ensures
        model::tally(n, p) > 0 <==> exists|i: usize| i < n && #[trigger] p(i),
        model::tally(n, p) <= n,
{
    lemma_ascending(n, p);
    let s = model::ascending(n, p);
    if s.len() > 0 {
        assert(s[0] < n && p(s[0]));
    }
    if exists|i: usize| i < n && #[trigger] p(i) {
        let i = choose|i: usize| i < n && #[trigger] p(i);
        assert(s.contains(i));
    }
}

/// What a longer sequence contains.
pub proof fn lemma_push_contains(s: Seq<usize>, last: usize, x: usize)
    ensures
        s.push(last).contains(x) <==> s.contains(x) || x == last,
{
    if s.contains(x) {
        let i = choose|i: int| 0 <= i < s.len() && s[i] == x;
        assert(s.push(last)[i] == x);
    }
    assert(s.push(last)[s.len() as int] == last);
    if s.push(last).contains(x) && x != last {
        let i = choose|i: int| 0 <= i < s.push(last).len() && s.push(last)[i] == x;
        assert(s[i] == x);
    }
}

/// What two sequences contain.
pub proof fn lemma_add_contains(a: Seq<usize>, b: Seq<usize>, x: usize)
    ensures
        (a + b).contains(x) <==> a.contains(x) || b.contains(x),
{
    if a.contains(x) {
        let i = choose|i: int| 0 <= i < a.len() && a[i] == x;
        assert((a + b)[i] == x);
    }
    if b.contains(x) {
        let i = choose|i: int| 0 <= i < b.len() && b[i] == x;
        assert((a + b)[a.len() + i] == x);
    }
    if (a + b).contains(x) {
        let i = choose|i: int| 0 <= i < (a + b).len() && (a + b)[i] == x;
        if i < a.len() {
            assert(a[i] == x);
        } else {
            assert(b[i - a.len()] == x);
        }
    }
}

} // verus!
