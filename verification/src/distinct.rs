//! Sequences with repeated items taken out.

use vstd::prelude::*;

verus! {

/// The items of `s` in order, each kept only where it occurs first.
pub open spec fn first_occurrences<A>(s: Seq<A>) -> Seq<A>
    decreases s.len(),
{
    if s.len() == 0 {
        Seq::empty()
    } else {
        let before = first_occurrences(s.drop_last());
        if before.contains(s.last()) {
            before
        } else {
            before.push(s.last())
        }
    }
}

/// Taking out the repeats neither loses an item nor adds one.
pub proof fn lemma_first_occurrences_items<A>(s: Seq<A>)
    ensures
        forall|a: A| first_occurrences(s).contains(a) <==> s.contains(a),
    decreases s.len(),
{
    if s.len() > 0 {
        let front = s.drop_last();
        let before = first_occurrences(front);
        let kept = first_occurrences(s);
        lemma_first_occurrences_items(front);
        assert forall|a: A| s.contains(a) implies kept.contains(a) by {
            let i = s.index_of(a);
            assert(0 <= i < s.len() && s[i] == a);
            if i < s.len() - 1 {
                assert(front[i] == a);
                assert(front.contains(a));
                assert(before.contains(a));
                let j = before.index_of(a);
                assert(0 <= j < before.len() && before[j] == a);
                assert(kept[j] == a);
            } else if !before.contains(s.last()) {
                assert(kept[before.len() as int] == a);
            }
        }
        assert forall|a: A| kept.contains(a) implies s.contains(a) by {
            let j = kept.index_of(a);
            assert(0 <= j < kept.len() && kept[j] == a);
            if j < before.len() {
                assert(before[j] == a);
                assert(before.contains(a));
                assert(front.contains(a));
                let i = front.index_of(a);
                assert(0 <= i < front.len() && front[i] == a);
                assert(s[i] == a);
            } else {
                assert(s[s.len() - 1] == a);
            }
        }
    }
}

/// With the repeats taken out, no item occurs twice.
pub proof fn lemma_first_occurrences_distinct<A>(s: Seq<A>)
    ensures
        first_occurrences(s).no_duplicates(),
    decreases s.len(),
{
    if s.len() > 0 {
        lemma_first_occurrences_distinct(s.drop_last());
    }
}

/// Whether `s` holds `a` at place `n` and nowhere before it.
pub open spec fn first_at<A>(s: Seq<A>, a: A, n: int) -> bool {
    &&& 0 <= n < s.len()
    &&& s[n] == a
    &&& forall|k: int| 0 <= k < n ==> s[k] != a
}

/// The first place at which `s` holds `a`, for an `a` that `s` holds.
pub open spec fn first_place<A>(s: Seq<A>, a: A) -> int
    decreases s.len(),
{
    if s.len() == 0 {
        0
    } else if s.drop_last().contains(a) {
        first_place(s.drop_last(), a)
    } else {
        s.len() - 1
    }
}

/// An item that `s` holds is at its first place and nowhere before it.
pub proof fn lemma_first_place<A>(s: Seq<A>, a: A)
    requires
        s.contains(a),
    ensures
        first_at(s, a, first_place(s, a)),
    decreases s.len(),
{
    let front = s.drop_last();
    if front.contains(a) {
        lemma_first_place(front, a);
        let n = first_place(front, a);
        assert forall|k: int| 0 <= k < n implies s[k] != a by {
            assert(front[k] != a);
        }
    } else {
        let i = s.index_of(a);
        if i < s.len() - 1 {
            assert(front[i] == a);
        }
        assert forall|k: int| 0 <= k < s.len() - 1 implies s[k] != a by {
            if s[k] == a {
                assert(front[k] == a);
            }
        }
    }
}

/// With the repeats taken out, the items stand in the order in which `s`
/// reaches them first.
pub proof fn lemma_first_occurrences_order<A>(s: Seq<A>, i: int, j: int)
    requires
        0 <= i < j < first_occurrences(s).len(),
    ensures
        first_place(s, first_occurrences(s)[i]) < first_place(s, first_occurrences(s)[j]),
    decreases s.len(),
{
    let kept = first_occurrences(s);
    let front = s.drop_last();
    let before = first_occurrences(front);
    lemma_first_occurrences_items(front);
    assert(before.contains(before[i]));
    if j < before.len() {
        assert(before.contains(before[j]));
        lemma_first_occurrences_order(front, i, j);
    } else {
        lemma_first_place(front, kept[i]);
    }
}

/// Renaming the items one to one and taking out the repeats can be done in
/// either order.
pub proof fn lemma_first_occurrences_map<A, B>(s: Seq<A>, f: spec_fn(A) -> B)
    requires
        forall|a: A, b: A| #[trigger] f(a) == #[trigger] f(b) ==> a == b,
    ensures
        first_occurrences(s.map_values(f)) == first_occurrences(s).map_values(f),
    decreases s.len(),
{
    if s.len() == 0 {
        assert(first_occurrences(s).map_values(f) =~= Seq::empty());
    } else {
        let front = s.drop_last();
        let before = first_occurrences(front);
        lemma_first_occurrences_map(front, f);
        assert(s.map_values(f).drop_last() =~= front.map_values(f));
        assert(s.map_values(f).last() == f(s.last()));
        if before.contains(s.last()) {
            let j = before.index_of(s.last());
            assert(before.map_values(f)[j] == f(s.last()));
        } else {
            if before.map_values(f).contains(f(s.last())) {
                let j = before.map_values(f).index_of(f(s.last()));
                assert(before[j] == s.last());
            }
            assert(before.push(s.last()).map_values(f) =~= before.map_values(f).push(f(s.last())));
        }
    }
}

} // verus!
