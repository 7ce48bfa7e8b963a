use vstd::prelude::*;

verus! {

broadcast use {
    vstd::seq_lib::group_seq_properties,
    vstd::seq_lib::group_to_multiset_ensures,
    vstd::multiset::group_multiset_axioms,
};

/// The indices `i` of `s` at which `flag(s[i])` holds, in increasing order.
pub open spec fn positions_where<A>(s: Seq<A>, flag: spec_fn(A) -> bool) -> Seq<usize>
    decreases s.len(),
{
    if s.len() == 0 {
        Seq::empty()
    } else {
        let earlier = positions_where(s.drop_last(), flag);
        if flag(s.last()) {
            earlier.push((s.len() - 1) as usize)
        } else {
            earlier
        }
    }
}

/// The elements of `s` at which `flag` does not hold, in their order in `s`.
pub open spec fn unflagged<A>(s: Seq<A>, flag: spec_fn(A) -> bool) -> Seq<A>
    decreases s.len(),
{
    if s.len() == 0 {
        Seq::empty()
    } else {
        let earlier = unflagged(s.drop_last(), flag);
        if flag(s.last()) {
            earlier
        } else {
            earlier.push(s.last())
        }
    }
}

pub proof fn lemma_unflagged_props<A>(s: Seq<A>, flag: spec_fn(A) -> bool)
    ensures
        unflagged(s, flag).len() <= s.len(),
        forall|x: A| #[trigger] unflagged(s, flag).contains(x) ==> s.contains(x) && !flag(x),
    decreases s.len(),
{
    if s.len() > 0 {
        lemma_unflagged_props(s.drop_last(), flag);
        let e = unflagged(s.drop_last(), flag);
        assert forall|x: A| #[trigger] unflagged(s, flag).contains(x) implies s.contains(x) && !flag(x) by {
            if e.contains(x) {
                let j = choose|j: int| 0 <= j < e.len() && e[j] == x;
                let k = choose|k: int| 0 <= k < s.drop_last().len() && s.drop_last()[k] == x;
                assert(s[k] == x);
            } else {
                assert(x == s.last());
                assert(s[s.len() - 1] == x);
            }
        }
    }
}

/// Every element is flagged exactly when every index is a flagged position.
pub proof fn lemma_all_flagged<A>(s: Seq<A>, flag: spec_fn(A) -> bool)
    ensures
        positions_where(s, flag).len() <= s.len(),
        (positions_where(s, flag).len() == s.len()) <==> (forall|k: int|
            0 <= k < s.len() ==> #[trigger] flag(s[k])),
    decreases s.len(),
{
    if s.len() > 0 {
        let d = s.drop_last();
        lemma_all_flagged(d, flag);
        if positions_where(s, flag).len() == s.len() {
            assert forall|k: int| 0 <= k < s.len() implies #[trigger] flag(s[k]) by {
                if k < d.len() {
                    assert(flag(d[k]));
                }
            }
        }
        if forall|k: int| 0 <= k < s.len() ==> #[trigger] flag(s[k]) {
            assert forall|k: int| 0 <= k < d.len() implies #[trigger] flag(d[k]) by {
                assert(flag(s[k]));
            }
            assert(flag(s[s.len() - 1]));
        }
    }
}

/// An element that is not flagged is kept.
pub proof fn lemma_unflagged_keeps<A>(s: Seq<A>, flag: spec_fn(A) -> bool, k: int)
    requires
        0 <= k < s.len(),
        !flag(s[k]),
    ensures
        unflagged(s, flag).contains(s[k]),
    decreases s.len(),
{
    let d = s.drop_last();
    if k < d.len() {
        assert(d[k] == s[k]);
        lemma_unflagged_keeps(d, flag, k);
        let e = unflagged(d, flag);
        let j = choose|j: int| 0 <= j < e.len() && e[j] == s[k];
        if !flag(s.last()) {
            assert(e.push(s.last())[j] == s[k]);
        }
    } else {
        assert(s.last() == s[k]);
        let e = unflagged(d, flag);
        assert(e.push(s.last())[e.len() as int] == s[k]);
    }
}

/// The kept elements, counted with their repeats, are among those of `s`.
pub proof fn lemma_unflagged_sub_multiset<A>(s: Seq<A>, flag: spec_fn(A) -> bool)
    ensures
        unflagged(s, flag).to_multiset().subset_of(s.to_multiset()),
    decreases s.len(),
{
    if s.len() > 0 {
        let d = s.drop_last();
        lemma_unflagged_sub_multiset(d, flag);
        assert(s =~= d.push(s.last()));
        vstd::seq_lib::to_multiset_build(d, s.last());
        if !flag(s.last()) {
            vstd::seq_lib::to_multiset_build(unflagged(d, flag), s.last());
        }
    }
}

/// Keeping the unflagged elements a second time changes nothing.
pub proof fn lemma_unflagged_twice<A>(s: Seq<A>, flag: spec_fn(A) -> bool)
    ensures
        unflagged(unflagged(s, flag), flag) == unflagged(s, flag),
    decreases s.len(),
{
    if s.len() > 0 {
        let d = s.drop_last();
        lemma_unflagged_twice(d, flag);
        let e = unflagged(d, flag);
        if !flag(s.last()) {
            assert(e.push(s.last()).drop_last() =~= e);
        }
    }
}

/// With a flag that holds wherever a second one holds, the elements kept by
/// the first are, counted with their repeats, among those kept by the
/// second.
pub proof fn lemma_unflagged_monotone<A>(s: Seq<A>, f1: spec_fn(A) -> bool, f2: spec_fn(A) -> bool)
    requires
        forall|x: A| #[trigger] f2(x) ==> f1(x),
    ensures
        unflagged(s, f1).to_multiset().subset_of(unflagged(s, f2).to_multiset()),
    decreases s.len(),
{
    if s.len() > 0 {
        let d = s.drop_last();
        lemma_unflagged_monotone(d, f1, f2);
        if !f1(s.last()) {
            vstd::seq_lib::to_multiset_build(unflagged(d, f1), s.last());
            vstd::seq_lib::to_multiset_build(unflagged(d, f2), s.last());
        } else if !f2(s.last()) {
            vstd::seq_lib::to_multiset_build(unflagged(d, f2), s.last());
        }
    }
}

} // verus!
