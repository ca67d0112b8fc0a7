//! The items of a list that meet a condition: the first of them, and how often
//! each is there.
use vstd::prelude::*;

verus! {

/// Where the first item that meets `pred` stands, if there is one.
pub open spec fn first_where<T>(s: Seq<T>, pred: spec_fn(T) -> bool) -> Option<int>
    decreases s.len(),
{
    if s.len() == 0 {
        None
    } else {
        match first_where(s.drop_last(), pred) {
            Some(i) => Some(i),
            None => if pred(s.last()) {
                Some(s.len() - 1)
            } else {
                None
            },
        }
    }
}

/// What is found meets the condition and nothing before it does; where nothing
/// is found, no item meets it.
pub proof fn lemma_first_where<T>(s: Seq<T>, pred: spec_fn(T) -> bool)
    ensures
        match first_where(s, pred) {
            Some(i) => {
                &&& 0 <= i < s.len()
                &&& pred(s[i])
                &&& forall|j: int| 0 <= j < i ==> !pred(#[trigger] s[j])
            },
            None => forall|j: int| 0 <= j < s.len() ==> !pred(#[trigger] s[j]),
        },
    decreases s.len(),
{
    if s.len() > 0 {
        let rest = s.drop_last();
        lemma_first_where(rest, pred);
        assert forall|j: int| 0 <= j < rest.len() implies rest[j] == #[trigger] s[j] by {}
        match first_where(rest, pred) {
            Some(i) => {
                assert(rest[i] == s[i]);
                assert forall|j: int| 0 <= j < i implies !pred(#[trigger] s[j]) by {
                    assert(!pred(rest[j]));
                }
            },
            None => {
                assert forall|j: int| 0 <= j < rest.len() implies !pred(#[trigger] s[j]) by {
                    assert(!pred(rest[j]));
                }
            },
        }
    }
}

/// An item that meets the condition, with none before it, is the one found.
pub proof fn lemma_first_where_is<T>(s: Seq<T>, pred: spec_fn(T) -> bool, i: int)
    requires
        0 <= i < s.len(),
        pred(s[i]),
        forall|j: int| 0 <= j < i ==> !pred(#[trigger] s[j]),
    ensures
        first_where(s, pred) == Some(i),
{
    lemma_first_where(s, pred);
    match first_where(s, pred) {
        Some(k) => {
            if k < i {
                assert(!pred(s[k]));
            }
            if i < k {
                assert(!pred(s[i]));
            }
        },
        None => {
            assert(!pred(s[i]));
        },
    }
}

/// Where no item meets the condition, none is found.
pub proof fn lemma_first_where_none<T>(s: Seq<T>, pred: spec_fn(T) -> bool)
    requires
        forall|j: int| 0 <= j < s.len() ==> !pred(#[trigger] s[j]),
    ensures
        first_where(s, pred) is None,
{
    lemma_first_where(s, pred);
}

/// What meets the condition stays, as often as it is there, and nothing else.
pub proof fn lemma_filter_counts<T>(s: Seq<T>, pred: spec_fn(T) -> bool, x: T)
    ensures
        s.filter(pred).to_multiset().count(x) == (if pred(x) {
            s.to_multiset().count(x)
        } else {
            0
        }),
    decreases s.len(),
{
    broadcast use vstd::seq_lib::group_to_multiset_ensures;
    reveal(Seq::filter);
    if s.len() == 0 {
        assert(s.filter(pred) =~= Seq::<T>::empty());
        assert(s =~= Seq::<T>::empty());
    } else {
        lemma_filter_counts(s.drop_last(), pred, x);
        assert(s =~= s.drop_last().push(s.last()));
    }
}

/// Of two lists that hold the same items in some order, a condition leaves the
/// same items.
pub proof fn lemma_same_filtered<T>(a: Seq<T>, b: Seq<T>, pred: spec_fn(T) -> bool)
    requires
        a.to_multiset() == b.to_multiset(),
    ensures
        a.filter(pred).to_multiset() == b.filter(pred).to_multiset(),
        a.filter(pred).len() == b.filter(pred).len(),
{
    broadcast use vstd::seq_lib::group_to_multiset_ensures;
    assert forall|x: T|
        a.filter(pred).to_multiset().count(x) == b.filter(pred).to_multiset().count(x) by {
        lemma_filter_counts(a, pred, x);
        lemma_filter_counts(b, pred, x);
    }
    assert(a.filter(pred).to_multiset() =~= b.filter(pred).to_multiset());
    assert(a.filter(pred).to_multiset().len() == a.filter(pred).len());
    assert(b.filter(pred).to_multiset().len() == b.filter(pred).len());
}

/// Of two lists that hold the same items in some order, a function gives the same
/// values.
pub proof fn lemma_same_mapped<T, U>(a: Seq<T>, b: Seq<T>, f: spec_fn(T) -> U)
    requires
        a.to_multiset() == b.to_multiset(),
    ensures
        a.map_values(f).to_multiset() == b.map_values(f).to_multiset(),
    decreases a.len(),
{
    broadcast use vstd::seq_lib::group_to_multiset_ensures;
    assert(a.to_multiset().len() == a.len());
    assert(b.to_multiset().len() == b.len());
    if a.len() == 0 {
        assert(a.map_values(f) =~= b.map_values(f));
    } else {
        let x = a.last();
        let front = a.drop_last();
        assert(a =~= front.push(x));
        assert(a.contains(x));
        assert(b.to_multiset().count(x) > 0);
        let k = choose|k: int| 0 <= k < b.len() && b[k] == x;
        let rest = b.remove(k);
        assert(front.to_multiset() =~= rest.to_multiset());
        lemma_same_mapped(front, rest, f);
        assert(a.map_values(f) =~= front.map_values(f).push(f(x)));
        assert(b.map_values(f).remove(k) =~= rest.map_values(f));
        assert(b.map_values(f)[k] == f(x));
        assert(b.map_values(f).contains(f(x)));
        assert(b.map_values(f).to_multiset() =~= b.map_values(f).remove(k).to_multiset().insert(
            f(x),
        ));
    }
}

/// One more item is held, and the others as before.
pub proof fn lemma_push_holds<T>(s: Seq<T>, x: T, y: T)
    ensures
        s.push(x).contains(y) <==> s.contains(y) || y == x,
{
    if s.contains(y) {
        let i = s.index_of(y);
        assert(s.push(x)[i] == y);
    }
    assert(s.push(x)[s.len() as int] == x);
}

} // verus!
