//! Lists of paths: sorting them, and looking a path up in one.
use crate::path::{
    is_below, lemma_below_comes_later, lemma_path_order, path_less, path_views, same_path, PathBuf,
};
use crate::search::{first_where, lemma_first_where, lemma_same_filtered};
use vstd::prelude::*;

verus! {

/// No path in the list comes before one that stands further on.
pub open spec fn is_descending(ps: Seq<Seq<u8>>) -> bool {
    forall|i: int, j: int| #![trigger ps[i], ps[j]] 0 <= i < j < ps.len() ==> !path_less(ps[i], ps[j])
}

/// The ways in which the list writes the path `q`, in the order of the list.
pub open spec fn spellings(ps: Seq<Seq<u8>>, q: Seq<u8>) -> Seq<Seq<u8>> {
    ps.filter(|p: Seq<u8>| same_path(p, q))
}

/// Whether the list holds the path `q`, however it is written there.
pub open spec fn holds_path(ps: Seq<Seq<u8>>, q: Seq<u8>) -> bool {
    exists|i: int| 0 <= i < ps.len() && same_path(#[trigger] ps[i], q)
}

/// `sorted` holds what `ps` holds, later paths first, and what writes the same
/// path stays in the order it had.
pub open spec fn is_descending_sort(ps: Seq<Seq<u8>>, sorted: Seq<Seq<u8>>) -> bool {
    &&& is_descending(sorted)
    &&& forall|q: Seq<u8>| #[trigger] spellings(sorted, q) == spellings(ps, q)
}

proof fn lemma_spellings_first(ps: Seq<Seq<u8>>, q: Seq<u8>)
    requires
        ps.len() > 0,
    ensures
        spellings(ps, q) == (if same_path(ps[0], q) {
            seq![ps[0]]
        } else {
            Seq::empty()
        }) + spellings(ps.skip(1), q),
{
    reveal(Seq::filter);
    let pred = |p: Seq<u8>| same_path(p, q);
    assert(ps =~= seq![ps[0]] + ps.skip(1));
    Seq::filter_distributes_over_add(seq![ps[0]], ps.skip(1), pred);
    assert(seq![ps[0]].drop_last() =~= Seq::<Seq<u8>>::empty());
    reveal_with_fuel(Seq::filter, 2);
    assert(seq![ps[0]].filter(pred) =~= (if same_path(ps[0], q) {
        seq![ps[0]]
    } else {
        Seq::empty()
    }));
}

proof fn lemma_spellings_push(ps: Seq<Seq<u8>>, p: Seq<u8>, q: Seq<u8>)
    ensures
        spellings(ps.push(p), q) == (if same_path(p, q) {
            spellings(ps, q).push(p)
        } else {
            spellings(ps, q)
        }),
{
    reveal(Seq::filter);
    assert(ps.push(p).drop_last() =~= ps);
}

proof fn lemma_spellings_add(a: Seq<Seq<u8>>, b: Seq<Seq<u8>>, q: Seq<u8>)
    ensures
        spellings(a + b, q) == spellings(a, q) + spellings(b, q),
{
    Seq::filter_distributes_over_add(a, b, |p: Seq<u8>| same_path(p, q));
}

proof fn lemma_spellings_none(ps: Seq<Seq<u8>>, q: Seq<u8>)
    requires
        !holds_path(ps, q),
    ensures
        spellings(ps, q) == Seq::<Seq<u8>>::empty(),
{
    ps.lemma_all_neg_filter_empty(|p: Seq<u8>| same_path(p, q));
    assert(spellings(ps, q) =~= Seq::<Seq<u8>>::empty());
}

/// A list holds the path `q` where it has a way to write it.
pub proof fn lemma_holds_path_by_spellings(ps: Seq<Seq<u8>>, q: Seq<u8>)
    ensures
        holds_path(ps, q) <==> spellings(ps, q).len() > 0,
{
    let pred = |p: Seq<u8>| same_path(p, q);
    if holds_path(ps, q) {
        let i = choose|i: int| 0 <= i < ps.len() && same_path(#[trigger] ps[i], q);
        ps.lemma_filter_contains(pred, i);
    } else {
        lemma_spellings_none(ps, q);
    }
}

/// The two lists, each with later paths first, as one.
fn merge(a: Vec<PathBuf>, b: Vec<PathBuf>) -> (merged: Vec<PathBuf>)
    requires
        is_descending(path_views(a@)),
        is_descending(path_views(b@)),
    ensures
        is_descending_sort(path_views(a@) + path_views(b@), path_views(merged@)),
{
    let ghost va = path_views(a@);
    let ghost vb = path_views(b@);
    let mut merged: Vec<PathBuf> = Vec::new();
    let mut i: usize = 0;
    let mut j: usize = 0;
    proof {
        assert(va.skip(0) =~= va);
        assert(vb.skip(0) =~= vb);
        assert(path_views(merged@) =~= Seq::<Seq<u8>>::empty());
        assert forall|q: Seq<u8>| #[trigger]
            spellings(path_views(merged@), q) + (spellings(va.skip(0), q) + spellings(vb.skip(0), q))
                == spellings(va, q) + spellings(vb, q) by {
            lemma_spellings_none(path_views(merged@), q);
        }
    }
    while i < a.len() || j < b.len()
        invariant
            i <= a.len(),
            j <= b.len(),
            va == path_views(a@),
            vb == path_views(b@),
            is_descending(va),
            is_descending(vb),
            is_descending(path_views(merged@)),
            forall|k: int, l: int|
                #![trigger path_views(merged@)[k], va[l]]
                0 <= k < merged@.len() && i <= l < va.len() ==> !path_less(
                    path_views(merged@)[k],
                    va[l],
                ),
            forall|k: int, l: int|
                #![trigger path_views(merged@)[k], vb[l]]
                0 <= k < merged@.len() && j <= l < vb.len() ==> !path_less(
                    path_views(merged@)[k],
                    vb[l],
                ),
            forall|q: Seq<u8>| #[trigger]
                spellings(path_views(merged@), q) + (spellings(va.skip(i as int), q) + spellings(
                    vb.skip(j as int),
                    q,
                )) == spellings(va, q) + spellings(vb, q),
        decreases a.len() - i + b.len() - j,
    {
        let ghost before = path_views(merged@);
        let from_b = i == a.len() || (j < b.len() && a[i].precedes(&b[j]));
        if from_b {
            assert(vb[j as int] == b@[j as int]@);
            let next = b[j].clone();
            let ghost x = vb[j as int];
            merged.push(next);
            proof {
                let after = path_views(merged@);
                assert(after =~= before.push(x));
                assert(vb.skip(j as int).skip(1) =~= vb.skip(j + 1));
                assert forall|l: int| i <= l < va.len() implies path_less(#[trigger] va[l], x) by {
                    assert(va[i as int] == a@[i as int]@);
                    if l > i {
                        lemma_descends_then_less(va[l], va[i as int], x);
                    }
                }
                assert forall|k: int, l: int|
                    #![trigger after[k], va[l]]
                    0 <= k < after.len() && i <= l < va.len() implies !path_less(after[k], va[l]) by {
                    if k == before.len() {
                        lemma_path_order(va[l], x, va[l]);
                    } else {
                        assert(after[k] == before[k]);
                    }
                }
                assert forall|q: Seq<u8>| #[trigger]
                    spellings(after, q) + (spellings(va.skip(i as int), q) + spellings(
                        vb.skip(j + 1),
                        q,
                    )) == spellings(va, q) + spellings(vb, q) by {
                    lemma_spellings_push(before, x, q);
                    lemma_spellings_first(vb.skip(j as int), q);
                    assert(vb.skip(j as int)[0] == x);
                    assert(spellings(before, q) + (spellings(va.skip(i as int), q) + spellings(
                        vb.skip(j as int),
                        q,
                    )) == spellings(va, q) + spellings(vb, q));
                    if same_path(x, q) {
                        assert(!holds_path(va.skip(i as int), q)) by {
                            assert forall|k: int| 0 <= k < va.skip(i as int).len() implies !same_path(
                                #[trigger] va.skip(i as int)[k],
                                q,
                            ) by {
                                assert(va.skip(i as int)[k] == va[i + k]);
                                lemma_path_order(va[i + k], x, x);
                            }
                        }
                        lemma_spellings_none(va.skip(i as int), q);
                    }
                    assert(spellings(after, q) + (spellings(va.skip(i as int), q) + spellings(
                        vb.skip(j + 1),
                        q,
                    )) =~= spellings(va, q) + spellings(vb, q));
                }
            }
            j = j + 1;
        } else {
            assert(va[i as int] == a@[i as int]@);
            let next = a[i].clone();
            let ghost x = va[i as int];
            merged.push(next);
            proof {
                let after = path_views(merged@);
                assert(after =~= before.push(x));
                assert(va.skip(i as int).skip(1) =~= va.skip(i + 1));
                assert forall|k: int, l: int|
                    #![trigger after[k], vb[l]]
                    0 <= k < after.len() && j <= l < vb.len() implies !path_less(after[k], vb[l]) by {
                    if k == before.len() {
                        assert(vb[j as int] == b@[j as int]@);
                        if l > j {
                            lemma_descends_then_descends(vb[l], vb[j as int], x);
                        }
                    } else {
                        assert(after[k] == before[k]);
                    }
                }
                assert forall|q: Seq<u8>| #[trigger]
                    spellings(after, q) + (spellings(va.skip(i + 1), q) + spellings(
                        vb.skip(j as int),
                        q,
                    )) == spellings(va, q) + spellings(vb, q) by {
                    lemma_spellings_push(before, x, q);
                    lemma_spellings_first(va.skip(i as int), q);
                    assert(va.skip(i as int)[0] == x);
                    assert(spellings(before, q) + (spellings(va.skip(i as int), q) + spellings(
                        vb.skip(j as int),
                        q,
                    )) == spellings(va, q) + spellings(vb, q));
                    assert(spellings(after, q) + (spellings(va.skip(i + 1), q) + spellings(
                        vb.skip(j as int),
                        q,
                    )) =~= spellings(va, q) + spellings(vb, q));
                }
            }
            i = i + 1;
        }
    }
    proof {
        assert forall|q: Seq<u8>| #[trigger]
            spellings(path_views(merged@), q) == spellings(va + vb, q) by {
            lemma_spellings_add(va, vb, q);
            lemma_spellings_none(va.skip(i as int), q);
            lemma_spellings_none(vb.skip(j as int), q);
            assert(spellings(path_views(merged@), q) + (spellings(va.skip(i as int), q) + spellings(
                vb.skip(j as int),
                q,
            )) =~= spellings(path_views(merged@), q));
        }
    }
    merged
}

/// What does not come after `y` comes before `z` if `y` does.
proof fn lemma_descends_then_less(x: Seq<u8>, y: Seq<u8>, z: Seq<u8>)
    requires
        !path_less(y, x),
        path_less(y, z),
    ensures
        path_less(x, z),
{
    lemma_path_order(x, y, z);
    if same_path(x, y) {
        assert(path_less(x, z) == path_less(y, z));
    }
}

/// What does not come after `y` does not come after what `y` does not come after.
proof fn lemma_descends_then_descends(x: Seq<u8>, y: Seq<u8>, z: Seq<u8>)
    requires
        !path_less(y, x),
        !path_less(z, y),
    ensures
        !path_less(z, x),
{
    if path_less(z, x) {
        lemma_path_order(z, x, y);
        lemma_path_order(x, y, y);
        if same_path(x, y) {
            assert(path_less(z, x) == path_less(z, y));
        }
    }
}

/// The list sorted with later paths first; there is one way to do it.
pub open spec fn descending(ps: Seq<Seq<u8>>) -> Seq<Seq<u8>> {
    choose|sorted: Seq<Seq<u8>>| is_descending_sort(ps, sorted)
}

proof fn lemma_spellings_tell_all(a: Seq<Seq<u8>>, b: Seq<Seq<u8>>)
    requires
        is_descending(a),
        is_descending(b),
        forall|q: Seq<u8>| #[trigger] spellings(a, q) == spellings(b, q),
    ensures
        a == b,
    decreases a.len(),
{
    if a.len() == 0 {
        if b.len() > 0 {
            lemma_spellings_first(b, b[0]);
            lemma_spellings_none(a, b[0]);
            assert(spellings(a, b[0]) == spellings(b, b[0]));
        }
        assert(a =~= b);
    } else {
        let x = a[0];
        lemma_spellings_first(a, x);
        assert(spellings(a, x) == spellings(b, x));
        lemma_holds_path_by_spellings(b, x);
        let j = choose|j: int| 0 <= j < b.len() && same_path(#[trigger] b[j], x);
        let y = b[0];
        lemma_spellings_first(b, y);
        assert(spellings(a, y) == spellings(b, y));
        lemma_holds_path_by_spellings(a, y);
        let i = choose|i: int| 0 <= i < a.len() && same_path(#[trigger] a[i], y);
        lemma_path_order(x, y, x);
        assert(path_less(x, y) == path_less(x, a[i]));
        assert(path_less(y, x) == path_less(y, b[j]));
        lemma_path_order(x, x, x);
        lemma_path_order(y, y, y);
        assert(same_path(x, y));
        lemma_spellings_first(b, x);
        assert(spellings(a, x)[0] == x);
        assert(spellings(b, x)[0] == y);
        let ra = a.skip(1);
        let rb = b.skip(1);
        assert forall|q: Seq<u8>| #[trigger] spellings(ra, q) == spellings(rb, q) by {
            lemma_spellings_first(a, q);
            lemma_spellings_first(b, q);
            assert(spellings(a, q) == spellings(b, q));
            let head = if same_path(x, q) {
                seq![x]
            } else {
                Seq::empty()
            };
            assert((head + spellings(ra, q)).skip(head.len() as int) =~= spellings(ra, q));
            assert((head + spellings(rb, q)).skip(head.len() as int) =~= spellings(rb, q));
        }
        assert forall|k: int, l: int|
            #![trigger ra[k], ra[l]]
            0 <= k < l < ra.len() implies !path_less(ra[k], ra[l]) by {
            assert(ra[k] == a[k + 1] && ra[l] == a[l + 1]);
        }
        assert forall|k: int, l: int|
            #![trigger rb[k], rb[l]]
            0 <= k < l < rb.len() implies !path_less(rb[k], rb[l]) by {
            assert(rb[k] == b[k + 1] && rb[l] == b[l + 1]);
        }
        lemma_spellings_tell_all(ra, rb);
        assert(a =~= seq![x] + ra);
        assert(b =~= seq![y] + rb);
    }
}

/// There is one way to sort a list.
pub proof fn law_sort_is_unique(ps: Seq<Seq<u8>>, sorted: Seq<Seq<u8>>)
    requires
        is_descending_sort(ps, sorted),
    ensures
        sorted == descending(ps),
        is_descending_sort(ps, descending(ps)),
{
    let other = descending(ps);
    assert(is_descending_sort(ps, other));
    assert forall|q: Seq<u8>| #[trigger] spellings(sorted, q) == spellings(other, q) by {
        assert(spellings(other, q) == spellings(ps, q));
    }
    lemma_spellings_tell_all(sorted, other);
}

/// Every list can be sorted.
pub proof fn lemma_descending_is_sorted(ps: Seq<Seq<u8>>)
    ensures
        is_descending_sort(ps, descending(ps)),
    decreases ps.len(),
{
    if ps.len() == 0 {
        assert(is_descending_sort(ps, ps));
    } else {
        let x = ps.last();
        let front = descending(ps.drop_last());
        lemma_descending_is_sorted(ps.drop_last());
        let pred = |p: Seq<u8>| path_less(p, x);
        lemma_first_where(front, pred);
        let k = match first_where(front, pred) {
            Some(k) => k,
            None => front.len() as int,
        };
        let upper = front.take(k);
        let lower = front.skip(k);
        let sorted = upper.push(x) + lower;
        assert forall|j: int| 0 <= j < lower.len() implies path_less(#[trigger] lower[j], x) by {
            assert(lower[j] == front[k + j]);
            assert(pred(front[k]));
            if j > 0 {
                lemma_descends_then_less(front[k + j], front[k], x);
            }
        }
        assert forall|i: int, j: int|
            #![trigger sorted[i], sorted[j]]
            0 <= i < j < sorted.len() implies !path_less(sorted[i], sorted[j]) by {
            if j < k {
                assert(sorted[i] == front[i] && sorted[j] == front[j]);
            } else if j == k {
                assert(sorted[i] == front[i]);
                assert(!pred(front[i]));
            } else {
                assert(sorted[j] == lower[j - k - 1]);
                assert(sorted[j] == front[j - 1]);
                if i < k {
                    assert(sorted[i] == front[i]);
                } else if i == k {
                    lemma_path_order(x, sorted[j], x);
                } else {
                    assert(sorted[i] == front[i - 1]);
                }
            }
        }
        assert forall|q: Seq<u8>| #[trigger] spellings(sorted, q) == spellings(ps, q) by {
            lemma_spellings_add(upper.push(x), lower, q);
            lemma_spellings_push(upper, x, q);
            lemma_spellings_add(upper, lower, q);
            assert(upper + lower =~= front);
            assert(ps =~= ps.drop_last().push(x));
            lemma_spellings_push(ps.drop_last(), x, q);
            assert(spellings(front, q) == spellings(ps.drop_last(), q));
            if same_path(x, q) {
                assert forall|j: int| 0 <= j < lower.len() implies !same_path(
                    #[trigger] lower[j],
                    q,
                ) by {
                    lemma_path_order(lower[j], x, x);
                }
                lemma_spellings_none(lower, q);
                assert(spellings(upper, q) + spellings(lower, q) =~= spellings(upper, q));
            }
            assert(spellings(sorted, q) =~= spellings(ps, q));
        }
        assert(is_descending_sort(ps, sorted));
    }
}

/// The list sorted with later paths first; paths that are the same keep the
/// order that they had.
pub fn sort_descending(paths: Vec<PathBuf>) -> (sorted: Vec<PathBuf>)
    ensures
        path_views(sorted@) == descending(path_views(paths@)),
        is_descending_sort(path_views(paths@), path_views(sorted@)),
    decreases paths@.len(),
{
    let n = paths.len();
    if n < 2 {
        proof {
            law_sort_is_unique(path_views(paths@), path_views(paths@));
        }
        return paths;
    }
    let mut front = paths;
    let ghost all = front@;
    let back = front.split_off(n / 2);
    let ghost vf = path_views(front@);
    let ghost vb = path_views(back@);
    assert(vf + vb =~= path_views(all));
    let front = sort_descending(front);
    let back = sort_descending(back);
    let merged = merge(front, back);
    proof {
        let sf = path_views(front@);
        let sb = path_views(back@);
        assert forall|q: Seq<u8>| #[trigger]
            spellings(path_views(merged@), q) == spellings(path_views(all), q) by {
            lemma_spellings_add(sf, sb, q);
            lemma_spellings_add(vf, vb, q);
            assert(spellings(sf, q) == spellings(vf, q));
            assert(spellings(sb, q) == spellings(vb, q));
        }
        law_sort_is_unique(path_views(all), path_views(merged@));
    }
    merged
}

/// Sorting keeps which paths a list holds.
pub proof fn law_sort_keeps_paths(ps: Seq<Seq<u8>>, q: Seq<u8>)
    ensures
        holds_path(descending(ps), q) <==> holds_path(ps, q),
{
    lemma_descending_is_sorted(ps);
    lemma_holds_path_by_spellings(ps, q);
    lemma_holds_path_by_spellings(descending(ps), q);
    assert(spellings(descending(ps), q) == spellings(ps, q));
}

proof fn lemma_count_by_spellings(ps: Seq<Seq<u8>>, x: Seq<u8>)
    ensures
        ps.to_multiset().count(x) == spellings(ps, x).to_multiset().count(x),
    decreases ps.len(),
{
    broadcast use vstd::seq_lib::group_to_multiset_ensures;
    if ps.len() == 0 {
        lemma_spellings_none(ps, x);
        assert(ps =~= Seq::<Seq<u8>>::empty());
    } else {
        let front = ps.drop_last();
        lemma_count_by_spellings(front, x);
        assert(ps =~= front.push(ps.last()));
        lemma_spellings_push(front, ps.last(), x);
    }
}

/// Sorting keeps every entry of a list, as often as it is there.
pub proof fn law_sort_rearranges(ps: Seq<Seq<u8>>)
    ensures
        descending(ps).to_multiset() == ps.to_multiset(),
{
    lemma_descending_is_sorted(ps);
    assert forall|x: Seq<u8>| descending(ps).to_multiset().count(x) == ps.to_multiset().count(x) by {
        lemma_count_by_spellings(descending(ps), x);
        lemma_count_by_spellings(ps, x);
        assert(spellings(descending(ps), x) == spellings(ps, x));
    }
    assert(descending(ps).to_multiset() =~= ps.to_multiset());
}

/// Two sorted lists that write each path as often as one another write the same
/// paths at the same places.
proof fn lemma_sorted_alike(a: Seq<Seq<u8>>, b: Seq<Seq<u8>>)
    requires
        is_descending(a),
        is_descending(b),
        forall|q: Seq<u8>| (#[trigger] spellings(a, q)).len() == spellings(b, q).len(),
    ensures
        a.len() == b.len(),
        forall|i: int| 0 <= i < a.len() ==> same_path(#[trigger] a[i], b[i]),
    decreases a.len(),
{
    if a.len() == 0 {
        if b.len() > 0 {
            lemma_spellings_first(b, b[0]);
            lemma_spellings_none(a, b[0]);
            assert(spellings(a, b[0]).len() == spellings(b, b[0]).len());
        }
    } else {
        let x = a[0];
        lemma_spellings_first(a, x);
        assert(spellings(a, x).len() == spellings(b, x).len());
        lemma_holds_path_by_spellings(b, x);
        let j = choose|j: int| 0 <= j < b.len() && same_path(#[trigger] b[j], x);
        let y = b[0];
        lemma_spellings_first(b, y);
        assert(spellings(a, y).len() == spellings(b, y).len());
        lemma_holds_path_by_spellings(a, y);
        let i = choose|i: int| 0 <= i < a.len() && same_path(#[trigger] a[i], y);
        lemma_path_order(x, y, x);
        assert(path_less(x, y) == path_less(x, a[i]));
        assert(path_less(y, x) == path_less(y, b[j]));
        lemma_path_order(x, x, x);
        lemma_path_order(y, y, y);
        assert(same_path(x, y));
        let ra = a.skip(1);
        let rb = b.skip(1);
        assert forall|q: Seq<u8>| (#[trigger] spellings(ra, q)).len() == spellings(rb, q).len() by {
            lemma_spellings_first(a, q);
            lemma_spellings_first(b, q);
            assert(spellings(a, q).len() == spellings(b, q).len());
        }
        assert forall|k: int, l: int|
            #![trigger ra[k], ra[l]]
            0 <= k < l < ra.len() implies !path_less(ra[k], ra[l]) by {
            assert(ra[k] == a[k + 1] && ra[l] == a[l + 1]);
        }
        assert forall|k: int, l: int|
            #![trigger rb[k], rb[l]]
            0 <= k < l < rb.len() implies !path_less(rb[k], rb[l]) by {
            assert(rb[k] == b[k + 1] && rb[l] == b[l + 1]);
        }
        lemma_sorted_alike(ra, rb);
        assert forall|k: int| 0 <= k < a.len() implies same_path(#[trigger] a[k], b[k]) by {
            if k > 0 {
                assert(a[k] == ra[k - 1] && b[k] == rb[k - 1]);
            }
        }
    }
}

/// The order in which paths are listed does not matter: lists of the same paths
/// sort to the same path at each place, written in one way or another.
pub proof fn law_sort_forgets_the_listed_order(a: Seq<Seq<u8>>, b: Seq<Seq<u8>>)
    requires
        a.to_multiset() == b.to_multiset(),
    ensures
        descending(a).len() == descending(b).len(),
        forall|i: int|
            0 <= i < descending(a).len() ==> same_path(
                #[trigger] descending(a)[i],
                descending(b)[i],
            ),
{
    lemma_descending_is_sorted(a);
    lemma_descending_is_sorted(b);
    assert forall|q: Seq<u8>|
        (#[trigger] spellings(descending(a), q)).len() == spellings(descending(b), q).len() by {
        lemma_same_filtered(a, b, |p: Seq<u8>| same_path(p, q));
        assert(spellings(descending(a), q) == spellings(a, q));
        assert(spellings(descending(b), q) == spellings(b, q));
    }
    lemma_sorted_alike(descending(a), descending(b));
}

/// In a sorted list a directory stands after everything that is below it.
pub proof fn law_sort_puts_inner_first(ps: Seq<Seq<u8>>, i: int, j: int)
    requires
        0 <= i < descending(ps).len(),
        0 <= j < descending(ps).len(),
        is_below(descending(ps)[i], descending(ps)[j]),
    ensures
        i < j,
{
    let sorted = descending(ps);
    lemma_descending_is_sorted(ps);
    lemma_below_comes_later(sorted[i], sorted[j]);
    lemma_path_order(sorted[i], sorted[j], sorted[i]);
    if j < i {
        assert(!path_less(sorted[j], sorted[i]));
    }
}

/// Whether the sorted list holds the path.
pub fn sorted_contains(sorted: &Vec<PathBuf>, path: &PathBuf) -> (found: bool)
    requires
        is_descending(path_views(sorted@)),
    ensures
        found == holds_path(path_views(sorted@), path@),
{
    let ghost ps = path_views(sorted@);
    let mut lo: usize = 0;
    let mut hi: usize = sorted.len();
    while lo < hi
        invariant
            lo <= hi <= sorted.len(),
            ps == path_views(sorted@),
            is_descending(ps),
            forall|i: int| 0 <= i < lo ==> !same_path(#[trigger] ps[i], path@),
            forall|i: int| hi <= i < ps.len() ==> !same_path(#[trigger] ps[i], path@),
        decreases hi - lo,
    {
        let mid = lo + (hi - lo) / 2;
        let ghost m = ps[mid as int];
        assert(m == sorted@[mid as int]@);
        if sorted[mid].precedes(path) {
            // Everything from here on comes before the path.
            assert forall|i: int| mid <= i < ps.len() implies !same_path(#[trigger] ps[i], path@) by {
                if i > mid {
                    lemma_descends_then_less(ps[i], m, path@);
                }
                lemma_path_order(ps[i], path@, path@);
            }
            hi = mid;
        } else if path.precedes(&sorted[mid]) {
            // Everything up to here comes after the path.
            assert forall|i: int| 0 <= i <= mid implies !same_path(#[trigger] ps[i], path@) by {
                if same_path(ps[i], path@) {
                    assert(path_less(ps[i], m) == path_less(path@, m));
                    lemma_path_order(m, m, m);
                    if i < mid {
                        assert(!path_less(ps[i], ps[mid as int]));
                    }
                }
            }
            lo = mid + 1;
        } else {
            proof {
                lemma_path_order(m, path@, m);
                assert(same_path(ps[mid as int], path@));
            }
            return true;
        }
    }
    false
}

/// A list holds a path where some entry of it goes through the same.
pub proof fn law_a_list_holds_what_is_in_it(ps: Seq<Seq<u8>>, q: Seq<u8>)
    ensures
        holds_path(ps, q) <==> exists|p: Seq<u8>| #[trigger] ps.contains(p) && same_path(p, q),
{
    if holds_path(ps, q) {
        let i = choose|i: int| 0 <= i < ps.len() && same_path(#[trigger] ps[i], q);
        assert(ps.contains(ps[i]));
    }
}

/// In a sorted list no path comes before one that stands further on.
pub proof fn law_sorted_is_in_order(ps: Seq<Seq<u8>>, i: int, j: int)
    requires
        0 <= i < j < descending(ps).len(),
    ensures
        !path_less(descending(ps)[i], descending(ps)[j]),
{
    lemma_descending_is_sorted(ps);
}

} // verus!
