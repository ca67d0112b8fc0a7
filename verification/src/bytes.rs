//! Byte strings: equality, order, copies.
use vstd::prelude::*;

verus! {

/// The lexicographic order that `lt` gives on sequences: a proper prefix comes
/// first, else the first difference decides.
pub open spec fn lex_less<T>(a: Seq<T>, b: Seq<T>, lt: spec_fn(T, T) -> bool) -> bool
    decreases a.len(),
{
    if b.len() == 0 {
        false
    } else if a.len() == 0 {
        true
    } else if a[0] == b[0] {
        lex_less(a.drop_first(), b.drop_first(), lt)
    } else {
        lt(a[0], b[0])
    }
}

/// Whether `lt` orders the values of `T` strictly and totally.
pub open spec fn strict_total_order<T>(lt: spec_fn(T, T) -> bool) -> bool {
    &&& forall|x: T| !(#[trigger] lt(x, x))
    &&& forall|x: T, y: T, z: T| #[trigger] lt(x, y) && #[trigger] lt(y, z) ==> lt(x, z)
    &&& forall|x: T, y: T| #![trigger lt(x, y)] #![trigger lt(y, x)] x == y || lt(x, y) || lt(y, x)
}

pub proof fn lemma_lex_irreflexive<T>(a: Seq<T>, lt: spec_fn(T, T) -> bool)
    ensures
        !lex_less(a, a, lt),
    decreases a.len(),
{
    if a.len() > 0 {
        lemma_lex_irreflexive(a.drop_first(), lt);
    }
}

pub proof fn lemma_lex_transitive<T>(a: Seq<T>, b: Seq<T>, c: Seq<T>, lt: spec_fn(T, T) -> bool)
    requires
        strict_total_order(lt),
        lex_less(a, b, lt),
        lex_less(b, c, lt),
    ensures
        lex_less(a, c, lt),
    decreases a.len(),
{
    if a.len() > 0 {
        if a[0] == b[0] && b[0] == c[0] {
            lemma_lex_transitive(a.drop_first(), b.drop_first(), c.drop_first(), lt);
        } else if a[0] == c[0] {
            assert(lt(a[0], b[0]) && lt(b[0], c[0]));
            assert(!lt(a[0], a[0]));
        }
    }
}

pub proof fn lemma_lex_total<T>(a: Seq<T>, b: Seq<T>, lt: spec_fn(T, T) -> bool)
    requires
        strict_total_order(lt),
    ensures
        a == b || lex_less(a, b, lt) || lex_less(b, a, lt),
    decreases a.len(),
{
    if a.len() > 0 && b.len() > 0 {
        if a[0] == b[0] {
            lemma_lex_total(a.drop_first(), b.drop_first(), lt);
            if a.drop_first() == b.drop_first() {
                assert(a =~= seq![a[0]] + a.drop_first());
                assert(b =~= seq![b[0]] + b.drop_first());
            }
        } else {
            assert(lt(a[0], b[0]) || lt(b[0], a[0]));
        }
    } else if a.len() == 0 && b.len() == 0 {
        assert(a =~= b);
    }
}

/// A proper prefix comes before what it is a prefix of.
pub proof fn lemma_lex_prefix<T>(a: Seq<T>, b: Seq<T>, lt: spec_fn(T, T) -> bool)
    requires
        a.len() < b.len(),
        b.take(a.len() as int) == a,
    ensures
        lex_less(a, b, lt),
    decreases a.len(),
{
    if a.len() > 0 {
        assert(b.take(a.len() as int)[0] == b[0]);
        assert(b.drop_first().take(a.len() - 1) =~= b.take(a.len() as int).drop_first());
        lemma_lex_prefix(a.drop_first(), b.drop_first(), lt);
    }
}

/// What stands before the first difference does not decide.
pub proof fn lemma_lex_skip<T>(a: Seq<T>, b: Seq<T>, k: int, lt: spec_fn(T, T) -> bool)
    requires
        0 <= k <= a.len(),
        k <= b.len(),
        forall|j: int| 0 <= j < k ==> a[j] == b[j],
    ensures
        lex_less(a, b, lt) == lex_less(a.skip(k), b.skip(k), lt),
    decreases k,
{
    if k == 0 {
        assert(a.skip(0) =~= a);
        assert(b.skip(0) =~= b);
    } else {
        assert(a.drop_first().skip(k - 1) =~= a.skip(k));
        assert(b.drop_first().skip(k - 1) =~= b.skip(k));
        lemma_lex_skip(a.drop_first(), b.drop_first(), k - 1, lt);
    }
}

/// The order of byte strings.
pub open spec fn bytes_less(a: Seq<u8>, b: Seq<u8>) -> bool {
    lex_less(a, b, |x: u8, y: u8| x < y)
}

/// A copy of the bytes.
pub fn copy_bytes(bytes: &[u8]) -> (copy: Vec<u8>)
    ensures
        copy@ == bytes@,
{
    let mut copy: Vec<u8> = Vec::new();
    copy.extend_from_slice(bytes);
    assert(copy@ =~= bytes@);
    copy
}

/// Whether the two byte strings are the same.
pub fn same_bytes(a: &[u8], b: &[u8]) -> (same: bool)
    ensures
        same == (a@ == b@),
{
    if a.len() != b.len() {
        return false;
    }
    let mut i: usize = 0;
    while i < a.len()
        invariant
            i <= a.len(),
            a.len() == b.len(),
            forall|j: int| 0 <= j < i ==> a@[j] == b@[j],
        decreases a.len() - i,
    {
        if a[i] != b[i] {
            assert(a@[i as int] != b@[i as int]);
            return false;
        }
        i = i + 1;
    }
    assert(a@ =~= b@);
    true
}

/// Whether `a` comes before `b` in the order of byte strings.
pub fn bytes_precede(a: &[u8], b: &[u8]) -> (less: bool)
    ensures
        less == bytes_less(a@, b@),
{
    let mut i: usize = 0;
    let ghost lt = |x: u8, y: u8| x < y;
    while i < a.len() && i < b.len()
        invariant
            i <= a.len(),
            i <= b.len(),
            lt == (|x: u8, y: u8| x < y),
            forall|j: int| 0 <= j < i ==> a@[j] == b@[j],
        decreases a.len() - i,
    {
        if a[i] != b[i] {
            proof {
                lemma_lex_skip(a@, b@, i as int, lt);
                assert(a@.skip(i as int)[0] == a@[i as int]);
                assert(b@.skip(i as int)[0] == b@[i as int]);
            }
            return a[i] < b[i];
        }
        i = i + 1;
    }
    proof {
        lemma_lex_skip(a@, b@, i as int, lt);
    }
    i < b.len()
}

/// Byte strings that part ways after the same start come in the order of the bytes
/// with which they go on; one that ends there comes first.
pub proof fn law_bytes_come_in_order(start: Seq<u8>, x: Seq<u8>, y: Seq<u8>)
    requires
        x.len() > 0 && y.len() > 0 ==> x[0] != y[0],
    ensures
        bytes_less(start + x, start + y) <==> y.len() > 0 && (x.len() == 0 || x[0] < y[0]),
{
    let lt = |x: u8, y: u8| x < y;
    lemma_lex_skip(start + x, start + y, start.len() as int, lt);
    assert((start + x).skip(start.len() as int) =~= x);
    assert((start + y).skip(start.len() as int) =~= y);
}

} // verus!
