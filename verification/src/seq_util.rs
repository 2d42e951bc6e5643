//! Sequence helpers shared by the rule passes: keeping the elements that
//! satisfy a predicate, locating the last element that satisfies one, and
//! inserting a block at a position. The removal and insertion steps of the
//! passes, and their idempotency arguments, are all phrased over these.

use vstd::prelude::*;

verus! {

/// The subsequence of elements satisfying `p`, in order.
pub open spec fn keep<A>(s: Seq<A>, p: spec_fn(A) -> bool) -> Seq<A>
    decreases s.len(),
{
    if s.len() == 0 {
        Seq::empty()
    } else if p(s.last()) {
        keep(s.drop_last(), p).push(s.last())
    } else {
        keep(s.drop_last(), p)
    }
}

/// The index of the last element satisfying `p`, or -1 if there is none.
pub open spec fn last_where<A>(s: Seq<A>, p: spec_fn(A) -> bool) -> int
    decreases s.len(),
{
    if s.len() == 0 {
        -1
    } else if p(s.last()) {
        s.len() - 1
    } else {
        last_where(s.drop_last(), p)
    }
}

/// The index of the first element satisfying `p`, or -1 if there is none.
pub open spec fn first_where<A>(s: Seq<A>, p: spec_fn(A) -> bool) -> int
    decreases s.len(),
{
    if s.len() == 0 {
        -1
    } else if p(s[0]) {
        0
    } else {
        let r = first_where(s.subrange(1, s.len() as int), p);
        if r == -1 {
            -1
        } else {
            r + 1
        }
    }
}

/// Any index that satisfies `p` with nothing satisfying `p` before it is
/// the `first_where` index; likewise -1 when nothing satisfies `p`.
pub proof fn lemma_first_where_unique<A>(s: Seq<A>, p: spec_fn(A) -> bool, i: int)
    requires
        -1 <= i < s.len(),
        i >= 0 ==> p(s[i]),
        i >= 0 ==> forall|j: int| 0 <= j < i ==> !p(#[trigger] s[j]),
        i == -1 ==> forall|j: int| 0 <= j < s.len() ==> !p(#[trigger] s[j]),
    ensures
        first_where(s, p) == i,
    decreases s.len(),
{
    if s.len() > 0 && i != 0 {
        let rest = s.subrange(1, s.len() as int);
        assert(forall|j: int| 0 <= j < rest.len() ==> #[trigger] rest[j] == s[j + 1]);
        if i == -1 {
            lemma_first_where_unique(rest, p, -1);
        } else {
            lemma_first_where_unique(rest, p, i - 1);
        }
    }
}

/// `first_where` is in range and finds a satisfying element exactly when
/// one exists.
pub proof fn lemma_first_where_props<A>(s: Seq<A>, p: spec_fn(A) -> bool)
    ensures
        -1 <= first_where(s, p) < s.len(),
        first_where(s, p) >= 0 ==> p(s[first_where(s, p)]),
        first_where(s, p) >= 0 <==> exists|i: int| 0 <= i < s.len() && p(#[trigger] s[i]),
    decreases s.len(),
{
    if s.len() > 0 && !p(s[0]) {
        let rest = s.subrange(1, s.len() as int);
        lemma_first_where_props(rest, p);
        assert(forall|j: int| 0 <= j < rest.len() ==> #[trigger] rest[j] == s[j + 1]);
        if exists|i: int| 0 <= i < s.len() && p(#[trigger] s[i]) {
            let i = choose|i: int| 0 <= i < s.len() && p(#[trigger] s[i]);
            assert(p(rest[i - 1]));
        }
    }
}

/// An element satisfying `q` that is kept stays an element satisfying `q`.
pub proof fn lemma_keep_contains<A>(s: Seq<A>, p: spec_fn(A) -> bool, i: int)
    requires
        0 <= i < s.len(),
        p(s[i]),
    ensures
        exists|j: int| 0 <= j < keep(s, p).len() && #[trigger] keep(s, p)[j] == s[i],
    decreases s.len(),
{
    if i == s.len() - 1 {
        assert(keep(s, p)[keep(s, p).len() - 1] == s[i]);
    } else {
        lemma_keep_contains(s.drop_last(), p, i);
        let j = choose|j: int|
            0 <= j < keep(s.drop_last(), p).len() && #[trigger] keep(s.drop_last(), p)[j]
                == s.drop_last()[i];
        assert(keep(s, p)[j] == s[i]);
    }
}

/// Whatever holds of every element of `s` holds of every kept element.
pub proof fn lemma_keep_preserves_all<A>(s: Seq<A>, p: spec_fn(A) -> bool, q: spec_fn(A) -> bool)
    requires
        forall|i: int| 0 <= i < s.len() ==> q(#[trigger] s[i]),
    ensures
        forall|i: int| 0 <= i < keep(s, p).len() ==> q(#[trigger] keep(s, p)[i]),
    decreases s.len(),
{
    if s.len() > 0 {
        assert(forall|i: int|
            0 <= i < s.drop_last().len() ==> q(#[trigger] s.drop_last()[i]));
        lemma_keep_preserves_all(s.drop_last(), p, q);
        if p(s.last()) {
            assert forall|i: int| 0 <= i < keep(s, p).len() implies q(
                #[trigger] keep(s, p)[i],
            ) by {
                if i < keep(s, p).len() - 1 {
                    assert(keep(s, p)[i] == keep(s.drop_last(), p)[i]);
                } else {
                    assert(keep(s, p)[i] == s.last());
                }
            }
        } else {
            assert forall|i: int| 0 <= i < keep(s, p).len() implies q(
                #[trigger] keep(s, p)[i],
            ) by {
                assert(keep(s, p)[i] == keep(s.drop_last(), p)[i]);
            }
        }
    }
}

/// `s` with the block `b` spliced in before position `i`.
pub open spec fn insert_block<A>(s: Seq<A>, i: int, b: Seq<A>) -> Seq<A> {
    s.subrange(0, i) + b + s.subrange(i, s.len() as int)
}

pub proof fn lemma_keep_push<A>(s: Seq<A>, p: spec_fn(A) -> bool, x: A)
    ensures
        keep(s.push(x), p) == if p(x) {
            keep(s, p).push(x)
        } else {
            keep(s, p)
        },
{
    assert(s.push(x).drop_last() =~= s);
    assert(s.push(x).last() == x);
}

/// Every element kept satisfies the predicate.
pub proof fn lemma_keep_pred<A>(s: Seq<A>, p: spec_fn(A) -> bool)
    ensures
        forall|i: int| 0 <= i < keep(s, p).len() ==> p(#[trigger] keep(s, p)[i]),
    decreases s.len(),
{
    if s.len() > 0 {
        lemma_keep_pred(s.drop_last(), p);
        if p(s.last()) {
            assert forall|i: int| 0 <= i < keep(s, p).len() implies p(
                #[trigger] keep(s, p)[i],
            ) by {
                if i < keep(s, p).len() - 1 {
                    assert(keep(s, p)[i] == keep(s.drop_last(), p)[i]);
                } else {
                    assert(keep(s, p)[i] == s.last());
                }
            }
        } else {
            assert(keep(s, p) == keep(s.drop_last(), p));
            assert forall|i: int| 0 <= i < keep(s, p).len() implies p(
                #[trigger] keep(s, p)[i],
            ) by {
                assert(keep(s, p)[i] == keep(s.drop_last(), p)[i]);
            }
        }
    }
}

/// A sequence whose elements all satisfy `p` is kept whole.
pub proof fn lemma_keep_all<A>(s: Seq<A>, p: spec_fn(A) -> bool)
    requires
        forall|i: int| 0 <= i < s.len() ==> p(#[trigger] s[i]),
    ensures
        keep(s, p) == s,
    decreases s.len(),
{
    if s.len() > 0 {
        assert(forall|i: int|
            0 <= i < s.drop_last().len() ==> p(#[trigger] s.drop_last()[i]));
        lemma_keep_all(s.drop_last(), p);
        assert(keep(s, p) =~= s);
    } else {
        assert(keep(s, p) =~= s);
    }
}

/// A sequence none of whose elements satisfy `p` keeps nothing.
pub proof fn lemma_keep_none<A>(s: Seq<A>, p: spec_fn(A) -> bool)
    requires
        forall|i: int| 0 <= i < s.len() ==> !p(#[trigger] s[i]),
    ensures
        keep(s, p) == Seq::<A>::empty(),
    decreases s.len(),
{
    if s.len() > 0 {
        assert(forall|i: int|
            0 <= i < s.drop_last().len() ==> !p(#[trigger] s.drop_last()[i]));
        lemma_keep_none(s.drop_last(), p);
    }
}

/// Keeping distributes over concatenation.
pub proof fn lemma_keep_add<A>(a: Seq<A>, b: Seq<A>, p: spec_fn(A) -> bool)
    ensures
        keep(a + b, p) == keep(a, p) + keep(b, p),
    decreases b.len(),
{
    if b.len() == 0 {
        assert(a + b =~= a);
        assert(keep(a, p) + keep(b, p) =~= keep(a, p));
    } else {
        lemma_keep_add(a, b.drop_last(), p);
        assert((a + b).drop_last() =~= a + b.drop_last());
        assert((a + b).last() == b.last());
        if p(b.last()) {
            assert(keep(a, p) + keep(b, p) =~= (keep(a, p) + keep(b.drop_last(), p)).push(
                b.last(),
            ));
        }
    }
}

/// Keeping is idempotent.
pub proof fn lemma_keep_idem<A>(s: Seq<A>, p: spec_fn(A) -> bool)
    ensures
        keep(keep(s, p), p) == keep(s, p),
{
    lemma_keep_pred(s, p);
    lemma_keep_all(keep(s, p), p);
}

/// `last_where` lies in range and is the last index satisfying `p`.
pub proof fn lemma_last_where<A>(s: Seq<A>, p: spec_fn(A) -> bool)
    ensures
        -1 <= last_where(s, p) < s.len(),
        last_where(s, p) >= 0 ==> p(s[last_where(s, p)]),
        forall|j: int| last_where(s, p) < j < s.len() ==> !p(#[trigger] s[j]),
    decreases s.len(),
{
    if s.len() > 0 && !p(s.last()) {
        lemma_last_where(s.drop_last(), p);
        assert(forall|j: int|
            0 <= j < s.drop_last().len() ==> #[trigger] s[j] == s.drop_last()[j]);
    }
}

/// Any index that satisfies `p` with nothing satisfying `p` after it is
/// the `last_where` index; likewise -1 when nothing satisfies `p`.
pub proof fn lemma_last_where_unique<A>(s: Seq<A>, p: spec_fn(A) -> bool, i: int)
    requires
        -1 <= i < s.len(),
        i >= 0 ==> p(s[i]),
        forall|j: int| i < j < s.len() ==> !p(#[trigger] s[j]),
    ensures
        last_where(s, p) == i,
    decreases s.len(),
{
    if s.len() > 0 {
        if i == s.len() - 1 {
        } else {
            assert(!p(s.last()));
            assert(forall|j: int|
                0 <= j < s.drop_last().len() ==> #[trigger] s.drop_last()[j] == s[j]);
            lemma_last_where_unique(s.drop_last(), p, i);
        }
    }
}

/// An element of `s` keeps its value in `insert_block(s, q, b)`.
pub proof fn lemma_insert_block_elem<A>(s: Seq<A>, q: int, b: Seq<A>, i: int)
    requires
        0 <= q <= s.len(),
        0 <= i < s.len(),
    ensures
        0 <= (if i < q {
            i
        } else {
            i + b.len()
        }) < insert_block(s, q, b).len(),
        insert_block(s, q, b)[if i < q {
            i
        } else {
            i + b.len()
        }] == s[i],
{
}

} // verus!
