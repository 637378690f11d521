use vstd::prelude::*;

verus! {

/// Index of the first element of `s` that satisfies `p`, or -1 when none does.
pub open spec fn first_index<A>(s: Seq<A>, p: spec_fn(A) -> bool) -> int
    decreases s.len(),
{
    if s.len() == 0 {
        -1
    } else {
        let r = first_index(s.drop_last(), p);
        if r >= 0 {
            r
        } else if p(s.last()) {
            s.len() - 1
        } else {
            -1
        }
    }
}

/// `first_index` is the least index whose element satisfies `p`.
pub proof fn lemma_first_index<A>(s: Seq<A>, p: spec_fn(A) -> bool)
    ensures
        -1 <= first_index(s, p) < s.len(),
        first_index(s, p) >= 0 ==> p(s[first_index(s, p)]),
        forall|j: int| 0 <= j < s.len() && (first_index(s, p) < 0 || j < first_index(s, p)) ==> !p(#[trigger] s[j]),
    decreases s.len(),
{
    if s.len() > 0 {
        lemma_first_index(s.drop_last(), p);
        assert forall|j: int| 0 <= j < s.len() - 1 implies s.drop_last()[j] == s[j] by {}
    }
}

/// The first index is determined by any index that satisfies `p` with no earlier one doing so.
pub proof fn lemma_first_index_is<A>(s: Seq<A>, p: spec_fn(A) -> bool, i: int)
    requires
        -1 <= i < s.len(),
        i >= 0 ==> p(s[i]),
        forall|j: int| 0 <= j < s.len() && (i < 0 || j < i) ==> !p(#[trigger] s[j]),
    ensures
        first_index(s, p) == i,
{
    lemma_first_index(s, p);
}

/// Appending an element keeps an earlier match, and otherwise may add one.
pub proof fn lemma_first_index_push<A>(s: Seq<A>, p: spec_fn(A) -> bool, x: A)
    ensures
        first_index(s.push(x), p) == if first_index(s, p) >= 0 {
            first_index(s, p)
        } else if p(x) {
            s.len() as int
        } else {
            -1
        },
{
    assert(s.push(x).drop_last() =~= s);
}

/// Indices of the elements of `s` that satisfy `p`, in increasing order.
pub open spec fn positions<A>(s: Seq<A>, p: spec_fn(A) -> bool) -> Seq<int>
    decreases s.len(),
{
    if s.len() == 0 {
        seq![]
    } else {
        let r = positions(s.drop_last(), p);
        if p(s.last()) {
            r.push(s.len() - 1)
        } else {
            r
        }
    }
}

/// What `positions` holds: valid, matching, increasing indices, and every matching one.
pub proof fn lemma_positions<A>(s: Seq<A>, p: spec_fn(A) -> bool)
    ensures
        forall|k: int| 0 <= k < positions(s, p).len() ==> 0 <= #[trigger] positions(s, p)[k] < s.len() && p(s[positions(s, p)[k]]),
        forall|k: int, l: int| 0 <= k < l < positions(s, p).len() ==> #[trigger] positions(s, p)[k] < #[trigger] positions(s, p)[l],
        forall|j: int| 0 <= j < s.len() && p(#[trigger] s[j]) ==> positions(s, p).contains(j),
        positions(s, p).len() == 0 <==> forall|j: int| 0 <= j < s.len() ==> !p(#[trigger] s[j]),
    decreases s.len(),
{
    if s.len() > 0 {
        let t = s.drop_last();
        lemma_positions(t, p);
        assert forall|j: int| 0 <= j < t.len() implies t[j] == s[j] by {}
        let r = positions(t, p);
        if p(s.last()) {
            assert(r.push(s.len() - 1)[r.len() as int] == s.len() - 1);
            assert forall|j: int| 0 <= j < s.len() && p(#[trigger] s[j]) implies positions(s, p).contains(j) by {
                if j < s.len() - 1 {
                    assert(t[j] == s[j]);
                    let k = choose|k: int| 0 <= k < r.len() && r[k] == j;
                    assert(positions(s, p)[k] == j);
                } else {
                    assert(positions(s, p)[r.len() as int] == j);
                }
            }
        } else {
            assert forall|j: int| 0 <= j < s.len() && p(#[trigger] s[j]) implies positions(s, p).contains(j) by {
                assert(t[j] == s[j]);
            }
        }
    }
}

/// Taking one more element extends `positions` by at most that index.
pub proof fn lemma_positions_take<A>(s: Seq<A>, p: spec_fn(A) -> bool, i: int)
    requires
        0 <= i < s.len(),
    ensures
        positions(s.take(i + 1), p) == if p(s[i]) {
            positions(s.take(i), p).push(i)
        } else {
            positions(s.take(i), p)
        },
{
    assert(s.take(i + 1).drop_last() =~= s.take(i));
}


/// Replacing a matching element by one that does not match removes one position.
pub proof fn lemma_positions_update_drop<A>(s: Seq<A>, p: spec_fn(A) -> bool, i: int, x: A)
    requires
        0 <= i < s.len(),
        p(s[i]),
        !p(x),
    ensures
        positions(s.update(i, x), p).len() == positions(s, p).len() - 1,
    decreases s.len(),
{
    let t = s.update(i, x);
    if i == s.len() - 1 {
        assert(t.drop_last() =~= s.drop_last());
    } else {
        assert(t.drop_last() =~= s.drop_last().update(i, x));
        lemma_positions_update_drop(s.drop_last(), p, i, x);
    }
}

} // verus!
