//! A stable insertion sort over any total preorder.
use vstd::prelude::*;

verus! {

broadcast use vstd::seq_lib::group_seq_properties;

/// A total preorder on `T`, with an executable test.
pub trait TotalPreorder<T> {
    /// `a` may stand before `b`.
    spec fn precedes(&self, a: T, b: T) -> bool;

    fn precedes_exec(&self, a: &T, b: &T) -> (r: bool)
        ensures
            r == self.precedes(*a, *b),
    ;

    proof fn lemma_total_preorder(&self)
        ensures
            forall|a: T, b: T| #[trigger] self.precedes(a, b) || self.precedes(b, a),
            forall|a: T, b: T, c: T|
                #[trigger] self.precedes(a, b) && #[trigger] self.precedes(b, c) ==> self.precedes(
                    a,
                    c,
                ),
    ;
}

/// Neither of `a` and `b` has to stand before the other.
pub open spec fn equivalent<T, O: TotalPreorder<T>>(order: O, a: T, b: T) -> bool {
    order.precedes(a, b) && order.precedes(b, a)
}

/// The elements of `s` that are equivalent to `x`, in their order in `s`.
pub open spec fn class_of<T, O: TotalPreorder<T>>(order: O, s: Seq<T>, x: T) -> Seq<T> {
    s.filter(|y: T| equivalent(order, y, x))
}

pub open spec fn sorted_under<T, O: TotalPreorder<T>>(order: O, s: Seq<T>) -> bool {
    forall|i: int, j: int| 0 <= i < j < s.len() ==> #[trigger] order.precedes(s[i], s[j])
}

/// `out` holds the elements of `inp`, and equivalent elements keep their
/// relative order.
pub open spec fn stable_rearrangement<T, O: TotalPreorder<T>>(
    order: O,
    out: Seq<T>,
    inp: Seq<T>,
) -> bool {
    &&& out.len() == inp.len()
    &&& forall|x: T| #[trigger] class_of(order, out, x) == class_of(order, inp, x)
}

/// An element of a stable rearrangement is an element of its input.
pub proof fn lemma_rearrangement_contains<T, O: TotalPreorder<T>>(
    order: O,
    out: Seq<T>,
    inp: Seq<T>,
    i: int,
)
    requires
        stable_rearrangement(order, out, inp),
        0 <= i < out.len(),
    ensures
        inp.contains(out[i]),
{
    order.lemma_total_preorder();
    let x = out[i];
    let pred = |y: T| equivalent(order, y, x);
    assert(order.precedes(x, x));
    out.lemma_filter_contains(pred, i);
    assert(class_of(order, out, x) == class_of(order, inp, x));
    let f = inp.filter(pred);
    assert(f.contains(x));
    let k = choose|k: int| 0 <= k < f.len() && f[k] == x;
    inp.lemma_filter_contains_rev(pred, x);
}

/// An element of the input is an element of its stable rearrangement.
pub proof fn lemma_rearrangement_keeps<T, O: TotalPreorder<T>>(
    order: O,
    out: Seq<T>,
    inp: Seq<T>,
    i: int,
)
    requires
        stable_rearrangement(order, out, inp),
        0 <= i < inp.len(),
    ensures
        out.contains(inp[i]),
{
    order.lemma_total_preorder();
    let x = inp[i];
    let pred = |y: T| equivalent(order, y, x);
    assert(order.precedes(x, x));
    inp.lemma_filter_contains(pred, i);
    assert(class_of(order, out, x) == class_of(order, inp, x));
    out.lemma_filter_contains_rev(pred, x);
}

/// Keeping none of the elements leaves nothing.
pub proof fn lemma_filter_none<T>(s: Seq<T>, pred: spec_fn(T) -> bool)
    requires
        forall|k: int| 0 <= k < s.len() ==> !pred(#[trigger] s[k]),
    ensures
        s.filter(pred) == Seq::<T>::empty(),
    decreases s.len(),
{
    reveal(Seq::filter);
    if s.len() > 0 {
        lemma_filter_none(s.drop_last(), pred);
        assert(!pred(s[s.len() - 1]));
    }
    assert(s.filter(pred) =~= Seq::<T>::empty());
}

/// Sorts `v` by `order`, keeping equivalent elements in the order they had.
pub fn stable_sort<T, O: TotalPreorder<T>>(v: &mut Vec<T>, order: &O)
    ensures
        sorted_under(*order, final(v)@),
        stable_rearrangement(*order, final(v)@, old(v)@),
{
    proof {
        order.lemma_total_preorder();
    }
    let ghost orig = v@;
    let n = v.len();
    let mut i: usize = 0;
    assert(v@.subrange(0, 0) =~= orig.subrange(0, 0));
    while i < n
        invariant
            v@.len() == n,
            orig.len() == n,
            0 <= i <= n,
            sorted_under(*order, v@.subrange(0, i as int)),
            v@.subrange(i as int, n as int) == orig.subrange(i as int, n as int),
            forall|x: T|
                #[trigger] class_of(*order, v@.subrange(0, i as int), x) == class_of(
                    *order,
                    orig.subrange(0, i as int),
                    x,
                ),
            forall|a: T, b: T| #[trigger] order.precedes(a, b) || order.precedes(b, a),
            forall|a: T, b: T, c: T|
                #[trigger] order.precedes(a, b) && #[trigger] order.precedes(b, c)
                    ==> order.precedes(a, c),
        decreases n - i,
    {
        let ghost pre = v@.subrange(0, i as int);
        let ghost rest = v@.subrange(i as int, n as int);
        assert(v@ =~= pre + rest);
        let e = v.remove(i);
        assert(e == orig[i as int]);
        assert(v@ =~= pre + rest.drop_first());
        let mut p: usize = i;
        while p > 0 && !order.precedes_exec(&v[p - 1], &e)
            invariant
                0 <= p <= i,
                i < n,
                v@ == pre + rest.drop_first(),
                pre.len() == i,
                forall|k: int| p <= k < i ==> !order.precedes(#[trigger] pre[k], e),
            decreases p,
        {
            p = p - 1;
        }
        let ghost left = pre.subrange(0, p as int);
        let ghost right = pre.subrange(p as int, i as int);
        assert(pre =~= left + right);
        v.insert(p, e);
        let ghost w = left + seq![e] + right;
        assert(v@.subrange(0, i + 1) =~= w);
        assert(v@.subrange(i + 1, n as int) =~= orig.subrange(i + 1, n as int));
        assert(orig.subrange(0, i + 1) =~= orig.subrange(0, i as int).push(e));
        // the prefix stays sorted
        assert forall|a: int, b: int| 0 <= a < b < w.len() implies #[trigger] order.precedes(
            w[a],
            w[b],
        ) by {
            if b < p {
                assert(order.precedes(pre[a], pre[b]));
            } else if b == p {
                assert(w[b] == e);
                if p > 0 {
                    assert(order.precedes(pre[p - 1], e));
                    if a < p - 1 {
                        assert(order.precedes(pre[a], pre[p - 1]));
                    }
                }
            } else if a == p {
                assert(w[b] == pre[b - 1]);
                assert(!order.precedes(pre[b - 1], e));
            } else if a < p {
                assert(w[a] == pre[a]);
                assert(w[b] == pre[b - 1]);
                assert(order.precedes(pre[a], pre[b - 1]));
            } else {
                assert(w[a] == pre[a - 1]);
                assert(w[b] == pre[b - 1]);
                assert(order.precedes(pre[a - 1], pre[b - 1]));
            }
        }
        // equivalence classes keep their order
        assert forall|x: T| #[trigger]
            class_of(*order, w, x) == class_of(*order, orig.subrange(0, i + 1), x) by {
            let pred = |y: T| equivalent(*order, y, x);
            assert(class_of(*order, pre, x) == class_of(*order, orig.subrange(0, i as int), x));
            assert(w =~= left + (seq![e] + right));
            assert(left.filter(pred) + right.filter(pred) == pre.filter(pred));
            Seq::<T>::empty().lemma_filter_push(e, pred);
            assert(Seq::<T>::empty().push(e) =~= seq![e]);
            assert(Seq::<T>::empty().filter(pred) =~= Seq::<T>::empty()) by {
                reveal(Seq::filter);
            }
            orig.subrange(0, i as int).lemma_filter_push(e, pred);
            Seq::filter_distributes_over_add(left, seq![e] + right, pred);
            Seq::filter_distributes_over_add(seq![e], right, pred);
            Seq::filter_distributes_over_add(left, right, pred);
            if pred(e) {
                assert forall|k: int| 0 <= k < right.len() implies !pred(#[trigger] right[k]) by {
                    assert(!order.precedes(pre[p + k], e));
                    if pred(right[k]) {
                        assert(order.precedes(right[k], x));
                        assert(order.precedes(x, e));
                    }
                }
                lemma_filter_none(right, pred);
                assert(w.filter(pred) =~= pre.filter(pred).push(e));
            } else {
                assert(w.filter(pred) =~= pre.filter(pred));
            }
        }
        i = i + 1;
    }
    assert(v@.subrange(0, n as int) =~= v@);
    assert(orig.subrange(0, n as int) =~= orig);
}

} // verus!

verus! {

/// Each element stands strictly before every later one.
pub open spec fn strictly_ordered<T>(s: Seq<T>, before: spec_fn(T, T) -> bool) -> bool {
    forall|i: int, j: int| 0 <= i < j < s.len() ==> #[trigger] before(s[i], s[j])
}

/// A strict order relation: irreflexive and asymmetric.
pub open spec fn strict_order<T>(before: spec_fn(T, T) -> bool) -> bool {
    &&& forall|x: T| !#[trigger] before(x, x)
    &&& forall|x: T, y: T| #[trigger] before(x, y) ==> !before(y, x)
}

/// Two strictly ordered sequences with the same elements are equal.
pub proof fn lemma_strictly_ordered_unique<T>(a: Seq<T>, b: Seq<T>, before: spec_fn(T, T) -> bool)
    requires
        strict_order(before),
        strictly_ordered(a, before),
        strictly_ordered(b, before),
        forall|t: T| a.contains(t) <==> b.contains(t),
    ensures
        a == b,
    decreases a.len(),
{
    if a.len() == 0 {
        if b.len() > 0 {
            assert(b.contains(b[0]));
        }
        assert(a =~= b);
    } else {
        assert(a.contains(a[0]));
        assert(b.len() > 0);
        assert(b.contains(b[0]));
        let ka = choose|k: int| 0 <= k < a.len() && a[k] == b[0];
        let kb = choose|k: int| 0 <= k < b.len() && b[k] == a[0];
        if ka > 0 {
            assert(before(a[0], a[ka]));
            if kb > 0 {
                assert(before(b[0], b[kb]));
            }
        }
        if kb > 0 {
            assert(before(b[0], b[kb]));
        }
        assert(a[0] == b[0]);
        let ra = a.drop_first();
        let rb = b.drop_first();
        assert forall|t: T| ra.contains(t) <==> rb.contains(t) by {
            if ra.contains(t) {
                let k = choose|k: int| 0 <= k < ra.len() && ra[k] == t;
                assert(before(a[0], a[k + 1]));
                assert(a.contains(t));
                assert(b.contains(t));
                let j = choose|j: int| 0 <= j < b.len() && b[j] == t;
                assert(j != 0);
                assert(rb[j - 1] == t);
            }
            if rb.contains(t) {
                let k = choose|k: int| 0 <= k < rb.len() && rb[k] == t;
                assert(before(b[0], b[k + 1]));
                assert(b.contains(t));
                assert(a.contains(t));
                let j = choose|j: int| 0 <= j < a.len() && a[j] == t;
                assert(j != 0);
                assert(ra[j - 1] == t);
            }
        }
        lemma_strictly_ordered_unique(ra, rb, before);
        assert(a =~= seq![a[0]] + ra);
        assert(b =~= seq![b[0]] + rb);
    }
}

} // verus!

verus! {

proof fn lemma_filter_two<T>(s: Seq<T>, pred: spec_fn(T) -> bool, i: int, j: int)
    requires
        0 <= i < j < s.len(),
        pred(s[i]),
        pred(s[j]),
    ensures
        s.filter(pred).len() >= 2,
    decreases s.len(),
{
    reveal(Seq::filter);
    let init = s.drop_last();
    if j < s.len() - 1 {
        lemma_filter_two(init, pred, i, j);
    } else {
        init.lemma_filter_contains(pred, i);
        assert(init.filter(pred).len() >= 1);
    }
}

proof fn lemma_filter_at_most_one<T>(s: Seq<T>, pred: spec_fn(T) -> bool)
    requires
        forall|i: int, j: int| 0 <= i < j < s.len() && #[trigger] pred(s[i]) ==> !#[trigger] pred(s[j]),
    ensures
        s.filter(pred).len() <= 1,
    decreases s.len(),
{
    reveal(Seq::filter);
    if s.len() > 0 {
        let init = s.drop_last();
        lemma_filter_at_most_one(init, pred);
        if pred(s.last()) {
            assert forall|k: int| 0 <= k < init.len() implies !pred(#[trigger] init[k]) by {
                assert(s[k] == init[k]);
                assert(s[s.len() - 1] == s.last());
            }
            lemma_filter_none(init, pred);
        }
    }
}

/// A stable rearrangement of a sequence without equivalent pairs has none
/// either.
pub proof fn lemma_rearrangement_distinct<T, O: TotalPreorder<T>>(order: O, out: Seq<T>, inp: Seq<T>)
    requires
        stable_rearrangement(order, out, inp),
        forall|i: int, j: int|
            0 <= i < j < inp.len() ==> !equivalent(order, #[trigger] inp[i], #[trigger] inp[j]),
    ensures
        forall|i: int, j: int|
            0 <= i < j < out.len() ==> !equivalent(order, #[trigger] out[i], #[trigger] out[j]),
{
    order.lemma_total_preorder();
    assert forall|i: int, j: int|
        0 <= i < j < out.len() implies !equivalent(order, #[trigger] out[i], #[trigger] out[j]) by {
        if equivalent(order, out[i], out[j]) {
            let x = out[i];
            let pred = |y: T| equivalent(order, y, x);
            assert(order.precedes(x, x));
            lemma_filter_two(out, pred, i, j);
            assert(class_of(order, out, x) == class_of(order, inp, x));
            assert forall|a: int, b: int| 0 <= a < b < inp.len() && #[trigger] pred(inp[a]) implies !#[trigger] pred(
                inp[b],
            ) by {
                if pred(inp[b]) {
                    assert(equivalent(order, inp[a], inp[b]));
                }
            }
            lemma_filter_at_most_one(inp, pred);
        }
    }
}


/// Keeping some of the elements of a strictly ordered sequence keeps it
/// strictly ordered.
pub proof fn lemma_filter_strictly_ordered<T>(s: Seq<T>, pred: spec_fn(T) -> bool, before: spec_fn(T, T) -> bool)
    requires
        strictly_ordered(s, before),
    ensures
        strictly_ordered(s.filter(pred), before),
    decreases s.len(),
{
    reveal(Seq::filter);
    if s.len() > 0 {
        let init = s.drop_last();
        assert forall|i: int, j: int| 0 <= i < j < init.len() implies #[trigger] before(init[i], init[j]) by {
            assert(before(s[i], s[j]));
        }
        lemma_filter_strictly_ordered(init, pred, before);
        let f = init.filter(pred);
        if pred(s.last()) {
            let g = f.push(s.last());
            assert forall|i: int, j: int| 0 <= i < j < g.len() implies #[trigger] before(g[i], g[j]) by {
                if j < f.len() {
                    assert(before(f[i], f[j]));
                } else {
                    assert(f.contains(f[i]));
                    init.lemma_filter_contains_rev(pred, f[i]);
                    let k = choose|k: int| 0 <= k < init.len() && init[k] == f[i];
                    assert(before(s[k], s[s.len() - 1]));
                }
            }
        }
    }
}

/// The first `n` elements of a strictly ordered sequence are strictly
/// ordered.
pub proof fn lemma_take_strictly_ordered<T>(s: Seq<T>, n: int, before: spec_fn(T, T) -> bool)
    requires
        strictly_ordered(s, before),
        0 <= n <= s.len(),
    ensures
        strictly_ordered(s.take(n), before),
{
    assert forall|i: int, j: int| 0 <= i < j < s.take(n).len() implies #[trigger] before(s.take(n)[i], s.take(n)[j]) by {
        assert(before(s[i], s[j]));
    }
}


/// Keeping every element keeps the sequence.
pub proof fn lemma_filter_all<T>(s: Seq<T>, pred: spec_fn(T) -> bool)
    requires
        forall|k: int| 0 <= k < s.len() ==> pred(#[trigger] s[k]),
    ensures
        s.filter(pred) == s,
    decreases s.len(),
{
    reveal(Seq::filter);
    if s.len() > 0 {
        lemma_filter_all(s.drop_last(), pred);
        assert(pred(s[s.len() - 1]));
        assert(s.drop_last().push(s.last()) == s);
    }
}

/// Two tests that agree on every element keep the same elements.
pub proof fn lemma_filter_congruent<T>(s: Seq<T>, p: spec_fn(T) -> bool, q: spec_fn(T) -> bool)
    requires
        forall|k: int| 0 <= k < s.len() ==> p(#[trigger] s[k]) == q(s[k]),
    ensures
        s.filter(p) == s.filter(q),
    decreases s.len(),
{
    reveal(Seq::filter);
    if s.len() > 0 {
        lemma_filter_congruent(s.drop_last(), p, q);
        assert(p(s[s.len() - 1]) == q(s[s.len() - 1]));
    }
}

/// Keeping the elements that pass `q`, where each of them also passes `p`,
/// may first keep those that pass `p`.
pub proof fn lemma_filter_within<T>(s: Seq<T>, p: spec_fn(T) -> bool, q: spec_fn(T) -> bool)
    requires
        forall|k: int| 0 <= k < s.len() && q(#[trigger] s[k]) ==> p(s[k]),
    ensures
        s.filter(q) == s.filter(p).filter(q),
    decreases s.len(),
{
    reveal(Seq::filter);
    if s.len() > 0 {
        lemma_filter_within(s.drop_last(), p, q);
        let x = s[s.len() - 1];
        let f = s.drop_last().filter(p);
        if p(x) {
            assert(s.filter(p) == f.push(x));
            assert(f.push(x).drop_last() == f);
        } else {
            assert(!q(x));
        }
    }
}

} // verus!
