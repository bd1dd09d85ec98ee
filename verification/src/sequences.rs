//! Facts about filtered sequences that the index and the queries rest on.

use vstd::prelude::*;

verus! {

/// Both conditions at once.
pub open spec fn both<A>(p: spec_fn(A) -> bool, q: spec_fn(A) -> bool) -> spec_fn(A) -> bool {
    |x: A| p(x) && q(x)
}

/// Two conditions that agree on every element select the same elements.
pub proof fn lemma_filter_agree<A>(s: Seq<A>, p: spec_fn(A) -> bool, q: spec_fn(A) -> bool)
    requires
        forall|i: int| 0 <= i < s.len() ==> p(#[trigger] s[i]) == q(s[i]),
    ensures
        s.filter(p) == s.filter(q),
    decreases s.len(),
{
    reveal(Seq::filter);
    if s.len() > 0 {
        lemma_filter_agree(s.drop_last(), p, q);
    }
}

/// Selecting by one condition and then by another selects by both.
pub proof fn lemma_filter_twice<A>(s: Seq<A>, p: spec_fn(A) -> bool, q: spec_fn(A) -> bool)
    ensures
        s.filter(p).filter(q) == s.filter(both(p, q)),
    decreases s.len(),
{
    if s.len() == 0 {
        reveal(Seq::filter);
        assert(s.filter(p) =~= Seq::<A>::empty());
        assert(s.filter(p).filter(q) =~= Seq::<A>::empty());
        assert(s.filter(both(p, q)) =~= Seq::<A>::empty());
    } else {
        let d = s.drop_last();
        let x = s.last();
        lemma_filter_twice(d, p, q);
        assert(s =~= d.push(x));
        d.lemma_filter_push(x, p);
        d.lemma_filter_push(x, both(p, q));
        if p(x) {
            d.filter(p).lemma_filter_push(x, q);
        }
    }
}

/// A condition that no element meets selects nothing.
pub proof fn lemma_filter_none<A>(s: Seq<A>, p: spec_fn(A) -> bool)
    requires
        forall|i: int| 0 <= i < s.len() ==> !p(#[trigger] s[i]),
    ensures
        s.filter(p) == Seq::<A>::empty(),
    decreases s.len(),
{
    reveal(Seq::filter);
    if s.len() > 0 {
        lemma_filter_none(s.drop_last(), p);
    } else {
        assert(s =~= Seq::<A>::empty());
    }
}

/// What selecting does when one element is taken out of the sequence: nothing
/// if the element was not selected, and otherwise the selection loses the
/// element at the place that the selected elements before it give.
pub proof fn lemma_filter_remove<A>(s: Seq<A>, p: spec_fn(A) -> bool, i: int)
    requires
        0 <= i < s.len(),
    ensures
        !p(s[i]) ==> s.remove(i).filter(p) == s.filter(p),
        p(s[i]) ==> ({
            let n = s.take(i).filter(p).len() as int;
            &&& n < s.filter(p).len()
            &&& s.filter(p)[n] == s[i]
            &&& s.remove(i).filter(p) == s.filter(p).remove(n)
        }),
{
    let a = s.take(i);
    let b = s.skip(i + 1);
    assert(s =~= a.push(s[i]) + b);
    assert(s.remove(i) =~= a + b);
    a.lemma_filter_push(s[i], p);
    Seq::filter_distributes_over_add(a.push(s[i]), b, p);
    Seq::filter_distributes_over_add(a, b, p);
    if p(s[i]) {
        let fa = a.filter(p);
        let fb = b.filter(p);
        assert((fa.push(s[i]) + fb).remove(fa.len() as int) =~= fa + fb);
    }
}

/// Selecting from a sequence without repeats gives a sequence without repeats.
pub proof fn lemma_filter_distinct<A>(s: Seq<A>, p: spec_fn(A) -> bool)
    requires
        s.no_duplicates(),
    ensures
        s.filter(p).no_duplicates(),
    decreases s.len(),
{
    if s.len() == 0 {
        reveal(Seq::filter);
    } else {
        let d = s.drop_last();
        let x = s.last();
        assert(s =~= d.push(x));
        lemma_filter_distinct(d, p);
        d.lemma_filter_push(x, p);
        if p(x) {
            let fd = d.filter(p);
            assert forall|k: int| 0 <= k < fd.len() implies fd[k] != x by {
                if fd[k] == x {
                    assert(fd.contains(x));
                    d.lemma_filter_contains_rev(p, x);
                    let m = choose|m: int| 0 <= m < d.len() && d[m] == x;
                    assert(s[m] == s[s.len() - 1]);
                }
            }
        }
    }
}

/// Whatever is selected stands in the sequence.
pub proof fn lemma_filter_within<A>(s: Seq<A>, p: spec_fn(A) -> bool, x: A)
    requires
        s.filter(p).contains(x),
    ensures
        s.contains(x),
        p(x),
{
    s.lemma_filter_contains_rev(p, x);
    let k = choose|k: int| 0 <= k < s.filter(p).len() && s.filter(p)[k] == x;
    s.lemma_filter_pred(p, k);
}


/// A condition that every element meets selects everything.
pub proof fn lemma_filter_all<A>(s: Seq<A>, p: spec_fn(A) -> bool)
    requires
        forall|i: int| 0 <= i < s.len() ==> p(#[trigger] s[i]),
    ensures
        s.filter(p) == s,
    decreases s.len(),
{
    reveal(Seq::filter);
    if s.len() > 0 {
        lemma_filter_all(s.drop_last(), p);
        assert(s =~= s.drop_last().push(s.last()));
    }
}

/// Being an element of `s`.
pub open spec fn among<A>(s: Seq<A>) -> spec_fn(A) -> bool {
    |x: A| s.contains(x)
}

/// `after` is what is left of `before` when some elements are taken out: the
/// elements that stay keep their order.
pub open spec fn kept<A>(before: Seq<A>, after: Seq<A>) -> bool {
    after == before.filter(among(after))
}

/// Nothing taken out: everything is kept.
pub proof fn lemma_kept_all<A>(s: Seq<A>)
    ensures
        kept(s, s),
{
    lemma_filter_all(s, among(s));
}

/// One element taken out of a sequence without repeats: the rest is kept.
pub proof fn lemma_kept_remove<A>(s: Seq<A>, i: int)
    requires
        s.no_duplicates(),
        0 <= i < s.len(),
    ensures
        kept(s, s.remove(i)),
        !s.remove(i).contains(s[i]),
{
    let r = s.remove(i);
    let p = among(r);
    assert(!r.contains(s[i])) by {
        if r.contains(s[i]) {
            let k = choose|k: int| 0 <= k < r.len() && r[k] == s[i];
            let m = if k < i { k } else { k + 1 };
            assert(s[m] == s[i]);
        }
    }
    lemma_filter_remove(s, p, i);
    lemma_filter_all(r, p);
}

/// What is kept stands in what it was kept from.
pub proof fn lemma_kept_within<A>(a: Seq<A>, b: Seq<A>, x: A)
    requires
        kept(a, b),
        b.contains(x),
    ensures
        a.contains(x),
{
    lemma_filter_within(a, among(b), x);
}

/// What is kept is no longer than what it was kept from.
pub proof fn lemma_kept_len<A>(a: Seq<A>, b: Seq<A>)
    requires
        kept(a, b),
    ensures
        b.len() <= a.len(),
{
    a.lemma_filter_len(among(b));
}

/// Keeping from what was kept is keeping.
pub proof fn lemma_kept_chain<A>(a: Seq<A>, b: Seq<A>, c: Seq<A>)
    requires
        kept(a, b),
        kept(b, c),
    ensures
        kept(a, c),
{
    lemma_filter_twice(a, among(b), among(c));
    assert forall|i: int| 0 <= i < a.len() implies both(among(b), among(c))(#[trigger] a[i])
        == among(c)(a[i]) by {
        if c.contains(a[i]) {
            lemma_filter_within(b, among(c), a[i]);
        }
    }
    lemma_filter_agree(a, both(among(b), among(c)), among(c));
}

} // verus!
