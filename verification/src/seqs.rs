//! Sequence helpers the contracts are written with: the elements that meet a
//! test, in order, and the first position that meets one.
use vstd::prelude::*;

verus! {

/// The elements of `s` that meet `p`, in their order.
pub open spec fn keep<T>(s: Seq<T>, p: spec_fn(T) -> bool) -> Seq<T>
    decreases s.len(),
{
    if s.len() == 0 {
        Seq::empty()
    } else {
        let r = keep(s.drop_last(), p);
        if p(s.last()) {
            r.push(s.last())
        } else {
            r
        }
    }
}

/// The first position at or after `i` whose element meets `p`.
pub open spec fn first_from<T>(s: Seq<T>, p: spec_fn(T) -> bool, i: int) -> Option<int>
    decreases s.len() - i,
{
    if i < 0 || i >= s.len() {
        None
    } else if p(s[i]) {
        Some(i)
    } else {
        first_from(s, p, i + 1)
    }
}

/// The first position whose element meets `p`.
pub open spec fn first<T>(s: Seq<T>, p: spec_fn(T) -> bool) -> Option<int> {
    first_from(s, p, 0)
}

/// Keeping the elements of a longer prefix adds the next one when it meets
/// the test.
pub proof fn lemma_keep_step<T>(s: Seq<T>, p: spec_fn(T) -> bool, i: int)
    requires
        0 <= i < s.len(),
    ensures
        keep(s.take(i + 1), p) == if p(s[i]) {
            keep(s.take(i), p).push(s[i])
        } else {
            keep(s.take(i), p)
        },
{
    assert(s.take(i + 1).drop_last() =~= s.take(i));
}

/// What `first_from` says about the positions it passes and stops at.
pub proof fn lemma_first_from<T>(s: Seq<T>, p: spec_fn(T) -> bool, i: int)
    requires
        0 <= i <= s.len(),
    ensures
        match first_from(s, p, i) {
            Some(k) => i <= k < s.len() && p(s[k]) && forall|j: int| i <= j < k ==> !p(s[j]),
            None => forall|j: int| i <= j < s.len() ==> !p(s[j]),
        },
    decreases s.len() - i,
{
    if i < s.len() && !p(s[i]) {
        lemma_first_from(s, p, i + 1);
    }
}

/// The first match is the one position that meets the test after none did.
pub proof fn lemma_first_is<T>(s: Seq<T>, p: spec_fn(T) -> bool, k: int)
    requires
        0 <= k < s.len(),
        p(s[k]),
        forall|j: int| 0 <= j < k ==> !p(s[j]),
    ensures
        first(s, p) == Some(k),
{
    lemma_first_from(s, p, 0);
}

/// No position meets the test, so there is no first match.
pub proof fn lemma_first_none<T>(s: Seq<T>, p: spec_fn(T) -> bool)
    requires
        forall|j: int| 0 <= j < s.len() ==> !p(s[j]),
    ensures
        first(s, p) is None,
{
    lemma_first_from(s, p, 0);
}

/// Keeping from a sequence with `x` in front keeps `x` in front when it
/// meets the test.
pub proof fn lemma_keep_prepend<T>(x: T, s: Seq<T>, p: spec_fn(T) -> bool)
    ensures
        keep(seq![x] + s, p) == if p(x) {
            seq![x] + keep(s, p)
        } else {
            keep(s, p)
        },
    decreases s.len(),
{
    let xs = seq![x] + s;
    if s.len() == 0 {
        assert(xs =~= seq![x]);
        assert(xs.drop_last() =~= Seq::<T>::empty());
        assert(keep(xs.drop_last(), p) == Seq::<T>::empty());
        assert(keep(s, p) == Seq::<T>::empty());
        assert(xs.last() == x);
        if p(x) {
            assert(Seq::<T>::empty().push(x) =~= seq![x] + keep(s, p));
        }
    } else {
        let d = s.drop_last();
        lemma_keep_prepend(x, d, p);
        assert(xs.drop_last() =~= seq![x] + d);
        assert(xs.last() == s.last());
        if p(x) {
            assert((seq![x] + keep(d, p)).push(s.last()) =~= seq![x] + keep(d, p).push(s.last()));
        }
    }
}

/// Keeping the elements that meet a test keeps, counted, the elements of
/// the whole that meet it.
pub proof fn lemma_keep_filter<T>(s: Seq<T>, p: spec_fn(T) -> bool)
    ensures
        keep(s, p).to_multiset() == s.to_multiset().filter(p),
    decreases s.len(),
{
    broadcast use vstd::seq_lib::group_to_multiset_ensures;
    broadcast use vstd::multiset::group_multiset_axioms;

    if s.len() == 0 {
        assert(keep(s, p).to_multiset() =~= s.to_multiset().filter(p));
    } else {
        let d = s.drop_last();
        lemma_keep_filter(d, p);
        assert(d.push(s.last()) =~= s);
        assert(keep(s, p).to_multiset() =~= s.to_multiset().filter(p));
    }
}

/// Keeping elements keeps their order: two kept elements come from
/// positions of `s` in the same order.
pub proof fn lemma_keep_order<T>(s: Seq<T>, p: spec_fn(T) -> bool, i: int, j: int)
    requires
        0 <= i < j < keep(s, p).len(),
    ensures
        exists|a: int, b: int| 0 <= a < b < s.len() && s[a] == keep(s, p)[i] && s[b] == keep(s, p)[j],
    decreases s.len(),
{
    let d = s.drop_last();
    let kd = keep(d, p);
    if j < kd.len() {
        lemma_keep_order(d, p, i, j);
        let (a, b) = choose|a: int, b: int| 0 <= a < b < d.len() && d[a] == kd[i] && d[b] == kd[j];
        assert(s[a] == d[a] && s[b] == d[b]);
        assert(keep(s, p)[i] == kd[i] && keep(s, p)[j] == kd[j]);
    } else {
        assert(p(s.last()) && keep(s, p) == kd.push(s.last()));
        assert(keep(s, p)[j] == s.last());
        assert(keep(s, p)[i] == kd[i]);
        lemma_keep_element(d, p, i);
        let a = choose|a: int| 0 <= a < d.len() && d[a] == kd[i];
        assert(s[a] == d[a]);
        assert(s[s.len() - 1] == s.last());
    }
}

/// Nothing is kept by a test nothing meets.
pub proof fn lemma_keep_none<T>(s: Seq<T>, p: spec_fn(T) -> bool)
    requires
        forall|x: T| !#[trigger] p(x),
    ensures
        keep(s, p) == Seq::<T>::empty(),
    decreases s.len(),
{
    if s.len() > 0 {
        lemma_keep_none(s.drop_last(), p);
        assert(!p(s.last()));
    }
}

/// Everything is kept by a test everything meets.
pub proof fn lemma_keep_all<T>(s: Seq<T>, p: spec_fn(T) -> bool)
    requires
        forall|x: T| #[trigger] p(x),
    ensures
        keep(s, p) == s,
    decreases s.len(),
{
    if s.len() > 0 {
        lemma_keep_all(s.drop_last(), p);
        assert(p(s.last()));
        assert(s.drop_last().push(s.last()) =~= s);
    }
}

/// What two exclusive tests keep makes up, together, what the test of
/// either one keeps.
pub proof fn lemma_keep_split<T>(s: Seq<T>, p: spec_fn(T) -> bool, q: spec_fn(T) -> bool, r: spec_fn(T) -> bool)
    requires
        forall|x: T| #[trigger] r(x) == (p(x) || q(x)) && !(p(x) && q(x)),
    ensures
        keep(s, p).to_multiset().add(keep(s, q).to_multiset()) == keep(s, r).to_multiset(),
    decreases s.len(),
{
    broadcast use vstd::seq_lib::group_to_multiset_ensures;
    broadcast use vstd::multiset::group_multiset_axioms;

    if s.len() == 0 {
        assert(keep(s, p).to_multiset().add(keep(s, q).to_multiset()) =~= keep(s, r).to_multiset());
    } else {
        let d = s.drop_last();
        let x = s.last();
        lemma_keep_split(d, p, q, r);
        assert(r(x) == (p(x) || q(x)) && !(p(x) && q(x)));
        assert(keep(s, p).to_multiset().add(keep(s, q).to_multiset()) =~= keep(s, r).to_multiset());
    }
}

/// Every kept element meets the test and comes from `s`; every element of
/// `s` that meets the test is kept.
pub proof fn lemma_keep_contains<T>(s: Seq<T>, p: spec_fn(T) -> bool, x: T)
    ensures
        keep(s, p).contains(x) <==> (s.contains(x) && p(x)),
    decreases s.len(),
{
    if s.len() > 0 {
        let r = keep(s.drop_last(), p);
        lemma_keep_contains(s.drop_last(), p, x);
        if s.drop_last().contains(x) {
            let j = choose|j: int| 0 <= j < s.drop_last().len() && s.drop_last()[j] == x;
            assert(s[j] == x);
        }
        if s.contains(x) {
            let j = choose|j: int| 0 <= j < s.len() && s[j] == x;
            if j < s.len() - 1 {
                assert(s.drop_last()[j] == x);
            }
        }
        if p(s.last()) {
            if r.contains(x) {
                let j = choose|j: int| 0 <= j < r.len() && r[j] == x;
                assert(r.push(s.last())[j] == x);
            }
            if r.push(s.last()).contains(x) {
                let j = choose|j: int| 0 <= j < r.push(s.last()).len() && r.push(s.last())[j] == x;
                if j < r.len() {
                    assert(r[j] == x);
                }
            }
            assert(r.push(s.last())[r.len() as int] == s.last());
        }
    }
}

/// Keeping elements of a sequence without repeats gives one without repeats.
pub proof fn lemma_keep_no_duplicates<T>(s: Seq<T>, p: spec_fn(T) -> bool)
    requires
        s.no_duplicates(),
    ensures
        keep(s, p).no_duplicates(),
    decreases s.len(),
{
    if s.len() > 0 {
        let d = s.drop_last();
        assert(d.no_duplicates());
        lemma_keep_no_duplicates(d, p);
        let r = keep(d, p);
        if p(s.last()) {
            lemma_keep_contains(d, p, s.last());
            if d.contains(s.last()) {
                let j = choose|j: int| 0 <= j < d.len() && d[j] == s.last();
                assert(s[j] == s[s.len() - 1]);
            }
            let q = r.push(s.last());
            assert forall|i: int, j: int| 0 <= i < q.len() && 0 <= j < q.len() && i != j implies q[i] != q[j] by {
                if i < r.len() && j < r.len() {
                } else if i < r.len() {
                    assert(r.contains(r[i]));
                } else if j < r.len() {
                    assert(r.contains(r[j]));
                }
            }
        }
    }
}

/// The length of what is kept is at most the length of `s`.
pub proof fn lemma_keep_len<T>(s: Seq<T>, p: spec_fn(T) -> bool)
    ensures
        keep(s, p).len() <= s.len(),
    decreases s.len(),
{
    if s.len() > 0 {
        lemma_keep_len(s.drop_last(), p);
    }
}

/// No two elements of `s` share a key.
pub open spec fn distinct_by<T, K>(s: Seq<T>, key: spec_fn(T) -> K) -> bool {
    forall|i: int, j: int| 0 <= i < s.len() && 0 <= j < s.len() && i != j ==> key(s[i]) != key(s[j])
}

/// Keeping elements of a sequence whose keys differ gives one whose keys
/// differ.
pub proof fn lemma_keep_distinct_by<T, K>(s: Seq<T>, p: spec_fn(T) -> bool, key: spec_fn(T) -> K)
    requires
        distinct_by(s, key),
    ensures
        distinct_by(keep(s, p), key),
    decreases s.len(),
{
    if s.len() > 0 {
        let d = s.drop_last();
        assert(distinct_by(d, key)) by {
            assert forall|i: int, j: int| 0 <= i < d.len() && 0 <= j < d.len() && i != j implies key(d[i]) != key(d[j]) by {
                assert(d[i] == s[i] && d[j] == s[j]);
            }
        }
        lemma_keep_distinct_by(d, p, key);
        let r = keep(d, p);
        if p(s.last()) {
            let q = r.push(s.last());
            assert forall|i: int, j: int| 0 <= i < q.len() && 0 <= j < q.len() && i != j implies key(q[i]) != key(q[j]) by {
                if i < r.len() && j < r.len() {
                } else if i < r.len() {
                    lemma_keep_contains(d, p, r[i]);
                    assert(r.contains(r[i]));
                    let k = choose|k: int| 0 <= k < d.len() && d[k] == r[i];
                    assert(s[k] == r[i]);
                } else if j < r.len() {
                    lemma_keep_contains(d, p, r[j]);
                    assert(r.contains(r[j]));
                    let k = choose|k: int| 0 <= k < d.len() && d[k] == r[j];
                    assert(s[k] == r[j]);
                }
            }
        }
    }
}

/// Every element kept is an element of `s` that meets the test.
pub proof fn lemma_keep_element<T>(s: Seq<T>, p: spec_fn(T) -> bool, i: int)
    requires
        0 <= i < keep(s, p).len(),
    ensures
        s.contains(keep(s, p)[i]),
        p(keep(s, p)[i]),
{
    lemma_keep_contains(s, p, keep(s, p)[i]);
    assert(keep(s, p).contains(keep(s, p)[i]));
}

/// The elements of `s` whose flag is set, in their order.
pub open spec fn kept_by<T>(s: Seq<T>, flags: Seq<bool>) -> Seq<T>
    decreases s.len(),
{
    if s.len() == 0 || flags.len() != s.len() {
        Seq::empty()
    } else {
        let r = kept_by(s.drop_last(), flags.drop_last());
        if flags.last() {
            r.push(s.last())
        } else {
            r
        }
    }
}

/// Flags that record a test keep what the test keeps.
pub proof fn lemma_kept_by_keep<T>(s: Seq<T>, flags: Seq<bool>, p: spec_fn(T) -> bool)
    requires
        flags.len() == s.len(),
        forall|i: int| 0 <= i < s.len() ==> flags[i] == p(s[i]),
    ensures
        kept_by(s, flags) == keep(s, p),
    decreases s.len(),
{
    if s.len() > 0 {
        lemma_kept_by_keep(s.drop_last(), flags.drop_last(), p);
    }
}

/// Keeping the flagged elements of a longer prefix adds the next one when
/// its flag is set.
pub proof fn lemma_kept_by_step<T>(s: Seq<T>, flags: Seq<bool>, i: int)
    requires
        0 <= i < s.len(),
        flags.len() == s.len(),
    ensures
        kept_by(s.take(i + 1), flags.take(i + 1)) == if flags[i] {
            kept_by(s.take(i), flags.take(i)).push(s[i])
        } else {
            kept_by(s.take(i), flags.take(i))
        },
{
    assert(s.take(i + 1).drop_last() =~= s.take(i));
    assert(flags.take(i + 1).drop_last() =~= flags.take(i));
}

/// Moves the elements of `v` whose flag is set out of it, in order.
pub fn take_flagged<T>(v: Vec<T>, flags: &Vec<bool>) -> (r: Vec<T>)
    requires
        flags@.len() == v@.len(),
    ensures
        r@ == kept_by(v@, flags@),
{
    let ghost orig = v@;
    let n = v.len();
    let mut rest = v;
    let mut out: Vec<T> = Vec::new();
    let mut i: usize = 0;
    while rest.len() > 0
        invariant
            flags@.len() == orig.len(),
            n == orig.len(),
            i <= orig.len(),
            rest@ == orig.skip(i as int),
            out@ == kept_by(orig.take(i as int), flags@.take(i as int)),
        decreases rest@.len(),
    {
        let x = rest.remove(0);
        proof {
            lemma_kept_by_step(orig, flags@, i as int);
            assert(orig.skip(i as int).remove(0) =~= orig.skip(i as int + 1));
        }
        if flags[i] {
            out.push(x);
        }
        i = i + 1;
    }
    assert(orig.take(orig.len() as int) =~= orig);
    assert(flags@.take(flags@.len() as int) =~= flags@);
    out
}

} // verus!
