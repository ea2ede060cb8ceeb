//! Facts about sequences.
use vstd::prelude::*;

verus! {

/// The position of the first element for which `p` holds, the length where it holds for none.
pub open spec fn first_at<T>(s: Seq<T>, p: spec_fn(T) -> bool) -> int
    decreases s.len(),
{
    if s.len() == 0 || p(s[0]) {
        0
    } else {
        1 + first_at(s.drop_first(), p)
    }
}

/// The first element for which `p` holds.
pub open spec fn first<T>(s: Seq<T>, p: spec_fn(T) -> bool) -> Option<T> {
    if first_at(s, p) < s.len() {
        Some(s[first_at(s, p)])
    } else {
        None
    }
}

/// `p` holds for an element.
pub open spec fn any<T>(s: Seq<T>, p: spec_fn(T) -> bool) -> bool {
    exists|i: int| 0 <= i < s.len() && p(#[trigger] s[i])
}

/// The first element for which `p` holds is the one before which it holds for none.
pub proof fn lemma_first_at<T>(s: Seq<T>, p: spec_fn(T) -> bool, i: int)
    requires
        0 <= i <= s.len(),
        forall|j: int| 0 <= j < i ==> !p(#[trigger] s[j]),
        i < s.len() ==> p(s[i]),
    ensures
        first_at(s, p) == i,
    decreases s.len(),
{
    if i > 0 {
        assert(!p(s[0]));
        let t = s.drop_first();
        assert forall|j: int| 0 <= j < i - 1 implies !p(#[trigger] t[j]) by {
            assert(!p(s[j + 1]));
        }
        lemma_first_at(t, p, i - 1);
    }
}

/// `p` holds at the first position and at none before it.
pub proof fn lemma_first<T>(s: Seq<T>, p: spec_fn(T) -> bool)
    ensures
        0 <= first_at(s, p) <= s.len(),
        first_at(s, p) < s.len() ==> p(s[first_at(s, p)]),
        forall|j: int| 0 <= j < first_at(s, p) ==> !p(#[trigger] s[j]),
        any(s, p) == (first_at(s, p) < s.len()),
    decreases s.len(),
{
    if s.len() > 0 && !p(s[0]) {
        let t = s.drop_first();
        lemma_first(t, p);
        let k = first_at(t, p);
        assert forall|j: int| 0 <= j < k + 1 implies !p(#[trigger] s[j]) by {
            if j > 0 {
                assert(!p(t[j - 1]));
            }
        }
        if any(s, p) {
            let i = choose|i: int| 0 <= i < s.len() && p(#[trigger] s[i]);
            assert(p(t[i - 1]));
        }
    } else if s.len() > 0 {
        assert(p(s[0]));
    }
}

/// Filtering one element more.
pub proof fn lemma_filter_take<T>(s: Seq<T>, p: spec_fn(T) -> bool, i: int)
    requires
        0 <= i < s.len(),
    ensures
        s.take(i + 1).filter(p) == (if p(s[i]) {
            s.take(i).filter(p).push(s[i])
        } else {
            s.take(i).filter(p)
        }),
{
    reveal(Seq::filter);
    assert(s.take(i + 1).drop_last() =~= s.take(i));
    assert(s.take(i + 1).last() == s[i]);
}

/// Filtering no element.
pub proof fn lemma_filter_none<T>(s: Seq<T>, p: spec_fn(T) -> bool)
    ensures
        s.take(0).filter(p) == Seq::<T>::empty(),
{
    reveal(Seq::filter);
    assert(s.take(0).filter(p) =~= Seq::<T>::empty());
}

/// Filtering a sequence with an element more.
pub proof fn lemma_filter_push<T>(s: Seq<T>, p: spec_fn(T) -> bool, x: T)
    ensures
        s.push(x).filter(p) == (if p(x) {
            s.filter(p).push(x)
        } else {
            s.filter(p)
        }),
{
    reveal(Seq::filter);
    assert(s.push(x).drop_last() =~= s);
}

/// Nothing is left where `p` holds for no element.
pub proof fn lemma_filter_empty<T>(s: Seq<T>, p: spec_fn(T) -> bool)
    requires
        forall|i: int| 0 <= i < s.len() ==> !p(#[trigger] s[i]),
    ensures
        s.filter(p) == Seq::<T>::empty(),
    decreases s.len(),
{
    reveal(Seq::filter);
    if s.len() > 0 {
        assert forall|i: int| 0 <= i < s.drop_last().len() implies !p(#[trigger] s.drop_last()[i]) by {
            assert(s.drop_last()[i] == s[i]);
        }
        lemma_filter_empty(s.drop_last(), p);
        assert(!p(s[s.len() - 1]));
    }
    assert(s.filter(p) =~= Seq::<T>::empty());
}

/// What is left is in the sequence, and `p` holds for it; what `p` holds for is left.
pub proof fn lemma_filter_contains<T>(s: Seq<T>, p: spec_fn(T) -> bool, x: T)
    ensures
        s.filter(p).contains(x) <==> s.contains(x) && p(x),
    decreases s.len(),
{
    reveal(Seq::filter);
    if s.len() > 0 {
        let t = s.drop_last();
        lemma_filter_contains(t, p, x);
        assert(s =~= t.push(s.last()));
        if t.contains(x) {
            let i = choose|i: int| 0 <= i < t.len() && t[i] == x;
            assert(s[i] == x);
        }
        let f = t.filter(p);
        if f.contains(x) {
            let i = choose|i: int| 0 <= i < f.len() && f[i] == x;
            assert(s.filter(p)[i] == x);
        }
        if p(s.last()) {
            assert(s.filter(p) == f.push(s.last()));
            assert(s.filter(p)[f.len() as int] == s.last());
        }
        if s.filter(p).contains(x) {
            let i = choose|i: int| 0 <= i < s.filter(p).len() && s.filter(p)[i] == x;
            if i < f.len() {
                assert(f[i] == x);
            }
        }
        if s.contains(x) && x != s.last() {
            let i = choose|i: int| 0 <= i < s.len() && s[i] == x;
            assert(t[i] == x);
        }
        assert(s.contains(s.last())) by {
            assert(s[s.len() - 1] == s.last());
        }
    }
}

/// Filtering and mapping one element more.
pub proof fn lemma_filter_map_take<T, U>(
    s: Seq<T>,
    p: spec_fn(T) -> bool,
    f: spec_fn(T) -> U,
    i: int,
)
    requires
        0 <= i < s.len(),
    ensures
        s.take(i + 1).filter(p).map_values(f) == (if p(s[i]) {
            s.take(i).filter(p).map_values(f).push(f(s[i]))
        } else {
            s.take(i).filter(p).map_values(f)
        }),
{
    lemma_filter_take(s, p, i);
    if p(s[i]) {
        let t = s.take(i).filter(p);
        assert(t.push(s[i]).map_values(f) =~= t.map_values(f).push(f(s[i])));
    }
}

/// What `f` gives for each element, one after the other.
pub open spec fn flat<T, U>(s: Seq<T>, f: spec_fn(T) -> Seq<U>) -> Seq<U>
    decreases s.len(),
{
    if s.len() == 0 {
        Seq::empty()
    } else {
        f(s[0]) + flat(s.drop_first(), f)
    }
}

/// One element more.
pub proof fn lemma_flat_push<T, U>(s: Seq<T>, f: spec_fn(T) -> Seq<U>, x: T)
    ensures
        flat(s.push(x), f) == flat(s, f) + f(x),
    decreases s.len(),
{
    let t = s.push(x);
    assert(flat(t, f) == f(t[0]) + flat(t.drop_first(), f));
    if s.len() == 0 {
        assert(t.drop_first() =~= Seq::<T>::empty());
        assert(flat(t.drop_first(), f) =~= Seq::<U>::empty());
        assert(flat(t, f) =~= flat(s, f) + f(x));
    } else {
        assert(t.drop_first() =~= s.drop_first().push(x));
        lemma_flat_push(s.drop_first(), f, x);
        assert(flat(t, f) =~= flat(s, f) + f(x));
    }
}

/// What `f` gives for an element is there.
pub proof fn lemma_flat<T, U>(s: Seq<T>, f: spec_fn(T) -> Seq<U>, i: int, x: U)
    requires
        0 <= i < s.len(),
        f(s[i]).contains(x),
    ensures
        flat(s, f).contains(x),
    decreases s.len(),
{
    let head = f(s[0]);
    let tail = flat(s.drop_first(), f);
    if i == 0 {
        let k = choose|k: int| 0 <= k < head.len() && head[k] == x;
        assert((head + tail)[k] == x);
    } else {
        lemma_flat(s.drop_first(), f, i - 1, x);
        let k = choose|k: int| 0 <= k < tail.len() && tail[k] == x;
        assert((head + tail)[head.len() + k] == x);
    }
}

/// What is there is given by `f` for an element.
pub proof fn lemma_flat_from<T, U>(s: Seq<T>, f: spec_fn(T) -> Seq<U>, x: U) -> (i: int)
    requires
        flat(s, f).contains(x),
    ensures
        0 <= i < s.len(),
        f(s[i]).contains(x),
    decreases s.len(),
{
    let head = f(s[0]);
    let tail = flat(s.drop_first(), f);
    let k = choose|k: int| 0 <= k < flat(s, f).len() && flat(s, f)[k] == x;
    if k < head.len() {
        assert(head[k] == x);
        0
    } else {
        assert(tail[k - head.len()] == x);
        1 + lemma_flat_from(s.drop_first(), f, x)
    }
}

/// How many elements are not in `done`.
pub open spec fn left(s: Seq<Seq<char>>, done: Set<Seq<char>>) -> nat
    decreases s.len(),
{
    if s.len() == 0 {
        0
    } else {
        left(s.drop_last(), done) + (if done.contains(s.last()) {
            0nat
        } else {
            1nat
        })
    }
}

/// No more are left than there are.
pub proof fn lemma_left_len(s: Seq<Seq<char>>, done: Set<Seq<char>>)
    ensures
        left(s, done) <= s.len(),
    decreases s.len(),
{
    if s.len() > 0 {
        lemma_left_len(s.drop_last(), done);
    }
}

/// The more is done, the fewer are left.
pub proof fn lemma_left_mono(s: Seq<Seq<char>>, done: Set<Seq<char>>, more: Set<Seq<char>>)
    requires
        done.subset_of(more),
    ensures
        left(s, more) <= left(s, done),
    decreases s.len(),
{
    if s.len() > 0 {
        lemma_left_mono(s.drop_last(), done, more);
    }
}

/// Fewer are left once one of them is done.
pub proof fn lemma_left_insert(s: Seq<Seq<char>>, done: Set<Seq<char>>, x: Seq<char>)
    requires
        s.contains(x),
        !done.contains(x),
    ensures
        left(s, done.insert(x)) < left(s, done),
    decreases s.len(),
{
    let t = s.drop_last();
    lemma_left_mono(t, done, done.insert(x));
    if s.last() != x {
        let i = choose|i: int| 0 <= i < s.len() && s[i] == x;
        assert(t[i] == x);
        lemma_left_insert(t, done, x);
    }
}

} // verus!
