//! Strings: prefixes, lexicographic order, sorting and removal of duplicates.
use vstd::prelude::*;

verus! {

/// The characters of each string of a list.
pub open spec fn strs(v: Seq<String>) -> Seq<Seq<char>> {
    v.map_values(|s: String| s@)
}

/// The view of an optional string.
pub open spec fn opt_str(s: Option<String>) -> Option<Seq<char>> {
    match s {
        Some(s) => Some(s@),
        None => None,
    }
}

/// The position of the first character that `stop` accepts, the length where there is none.
pub open spec fn first_index(s: Seq<char>, stop: spec_fn(char) -> bool) -> int
    decreases s.len(),
{
    if s.len() == 0 || stop(s[0]) {
        0
    } else {
        1 + first_index(s.drop_first(), stop)
    }
}

/// The characters that start a version constraint.
pub open spec fn ver_char(c: char) -> bool {
    c == '<' || c == '=' || c == '>'
}

/// A dependency string up to its version constraint.
pub open spec fn no_ver(s: Seq<char>) -> Seq<char> {
    s.take(first_index(s, |c: char| ver_char(c)))
}

/// A string up to its first `-`.
pub open spec fn before_dash(s: Seq<char>) -> Seq<char> {
    s.take(first_index(s, |c: char| c == '-'))
}

/// The order of strings: lexicographic by code point.
pub open spec fn str_lt(a: Seq<char>, b: Seq<char>) -> bool
    decreases a.len(),
{
    if b.len() == 0 {
        false
    } else if a.len() == 0 {
        true
    } else if a[0] == b[0] {
        str_lt(a.drop_first(), b.drop_first())
    } else {
        a[0] < b[0]
    }
}

/// `s` with `x` put before the first element that is greater.
pub open spec fn insert_sorted(s: Seq<Seq<char>>, x: Seq<char>) -> Seq<Seq<char>>
    decreases s.len(),
{
    if s.len() == 0 {
        seq![x]
    } else if str_lt(x, s[0]) {
        seq![x] + s
    } else {
        seq![s[0]] + insert_sorted(s.drop_first(), x)
    }
}

/// `s` in increasing order.
pub open spec fn sorted(s: Seq<Seq<char>>) -> Seq<Seq<char>>
    decreases s.len(),
{
    if s.len() == 0 {
        s
    } else {
        insert_sorted(sorted(s.drop_last()), s.last())
    }
}

/// No element is greater than a later one.
pub open spec fn is_sorted(s: Seq<Seq<char>>) -> bool {
    forall|i: int, j: int| 0 <= i < j < s.len() ==> !str_lt(#[trigger] s[j], #[trigger] s[i])
}

/// Each element is less than every later one.
pub open spec fn strictly_sorted(s: Seq<Seq<char>>) -> bool {
    forall|i: int, j: int| 0 <= i < j < s.len() ==> str_lt(#[trigger] s[i], #[trigger] s[j])
}

/// `s` without the elements that equal the one before them.
pub open spec fn dedup(s: Seq<Seq<char>>) -> Seq<Seq<char>>
    decreases s.len(),
{
    if s.len() <= 1 {
        s
    } else if s.last() == s[s.len() - 2] {
        dedup(s.drop_last())
    } else {
        dedup(s.drop_last()).push(s.last())
    }
}

pub proof fn lemma_first_index(s: Seq<char>, stop: spec_fn(char) -> bool, i: int)
    requires
        0 <= i <= s.len(),
        forall|j: int| 0 <= j < i ==> !stop(#[trigger] s[j]),
        i == s.len() || stop(s[i]),
    ensures
        first_index(s, stop) == i,
    decreases s.len(),
{
    if i > 0 {
        assert(!stop(s[0]));
        let t = s.drop_first();
        assert forall|j: int| 0 <= j < i - 1 implies !stop(#[trigger] t[j]) by {
            assert(t[j] == s[j + 1]);
        }
        lemma_first_index(t, stop, i - 1);
    }
}

/// Up to the place the strings agree, and there the first ends or has the lesser character.
pub open spec fn precedes_at(a: Seq<char>, b: Seq<char>, k: int) -> bool {
    &&& 0 <= k <= a.len()
    &&& k < b.len()
    &&& forall|i: int| 0 <= i < k ==> #[trigger] a[i] == b[i]
    &&& k < a.len() ==> a[k] < b[k]
}

/// A string is less than another where it is a shorter beginning of it, or has the lesser character
/// where the two first differ.
pub proof fn law_str_lt(a: Seq<char>, b: Seq<char>)
    ensures
        str_lt(a, b) <==> exists|k: int| precedes_at(a, b, k),
    decreases a.len(),
{
    if a.len() > 0 && b.len() > 0 {
        let x = a.drop_first();
        let y = b.drop_first();
        law_str_lt(x, y);
        if str_lt(a, b) {
            if a[0] == b[0] {
                let k = choose|k: int| precedes_at(x, y, k);
                assert forall|i: int| 0 <= i < k + 1 implies #[trigger] a[i] == b[i] by {
                    if i > 0 {
                        assert(x[i - 1] == y[i - 1]);
                    }
                }
                assert(precedes_at(a, b, k + 1));
            } else {
                assert(precedes_at(a, b, 0));
            }
        }
        if exists|k: int| precedes_at(a, b, k) {
            let k = choose|k: int| precedes_at(a, b, k);
            if k > 0 {
                assert(a[0] == b[0]);
                assert forall|i: int| 0 <= i < k - 1 implies #[trigger] x[i] == y[i] by {
                    assert(a[i + 1] == b[i + 1]);
                }
                assert(precedes_at(x, y, k - 1));
            }
        }
    } else if b.len() > 0 {
        assert(precedes_at(a, b, 0));
    }
}

/// Two strings are equal or ordered one way, never both.
pub proof fn lemma_str_lt_total(a: Seq<char>, b: Seq<char>)
    ensures
        a == b ==> !str_lt(a, b),
        a != b ==> str_lt(a, b) != str_lt(b, a),
    decreases a.len(),
{
    if a.len() == 0 || b.len() == 0 {
        if a.len() == 0 && b.len() == 0 {
            assert(a =~= b);
        }
    } else if a[0] == b[0] {
        lemma_str_lt_total(a.drop_first(), b.drop_first());
        if a.drop_first() == b.drop_first() {
            assert(a =~= seq![a[0]] + a.drop_first());
            assert(b =~= seq![b[0]] + b.drop_first());
        }
    }
}

/// The order of strings is transitive.
pub proof fn lemma_str_lt_trans(a: Seq<char>, b: Seq<char>, c: Seq<char>)
    requires
        str_lt(a, b),
        str_lt(b, c),
    ensures
        str_lt(a, c),
    decreases a.len(),
{
    if a.len() > 0 && b.len() > 0 && c.len() > 0 && a[0] == b[0] && b[0] == c[0] {
        lemma_str_lt_trans(a.drop_first(), b.drop_first(), c.drop_first());
    }
}

proof fn lemma_insert_sorted(s: Seq<Seq<char>>, x: Seq<char>)
    requires
        is_sorted(s),
    ensures
        is_sorted(insert_sorted(s, x)),
        insert_sorted(s, x).to_multiset() =~= s.to_multiset().insert(x),
        insert_sorted(s, x).len() == s.len() + 1,
    decreases s.len(),
{
    broadcast use vstd::seq_lib::group_to_multiset_ensures;
    let r = insert_sorted(s, x);
    if s.len() == 0 {
        assert(r =~= s.push(x));
    } else if str_lt(x, s[0]) {
        assert(r =~= s.insert(0, x));
        assert forall|i: int, j: int| 0 <= i < j < r.len() implies !str_lt(
            #[trigger] r[j],
            #[trigger] r[i],
        ) by {
            if i == 0 {
                lemma_str_lt_total(x, s[0]);
                lemma_str_lt_total(s[j - 1], x);
                if str_lt(s[j - 1], x) {
                    lemma_str_lt_trans(s[j - 1], x, s[0]);
                    assert(!str_lt(s[j - 1], s[0]) || j == 1);
                    lemma_str_lt_total(s[0], s[0]);
                }
            }
        }
    } else {
        let t = s.drop_first();
        assert(is_sorted(t)) by {
            assert forall|i: int, j: int| 0 <= i < j < t.len() implies !str_lt(
                #[trigger] t[j],
                #[trigger] t[i],
            ) by {
                assert(t[j] == s[j + 1] && t[i] == s[i + 1]);
            }
        }
        lemma_insert_sorted(t, x);
        let u = insert_sorted(t, x);
        assert(s =~= t.insert(0, s[0]));
        assert(r =~= u.insert(0, s[0]));
        assert forall|i: int, j: int| 0 <= i < j < r.len() implies !str_lt(
            #[trigger] r[j],
            #[trigger] r[i],
        ) by {
            if i == 0 {
                assert(u.contains(r[j])) by {
                    assert(r[j] == u[j - 1]);
                }
                assert(u.to_multiset().contains(r[j]));
                if r[j] != x {
                    assert(t.to_multiset().contains(r[j]));
                    assert(t.contains(r[j]));
                    let k = choose|k: int| 0 <= k < t.len() && t[k] == r[j];
                    assert(t[k] == s[k + 1]);
                }
            }
        }
    }
}

/// `sorted` gives the elements it was given, in order.
pub proof fn lemma_sorted(s: Seq<Seq<char>>)
    ensures
        is_sorted(sorted(s)),
        sorted(s).to_multiset() =~= s.to_multiset(),
        sorted(s).len() == s.len(),
    decreases s.len(),
{
    broadcast use vstd::seq_lib::group_to_multiset_ensures;
    if s.len() > 0 {
        lemma_sorted(s.drop_last());
        lemma_insert_sorted(sorted(s.drop_last()), s.last());
        assert(s =~= s.drop_last().push(s.last()));
    }
}

/// Removing the repeats of a sorted list leaves each element once, in order.
pub proof fn lemma_dedup(s: Seq<Seq<char>>)
    requires
        is_sorted(s),
    ensures
        strictly_sorted(dedup(s)),
        forall|x: Seq<char>| #[trigger] dedup(s).contains(x) <==> s.contains(x),
        s.len() > 0 ==> dedup(s).len() > 0 && dedup(s).last() == s.last(),
    decreases s.len(),
{
    if s.len() > 1 {
        let t = s.drop_last();
        assert(is_sorted(t)) by {
            assert forall|i: int, j: int| 0 <= i < j < t.len() implies !str_lt(
                #[trigger] t[j],
                #[trigger] t[i],
            ) by {
                assert(t[j] == s[j] && t[i] == s[i]);
            }
        }
        lemma_dedup(t);
        let d = dedup(t);
        let r = dedup(s);
        assert(s =~= t.push(s.last()));
        assert forall|x: Seq<char>| #[trigger] r.contains(x) <==> s.contains(x) by {
            if s.contains(x) {
                let k = choose|k: int| 0 <= k < s.len() && s[k] == x;
                if k < t.len() {
                    assert(t[k] == x);
                    assert(d.contains(x));
                    let l = choose|l: int| 0 <= l < d.len() && d[l] == x;
                    assert(r[l] == x);
                } else if s.last() == s[s.len() - 2] {
                    assert(t.last() == x);
                    assert(r.last() == x);
                } else {
                    assert(r.last() == x);
                }
            }
            if r.contains(x) {
                let l = choose|l: int| 0 <= l < r.len() && r[l] == x;
                if l < d.len() {
                    assert(d[l] == x);
                    assert(d.contains(x));
                    let k = choose|k: int| 0 <= k < t.len() && t[k] == x;
                    assert(s[k] == x);
                } else {
                    assert(s[s.len() - 1] == x);
                }
            }
        }
        if s.last() != s[s.len() - 2] {
            lemma_str_lt_total(s[s.len() - 2], s.last());
            assert forall|i: int, j: int| 0 <= i < j < r.len() implies str_lt(
                #[trigger] r[i],
                #[trigger] r[j],
            ) by {
                if j == r.len() - 1 {
                    assert(d.last() == t.last());
                    if i < d.len() - 1 {
                        assert(str_lt(d[i], d[d.len() - 1]));
                        lemma_str_lt_trans(d[i], d.last(), s.last());
                    }
                } else {
                    assert(r[i] == d[i] && r[j] == d[j]);
                }
            }
        }
    }
}

/// Is `c` one of the characters that start a version constraint.
pub fn is_ver_char(c: char) -> (r: bool)
    ensures
        r == ver_char(c),
{
    c == '<' || c == '=' || c == '>'
}

/// The characters of a string.
fn chars(s: &str) -> (r: Vec<char>)
    ensures
        r@ == s@,
{
    broadcast use vstd::string::axiom_spec_iter;
    let mut r: Vec<char> = Vec::new();
    for c in it: s.chars()
        invariant
            r@ == it.seq().take(it.index()),
            it.seq() == s@,
    {
        r.push(c);
    }
    r
}

/// A dependency string without its version constraint.
pub fn without_ver(s: &str) -> (r: String)
    ensures
        r@ == no_ver(s@),
{
    let cs = chars(s);
    let mut i: usize = 0;
    while i < cs.len() && !is_ver_char(cs[i])
        invariant
            cs@ == s@,
            i <= cs.len(),
            forall|j: int| 0 <= j < i ==> !ver_char(#[trigger] cs@[j]),
        decreases cs.len() - i,
    {
        i = i + 1;
    }
    proof {
        lemma_first_index(s@, |c: char| ver_char(c), i as int);
    }
    s.substring_char(0, i).to_owned()
}

/// A string up to its first `-`.
pub fn until_dash(s: &str) -> (r: String)
    ensures
        r@ == before_dash(s@),
{
    let cs = chars(s);
    let mut i: usize = 0;
    while i < cs.len() && cs[i] != '-'
        invariant
            cs@ == s@,
            i <= cs.len(),
            forall|j: int| 0 <= j < i ==> #[trigger] cs@[j] != '-',
        decreases cs.len() - i,
    {
        i = i + 1;
    }
    proof {
        lemma_first_index(s@, |c: char| c == '-', i as int);
    }
    s.substring_char(0, i).to_owned()
}

/// Is `a` before `b`.
pub fn str_less(a: &str, b: &str) -> (r: bool)
    ensures
        r == str_lt(a@, b@),
{
    let x = chars(a);
    let y = chars(b);
    let mut i: usize = 0;
    proof {
        assert(x@.skip(0) =~= x@ && y@.skip(0) =~= y@);
    }
    while i < x.len() && i < y.len() && x[i] == y[i]
        invariant
            x@ == a@,
            y@ == b@,
            i <= x.len(),
            i <= y.len(),
            str_lt(a@, b@) == str_lt(x@.skip(i as int), y@.skip(i as int)),
        decreases x.len() - i,
    {
        proof {
            assert(x@.skip(i as int).drop_first() =~= x@.skip(i + 1));
            assert(y@.skip(i as int).drop_first() =~= y@.skip(i + 1));
        }
        i = i + 1;
    }
    if i >= y.len() {
        false
    } else if i >= x.len() {
        true
    } else {
        let c: char = x[i];
        let d: char = y[i];
        proof {
            assert(x@.skip(i as int)[0] == c && y@.skip(i as int)[0] == d);
        }
        c < d
    }
}

/// Puts `x` at its place in a sorted list.
fn insert_name(v: &mut Vec<String>, x: String)
    ensures
        strs(final(v)@) == insert_sorted(strs(old(v)@), x@),
{
    let mut i: usize = 0;
    let ghost all = strs(v@);
    proof {
        assert(all.skip(0) =~= all);
        assert(all.take(0) + insert_sorted(all, x@) =~= insert_sorted(all, x@));
    }
    while i < v.len() && !str_less(x.as_str(), v[i].as_str())
        invariant
            *v == *old(v),
            all == strs(v@),
            i <= v.len(),
            insert_sorted(all, x@) == all.take(i as int) + insert_sorted(all.skip(i as int), x@),
        decreases v.len() - i,
    {
        proof {
            assert(all.skip(i as int)[0] == v@[i as int]@);
            assert(all.skip(i as int).drop_first() =~= all.skip(i + 1));
            assert(all.take(i as int) + seq![all[i as int]] =~= all.take(i + 1));
            assert(insert_sorted(all, x@) =~= all.take(i + 1) + insert_sorted(
                all.skip(i + 1),
                x@,
            ));
        }
        i = i + 1;
    }
    proof {
        if i < v@.len() {
            assert(all.skip(i as int)[0] == v@[i as int]@);
        }
    }
    let ghost xs = x@;
    v.insert(i, x);
    proof {
        assert(strs(v@) =~= all.insert(i as int, xs));
        assert(all.insert(i as int, xs) =~= all.take(i as int) + (seq![xs] + all.skip(i as int)));
        assert(insert_sorted(all.skip(i as int), xs) =~= seq![xs] + all.skip(i as int));
    }
}

/// Sorts a list of strings.
pub fn sort_names(v: Vec<String>) -> (r: Vec<String>)
    ensures
        strs(r@) == sorted(strs(v@)),
{
    let mut r: Vec<String> = Vec::new();
    let mut i: usize = 0;
    let ghost all = strs(v@);
    proof {
        assert(strs(r@) =~= all.take(0));
    }
    while i < v.len()
        invariant
            all == strs(v@),
            i <= v.len(),
            strs(r@) == sorted(all.take(i as int)),
        decreases v.len() - i,
    {
        proof {
            assert(all.take(i + 1).drop_last() =~= all.take(i as int));
            assert(all.take(i + 1).last() == v@[i as int]@);
        }
        insert_name(&mut r, v[i].clone());
        i = i + 1;
    }
    proof {
        assert(all.take(i as int) =~= all);
    }
    r
}

/// Sorts a list of strings and removes repeats.
pub fn sort_dedup(v: Vec<String>) -> (r: Vec<String>)
    ensures
        strs(r@) == dedup(sorted(strs(v@))),
{
    let s = sort_names(v);
    let mut r: Vec<String> = Vec::new();
    let mut i: usize = 0;
    let ghost all = strs(s@);
    proof {
        assert(strs(r@) =~= dedup(all.take(0)));
    }
    while i < s.len()
        invariant
            all == strs(s@),
            i <= s.len(),
            strs(r@) == dedup(all.take(i as int)),
        decreases s.len() - i,
    {
        let ghost before = r@;
        proof {
            assert(all.take(i + 1).drop_last() =~= all.take(i as int));
            assert(all.take(i + 1).last() == s@[i as int]@);
            if i == 0 {
                assert(all.take(1) =~= seq![s@[0]@]);
                assert(before =~= Seq::<String>::empty()) by {
                    assert(strs(before).len() == 0);
                }
            } else {
                assert(all.take(i + 1)[i - 1] == s@[i - 1]@);
            }
        }
        if i == 0 || s[i] != s[i - 1] {
            r.push(s[i].clone());
            proof {
                assert(strs(r@) =~= strs(before).push(s@[i as int]@));
            }
        }
        i = i + 1;
    }
    proof {
        assert(all.take(i as int) =~= all);
    }
    r
}

/// The strings of a list, copied.
pub fn copy_names(v: &Vec<String>) -> (r: Vec<String>)
    ensures
        strs(r@) == strs(v@),
{
    let mut r: Vec<String> = Vec::new();
    let mut i: usize = 0;
    while i < v.len()
        invariant
            i <= v.len(),
            strs(r@) =~= strs(v@).take(i as int),
        decreases v.len() - i,
    {
        let ghost before = r@;
        r.push(v[i].clone());
        proof {
            assert(strs(r@) =~= strs(before).push(v@[i as int]@));
            assert(strs(v@).take(i + 1) =~= strs(v@).take(i as int).push(v@[i as int]@));
        }
        i = i + 1;
    }
    proof {
        assert(strs(v@).take(i as int) =~= strs(v@));
    }
    r
}

} // verus!
