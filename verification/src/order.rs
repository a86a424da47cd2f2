//! Bytewise lexicographic order, and stable sorting by it.

use vstd::prelude::*;

verus! {

/// Bytewise lexicographic order: a proper prefix comes first, and otherwise the
/// first byte that differs decides.
pub open spec fn lex_le(a: Seq<u8>, b: Seq<u8>) -> bool
    decreases a.len(),
{
    if a.len() == 0 {
        true
    } else if b.len() == 0 {
        false
    } else if a[0] != b[0] {
        a[0] < b[0]
    } else {
        lex_le(a.drop_first(), b.drop_first())
    }
}

pub proof fn lex_reflexive(a: Seq<u8>)
    ensures
        lex_le(a, a),
    decreases a.len(),
{
    if a.len() > 0 {
        lex_reflexive(a.drop_first());
    }
}

pub proof fn lex_total(a: Seq<u8>, b: Seq<u8>)
    ensures
        lex_le(a, b) || lex_le(b, a),
    decreases a.len(),
{
    if a.len() > 0 && b.len() > 0 {
        lex_total(a.drop_first(), b.drop_first());
    }
}

pub proof fn lex_transitive(a: Seq<u8>, b: Seq<u8>, c: Seq<u8>)
    requires
        lex_le(a, b),
        lex_le(b, c),
    ensures
        lex_le(a, c),
    decreases a.len(),
{
    if a.len() > 0 && b.len() > 0 && c.len() > 0 && a[0] == b[0] && b[0] == c[0] {
        lex_transitive(a.drop_first(), b.drop_first(), c.drop_first());
    }
}

pub proof fn lex_antisymmetric(a: Seq<u8>, b: Seq<u8>)
    requires
        lex_le(a, b),
        lex_le(b, a),
    ensures
        a == b,
    decreases a.len(),
{
    if a.len() > 0 && b.len() > 0 {
        lex_antisymmetric(a.drop_first(), b.drop_first());
        assert(a =~= seq![a[0]] + a.drop_first());
        assert(b =~= seq![b[0]] + b.drop_first());
    } else {
        assert(a =~= b);
    }
}

/// Whether `a` comes at or before `b` in bytewise lexicographic order.
pub fn lex_not_after(a: &[u8], b: &[u8]) -> (r: bool)
    ensures
        r == lex_le(a@, b@),
{
    let mut i: usize = 0;
    proof {
        assert(a@.skip(0) =~= a@);
        assert(b@.skip(0) =~= b@);
    }
    while i < a.len() && i < b.len()
        invariant
            i <= a@.len(),
            i <= b@.len(),
            lex_le(a@, b@) == lex_le(a@.skip(i as int), b@.skip(i as int)),
        decreases a@.len() - i,
    {
        let ghost x = a@.skip(i as int);
        let ghost y = b@.skip(i as int);
        if a[i] != b[i] {
            assert(x[0] == a@[i as int] && y[0] == b@[i as int]);
            return a[i] < b[i];
        }
        proof {
            assert(x.drop_first() =~= a@.skip(i + 1));
            assert(y.drop_first() =~= b@.skip(i + 1));
        }
        i += 1;
    }
    i == a.len()
}

/// `s` is in order: no entry's key comes after the key of a later entry.
pub open spec fn in_order<T>(s: Seq<(Seq<u8>, T)>) -> bool {
    forall|i: int, j: int| 0 <= i <= j < s.len() ==> lex_le(#[trigger] s[i].0, #[trigger] s[j].0)
}

/// How many leading entries of `s` stand at or before `key`, counted from the end:
/// the place after the last entry that is not after `key`.
pub open spec fn place<T>(s: Seq<(Seq<u8>, T)>, key: Seq<u8>) -> int
    decreases s.len(),
{
    if s.len() == 0 || lex_le(s.last().0, key) {
        s.len() as int
    } else {
        place(s.drop_last(), key)
    }
}

/// `s` with `e` put behind every entry that is not after it.
pub open spec fn placed<T>(s: Seq<(Seq<u8>, T)>, e: (Seq<u8>, T)) -> Seq<(Seq<u8>, T)> {
    s.insert(place(s, e.0), e)
}

/// The entries of `s` in key order; entries with equal keys keep their order.
pub open spec fn stable_sort<T>(s: Seq<(Seq<u8>, T)>) -> Seq<(Seq<u8>, T)>
    decreases s.len(),
{
    if s.len() == 0 {
        s
    } else {
        placed(stable_sort(s.drop_last()), s.last())
    }
}

pub proof fn lemma_place<T>(s: Seq<(Seq<u8>, T)>, key: Seq<u8>)
    ensures
        0 <= place(s, key) <= s.len(),
        place(s, key) > 0 ==> lex_le(s[place(s, key) - 1].0, key),
        forall|i: int| place(s, key) <= i < s.len() ==> !lex_le(#[trigger] s[i].0, key),
    decreases s.len(),
{
    if s.len() > 0 && !lex_le(s.last().0, key) {
        let t = s.drop_last();
        lemma_place(t, key);
        assert forall|i: int| place(s, key) <= i < s.len() implies !lex_le(
            #[trigger] s[i].0,
            key,
        ) by {
            if i < t.len() {
                assert(s[i] == t[i]);
            }
        }
    }
}

proof fn lemma_placed_in_order<T>(s: Seq<(Seq<u8>, T)>, e: (Seq<u8>, T))
    requires
        in_order(s),
    ensures
        in_order(placed(s, e)),
{
    let p = place(s, e.0);
    lemma_place(s, e.0);
    let r = placed(s, e);
    assert forall|i: int, j: int| 0 <= i <= j < r.len() implies lex_le(
        #[trigger] r[i].0,
        #[trigger] r[j].0,
    ) by {
        if i == j {
            lex_reflexive(r[i].0);
        } else if i == p {
            lex_total(s[j - 1].0, e.0);
        } else if j == p {
            assert(lex_le(s[i].0, s[p - 1].0));
            lex_transitive(s[i].0, s[p - 1].0, e.0);
        } else {
            let i0 = if i < p { i } else { i - 1 };
            let j0 = if j < p { j } else { j - 1 };
            assert(lex_le(s[i0].0, s[j0].0));
        }
    }
}

/// Sorting puts the entries in key order.
pub proof fn stable_sort_in_order<T>(s: Seq<(Seq<u8>, T)>)
    ensures
        in_order(stable_sort(s)),
        stable_sort(s).len() == s.len(),
    decreases s.len(),
{
    if s.len() > 0 {
        stable_sort_in_order(s.drop_last());
        lemma_place(stable_sort(s.drop_last()), s.last().0);
        lemma_placed_in_order(stable_sort(s.drop_last()), s.last());
    }
}

/// Sorting keeps every entry, as often as it occurs.
pub proof fn stable_sort_permutes<T>(s: Seq<(Seq<u8>, T)>)
    ensures
        stable_sort(s).to_multiset() == s.to_multiset(),
    decreases s.len(),
{
    broadcast use vstd::seq_lib::group_to_multiset_ensures;

    if s.len() > 0 {
        let t = s.drop_last();
        stable_sort_permutes(t);
        stable_sort_in_order(t);
        lemma_place(stable_sort(t), s.last().0);
        assert(s =~= t.push(s.last()));
        let p = place(stable_sort(t), s.last().0);
        assert(stable_sort(s) == stable_sort(t).insert(p, s.last()));
        vstd::seq_lib::to_multiset_insert(stable_sort(t), p, s.last());
    }
}

/// The test for one key.
pub open spec fn has_key<T>(key: Seq<u8>) -> spec_fn((Seq<u8>, T)) -> bool {
    |e: (Seq<u8>, T)| e.0 == key
}

/// The entries of `s` whose key is `key`, in the order in which they occur.
pub open spec fn with_key<T>(s: Seq<(Seq<u8>, T)>, key: Seq<u8>) -> Seq<(Seq<u8>, T)> {
    s.filter(has_key(key))
}

proof fn lemma_none_with_key<T>(s: Seq<(Seq<u8>, T)>, key: Seq<u8>)
    requires
        forall|i: int| 0 <= i < s.len() ==> (#[trigger] s[i]).0 != key,
    ensures
        with_key(s, key) == Seq::<(Seq<u8>, T)>::empty(),
    decreases s.len(),
{
    reveal(Seq::filter);
    if s.len() > 0 {
        assert(forall|i: int| 0 <= i < s.len() - 1 ==> #[trigger] s.drop_last()[i] == s[i]);
        lemma_none_with_key(s.drop_last(), key);
    }
}

proof fn lemma_placed_with_key<T>(s: Seq<(Seq<u8>, T)>, e: (Seq<u8>, T), key: Seq<u8>)
    ensures
        with_key(placed(s, e), key) == with_key(s.push(e), key),
{
    let p = place(s, e.0);
    let f = has_key::<T>(key);
    lemma_place(s, e.0);
    let lo = s.take(p);
    let hi = s.skip(p);
    assert(s =~= lo + hi);
    assert(placed(s, e) =~= lo + seq![e] + hi);
    assert(s.push(e) =~= lo + hi + seq![e]);
    Seq::filter_distributes_over_add(lo + seq![e], hi, f);
    Seq::filter_distributes_over_add(lo, seq![e], f);
    Seq::filter_distributes_over_add(lo + hi, seq![e], f);
    Seq::filter_distributes_over_add(lo, hi, f);
    if e.0 == key {
        lex_reflexive(key);
        assert forall|i: int| 0 <= i < hi.len() implies (#[trigger] hi[i]).0 != key by {
            assert(!lex_le(s[p + i].0, e.0));
        }
        lemma_none_with_key(hi, key);
        assert(hi.filter(f) =~= Seq::empty());
        assert(with_key(placed(s, e), key) =~= with_key(s.push(e), key));
    } else {
        assert forall|i: int| 0 <= i < seq![e].len() implies (#[trigger] seq![e][i]).0 != key by {}
        lemma_none_with_key(seq![e], key);
        assert(seq![e].filter(f) =~= Seq::empty());
        assert(with_key(placed(s, e), key) =~= with_key(s.push(e), key));
    }
}

/// Sorting is stable: the entries with one key keep their order.
pub proof fn stable_sort_stable<T>(s: Seq<(Seq<u8>, T)>, key: Seq<u8>)
    ensures
        with_key(stable_sort(s), key) == with_key(s, key),
    decreases s.len(),
{
    if s.len() > 0 {
        let t = s.drop_last();
        let f = has_key::<T>(key);
        stable_sort_stable(t, key);
        lemma_placed_with_key(stable_sort(t), s.last(), key);
        assert(s =~= t + seq![s.last()]);
        assert(stable_sort(t).push(s.last()) =~= stable_sort(t) + seq![s.last()]);
        Seq::filter_distributes_over_add(t, seq![s.last()], f);
        Seq::filter_distributes_over_add(stable_sort(t), seq![s.last()], f);
    }
}

/// No two entries of `s` have the same key.
pub open spec fn distinct_keys<T>(s: Seq<(Seq<u8>, T)>) -> bool {
    forall|i: int, j: int|
        0 <= i < s.len() && 0 <= j < s.len() && i != j ==> (#[trigger] s[i]).0 != (
        #[trigger] s[j]).0
}

proof fn lemma_in_order_unique<T>(a: Seq<(Seq<u8>, T)>, b: Seq<(Seq<u8>, T)>)
    requires
        in_order(a),
        in_order(b),
        distinct_keys(a),
        a.to_multiset() == b.to_multiset(),
    ensures
        a == b,
    decreases a.len(),
{
    broadcast use vstd::seq_lib::group_to_multiset_ensures;

    assert(a.len() == a.to_multiset().len());
    assert(b.len() == b.to_multiset().len());
    if a.len() == 0 {
        assert(a =~= b);
    } else {
        let n = a.len() - 1;
        let x = a.last();
        let y = b.last();
        assert(a.contains(x) && b.contains(y)) by {
            assert(a[n] == x);
            assert(b[n] == y);
        }
        assert(b.contains(x)) by {
            assert(a.to_multiset().count(x) > 0);
        }
        assert(a.contains(y)) by {
            assert(b.to_multiset().count(y) > 0);
        }
        let i = choose|i: int| 0 <= i < b.len() && b[i] == x;
        let j = choose|j: int| 0 <= j < a.len() && a[j] == y;
        assert(lex_le(b[i].0, b[n].0));
        assert(lex_le(a[j].0, a[n].0));
        lex_antisymmetric(x.0, y.0);
        assert(j == n);
        assert(x == y);
        assert(a =~= a.drop_last().push(x));
        assert(b =~= b.drop_last().push(x));
        assert(a.drop_last().to_multiset() =~= a.to_multiset().remove(x));
        assert(b.drop_last().to_multiset() =~= b.to_multiset().remove(x));
        lemma_in_order_unique(a.drop_last(), b.drop_last());
    }
}

/// Where no two keys are equal, the sorted sequence does not depend on the order in
/// which the entries were given.
pub proof fn stable_sort_order_irrelevant<T>(a: Seq<(Seq<u8>, T)>, b: Seq<(Seq<u8>, T)>)
    requires
        distinct_keys(a),
        a.to_multiset() == b.to_multiset(),
    ensures
        stable_sort(a) == stable_sort(b),
{
    let x = stable_sort(a);
    let y = stable_sort(b);
    stable_sort_in_order(a);
    stable_sort_in_order(b);
    stable_sort_permutes(a);
    stable_sort_permutes(b);
    assert(distinct_keys(x)) by {
        assert forall|i: int, j: int|
            0 <= i < x.len() && 0 <= j < x.len() && i != j implies (#[trigger] x[i]).0 != (
        #[trigger] x[j]).0 by {
            let key = x[i].0;
            if x[j].0 == key {
                stable_sort_stable(a, key);
                lemma_two_with_key(x, i, j);
                lemma_one_with_key(a, key);
            }
        }
    }
    lemma_in_order_unique(x, y);
}

proof fn lemma_two_with_key<T>(s: Seq<(Seq<u8>, T)>, i: int, j: int)
    requires
        0 <= i < s.len(),
        0 <= j < s.len(),
        i != j,
        s[i].0 == s[j].0,
    ensures
        with_key(s, s[i].0).len() >= 2,
    decreases s.len(),
{
    reveal(Seq::filter);
    let n = s.len() - 1;
    let key = s[i].0;
    if i == n {
        lemma_some_with_key(s.drop_last(), j);
    } else if j == n {
        lemma_some_with_key(s.drop_last(), i);
    } else {
        lemma_two_with_key(s.drop_last(), i, j);
    }
}

proof fn lemma_some_with_key<T>(s: Seq<(Seq<u8>, T)>, i: int)
    requires
        0 <= i < s.len(),
    ensures
        with_key(s, s[i].0).len() >= 1,
    decreases s.len(),
{
    reveal(Seq::filter);
    if i < s.len() - 1 {
        lemma_some_with_key(s.drop_last(), i);
    }
}

proof fn lemma_one_with_key<T>(s: Seq<(Seq<u8>, T)>, key: Seq<u8>)
    requires
        distinct_keys(s),
    ensures
        with_key(s, key).len() <= 1,
    decreases s.len(),
{
    reveal(Seq::filter);
    if s.len() > 0 {
        let t = s.drop_last();
        if s.last().0 == key {
            assert forall|i: int| 0 <= i < t.len() implies (#[trigger] t[i]).0 != key by {
                assert(s[i].0 != s[s.len() - 1].0);
            }
            lemma_none_with_key(t, key);
        } else {
            lemma_one_with_key(t, key);
        }
    }
}

/// Sorting leaves a sequence that is in order as it is.
pub proof fn stable_sort_fixed<T>(s: Seq<(Seq<u8>, T)>)
    requires
        in_order(s),
    ensures
        stable_sort(s) == s,
    decreases s.len(),
{
    if s.len() > 0 {
        let t = s.drop_last();
        assert forall|i: int, j: int| 0 <= i <= j < t.len() implies lex_le(
            #[trigger] t[i].0,
            #[trigger] t[j].0,
        ) by {
            assert(lex_le(s[i].0, s[j].0));
        }
        stable_sort_fixed(t);
        if t.len() > 0 {
            assert(lex_le(s[t.len() - 1].0, s[s.len() - 1].0));
        }
        assert(place(t, s.last().0) == t.len());
        assert(placed(t, s.last()) =~= s);
    }
}

/// Two sequences with the same elements, mapped, have the same elements.
pub proof fn lemma_map_same_elements<A, B>(s: Seq<A>, t: Seq<A>, g: spec_fn(A) -> B)
    requires
        s.to_multiset() == t.to_multiset(),
    ensures
        s.map_values(g).to_multiset() == t.map_values(g).to_multiset(),
    decreases s.len(),
{
    broadcast use vstd::seq_lib::group_to_multiset_ensures;

    assert(s.len() == s.to_multiset().len());
    assert(t.len() == t.to_multiset().len());
    if s.len() == 0 {
        assert(s.map_values(g) =~= t.map_values(g));
    } else {
        let x = s.last();
        let s0 = s.drop_last();
        assert(s[s.len() - 1] == x);
        assert(t.contains(x)) by {
            assert(s.to_multiset().count(x) > 0);
        }
        let j = choose|j: int| 0 <= j < t.len() && t[j] == x;
        let t0 = t.remove(j);
        assert(t =~= t0.insert(j, x));
        assert(s =~= s0.push(x));
        assert(s0.to_multiset() =~= s.to_multiset().remove(x));
        assert(t0.to_multiset() =~= t.to_multiset().remove(x)) by {
            vstd::seq_lib::to_multiset_insert(t0, j, x);
        }
        lemma_map_same_elements(s0, t0, g);
        assert(s.map_values(g) =~= s0.map_values(g).push(g(x)));
        assert(t.map_values(g) =~= t0.map_values(g).insert(j, g(x)));
        vstd::seq_lib::to_multiset_insert(t0.map_values(g), j, g(x));
    }
}

/// What holds of every entry holds of every entry of the sorted sequence.
pub proof fn lemma_stable_sort_all<T>(s: Seq<(Seq<u8>, T)>, p: spec_fn((Seq<u8>, T)) -> bool)
    requires
        forall|i: int| 0 <= i < s.len() ==> p(#[trigger] s[i]),
    ensures
        stable_sort(s).len() == s.len(),
        forall|i: int| 0 <= i < s.len() ==> p(#[trigger] stable_sort(s)[i]),
    decreases s.len(),
{
    if s.len() > 0 {
        let t = s.drop_last();
        assert(forall|i: int| 0 <= i < t.len() ==> #[trigger] t[i] == s[i]);
        lemma_stable_sort_all(t, p);
        let x = stable_sort(t);
        let at = place(x, s.last().0);
        lemma_place(x, s.last().0);
        assert forall|i: int| 0 <= i < s.len() implies p(#[trigger] stable_sort(s)[i]) by {
            if i == at {
                assert(stable_sort(s)[i] == s[s.len() - 1]);
            } else {
                let j = if i < at { i } else { i - 1 };
                assert(stable_sort(s)[i] == x[j]);
            }
        }
    }
}

/// Sorting depends on the keys alone: carrying other payloads along gives the same
/// arrangement.
pub proof fn stable_sort_map<T, U>(s: Seq<(Seq<u8>, T)>, f: spec_fn(T) -> U)
    ensures
        stable_sort(s.map_values(|e: (Seq<u8>, T)| (e.0, f(e.1)))) == stable_sort(s).map_values(
            |e: (Seq<u8>, T)| (e.0, f(e.1)),
        ),
    decreases s.len(),
{
    let g = |e: (Seq<u8>, T)| (e.0, f(e.1));
    if s.len() == 0 {
        assert(s.map_values(g) =~= Seq::empty());
        assert(stable_sort(s).map_values(g) =~= Seq::empty());
    } else {
        let t = s.drop_last();
        stable_sort_map(t, f);
        assert(s.map_values(g).drop_last() =~= t.map_values(g));
        let x = stable_sort(t);
        lemma_place_map(x, s.last().0, f);
        lemma_place(x, s.last().0);
        assert(placed(x.map_values(g), g(s.last())) =~= placed(x, s.last()).map_values(g));
    }
}

proof fn lemma_place_map<T, U>(s: Seq<(Seq<u8>, T)>, key: Seq<u8>, f: spec_fn(T) -> U)
    ensures
        place(s.map_values(|e: (Seq<u8>, T)| (e.0, f(e.1))), key) == place(s, key),
    decreases s.len(),
{
    let g = |e: (Seq<u8>, T)| (e.0, f(e.1));
    if s.len() > 0 {
        assert(s.map_values(g).drop_last() =~= s.drop_last().map_values(g));
        assert(s.map_values(g).last() == g(s.last()));
        lemma_place_map(s.drop_last(), key, f);
    }
}

} // verus!
