//! Sequences of `(key, value)` entries with distinct string keys, in order:
//! the shape of a JSON object and of an insertion-ordered map.

use vstd::prelude::*;

verus! {

/// The keys of `entries`, in order.
pub open spec fn keys_of<V>(entries: Seq<(Seq<char>, V)>) -> Seq<Seq<char>> {
    entries.map_values(|e: (Seq<char>, V)| e.0)
}

/// The index of the first entry whose key is `k`, or -1 when there is none.
pub open spec fn key_index<V>(entries: Seq<(Seq<char>, V)>, k: Seq<char>) -> int
    decreases entries.len(),
{
    if entries.len() == 0 {
        -1
    } else if entries[0].0 == k {
        0
    } else {
        let r = key_index(entries.drop_first(), k);
        if r < 0 {
            -1
        } else {
            r + 1
        }
    }
}

/// The value stored under `k`, if any.
pub open spec fn lookup<V>(entries: Seq<(Seq<char>, V)>, k: Seq<char>) -> Option<V> {
    let i = key_index(entries, k);
    if i >= 0 {
        Some(entries[i].1)
    } else {
        None
    }
}

/// Inserting `(k, v)`: an entry with key `k` keeps its place and gets the new
/// value; otherwise the pair is appended.
pub open spec fn insert_entry<V>(entries: Seq<(Seq<char>, V)>, k: Seq<char>, v: V) -> Seq<
    (Seq<char>, V),
> {
    let i = key_index(entries, k);
    if i >= 0 {
        entries.update(i, (k, v))
    } else {
        entries.push((k, v))
    }
}

/// `key_index` finds exactly the first occurrence of a key.
pub proof fn lemma_key_index<V>(entries: Seq<(Seq<char>, V)>, k: Seq<char>)
    ensures
        -1 <= key_index(entries, k) < entries.len(),
        key_index(entries, k) >= 0 ==> entries[key_index(entries, k)].0 == k,
        forall|j: int|
            0 <= j < entries.len() && (key_index(entries, k) < 0 || j < key_index(entries, k))
                ==> entries[j].0 != k,
    decreases entries.len(),
{
    if entries.len() > 0 {
        lemma_key_index(entries.drop_first(), k);
        assert forall|j: int|
            0 <= j < entries.len() && (key_index(entries, k) < 0 || j < key_index(
                entries,
                k,
            )) implies entries[j].0 != k by {
            if j > 0 {
                assert(entries[j] == entries.drop_first()[j - 1]);
            }
        }
    }
}

/// Inserting keeps the keys distinct.
pub proof fn lemma_insert_distinct<V>(entries: Seq<(Seq<char>, V)>, k: Seq<char>, v: V)
    requires
        keys_of(entries).no_duplicates(),
    ensures
        keys_of(insert_entry(entries, k, v)).no_duplicates(),
        keys_of(insert_entry(entries, k, v)).to_set() == keys_of(entries).to_set().insert(k),
{
    lemma_key_index(entries, k);
    let r = insert_entry(entries, k, v);
    let i = key_index(entries, k);
    if i >= 0 {
        assert(keys_of(r) =~= keys_of(entries));
        assert(keys_of(entries)[i] == k);
        assert(keys_of(r).to_set() =~= keys_of(entries).to_set().insert(k));
    } else {
        assert(keys_of(r) =~= keys_of(entries).push(k));
        assert(!keys_of(entries).contains(k));
        assert forall|x: Seq<char>| keys_of(r).contains(x) <==> (keys_of(entries).contains(x) || x
            == k) by {
            if keys_of(entries).contains(x) {
                let j = choose|j: int| 0 <= j < keys_of(entries).len() && keys_of(entries)[j] == x;
                assert(keys_of(r)[j] == x);
            }
            if x == k {
                assert(keys_of(r)[keys_of(entries).len() as int] == x);
            }
        }
        assert(keys_of(r).to_set() =~= keys_of(entries).to_set().insert(k));
    }
}

/// The index of the first occurrence of `x` in `s`, or -1 when there is none.
pub open spec fn first_index<A>(s: Seq<A>, x: A) -> int
    decreases s.len(),
{
    if s.len() == 0 {
        -1
    } else if s[0] == x {
        0
    } else {
        let r = first_index(s.drop_first(), x);
        if r < 0 {
            -1
        } else {
            r + 1
        }
    }
}

/// `first_index` finds exactly the first occurrence.
pub proof fn lemma_first_index<A>(s: Seq<A>, x: A)
    ensures
        -1 <= first_index(s, x) < s.len(),
        first_index(s, x) >= 0 ==> s[first_index(s, x)] == x,
        forall|j: int|
            0 <= j < s.len() && (first_index(s, x) < 0 || j < first_index(s, x)) ==> s[j] != x,
    decreases s.len(),
{
    if s.len() > 0 {
        lemma_first_index(s.drop_first(), x);
        assert forall|j: int|
            0 <= j < s.len() && (first_index(s, x) < 0 || j < first_index(s, x)) implies s[j]
            != x by {
            if j > 0 {
                assert(s[j] == s.drop_first()[j - 1]);
            }
        }
    }
}

/// `x` appended to `s` unless `s` already holds it.
pub open spec fn add_new<A>(s: Seq<A>, x: A) -> Seq<A> {
    if s.contains(x) {
        s
    } else {
        s.push(x)
    }
}

/// The items of `xs` appended in order to `s`, each unless already present.
pub open spec fn add_all_new<A>(s: Seq<A>, xs: Seq<A>) -> Seq<A>
    decreases xs.len(),
{
    if xs.len() == 0 {
        s
    } else {
        add_new(add_all_new(s, xs.drop_last()), xs.last())
    }
}

/// Adding items keeps a sequence free of duplicates, and the result holds
/// exactly the items of both.
pub proof fn lemma_add_all_new<A>(s: Seq<A>, xs: Seq<A>)
    requires
        s.no_duplicates(),
    ensures
        add_all_new(s, xs).no_duplicates(),
        forall|x: A| #[trigger]
            add_all_new(s, xs).contains(x) <==> (s.contains(x) || xs.contains(x)),
    decreases xs.len(),
{
    if xs.len() > 0 {
        let prev = add_all_new(s, xs.drop_last());
        lemma_add_all_new(s, xs.drop_last());
        let x = xs.last();
        if !prev.contains(x) {
            assert forall|i: int, j: int|
                0 <= i < prev.push(x).len() && 0 <= j < prev.push(x).len() && i != j implies prev.push(
                x,
            )[i] != prev.push(x)[j] by {
                if i < prev.len() && j < prev.len() {
                } else if i < prev.len() {
                    assert(prev.contains(prev[i]));
                } else if j < prev.len() {
                    assert(prev.contains(prev[j]));
                }
            }
        }
        assert forall|y: A| #[trigger]
            add_all_new(s, xs).contains(y) <==> (s.contains(y) || xs.contains(y)) by {
            if xs.drop_last().contains(y) {
                let k = choose|k: int| 0 <= k < xs.drop_last().len() && xs.drop_last()[k] == y;
                assert(xs[k] == y);
            }
            if xs.contains(y) && y != x {
                let k = choose|k: int| 0 <= k < xs.len() && xs[k] == y;
                assert(k < xs.len() - 1);
                assert(xs.drop_last()[k] == y);
            }
            if prev.push(x).contains(y) && !prev.contains(y) {
                let k = choose|k: int| 0 <= k < prev.push(x).len() && prev.push(x)[k] == y;
                assert(k == prev.len());
            }
            if y == x {
                assert(xs[xs.len() - 1] == y);
                if !prev.contains(x) {
                    assert(prev.push(x)[prev.len() as int] == x);
                }
            }
            if prev.contains(y) && !prev.contains(x) {
                let k = choose|k: int| 0 <= k < prev.len() && prev[k] == y;
                assert(prev.push(x)[k] == y);
            }
        }
    }
}

/// A position holding `x` with no `x` before it is the first index of `x`.
pub proof fn lemma_first_index_at<A>(s: Seq<A>, x: A, k: int)
    requires
        0 <= k < s.len(),
        s[k] == x,
        forall|j: int| 0 <= j < k ==> s[j] != x,
    ensures
        first_index(s, x) == k,
{
    lemma_first_index(s, x);
}

/// Adding the items of two sequences one after the other is adding the
/// items of their concatenation.
pub proof fn lemma_add_all_new_append<A>(s: Seq<A>, xs: Seq<A>, ys: Seq<A>)
    ensures
        add_all_new(add_all_new(s, xs), ys) == add_all_new(s, xs + ys),
    decreases ys.len(),
{
    if ys.len() == 0 {
        assert(xs + ys =~= xs);
    } else {
        lemma_add_all_new_append(s, xs, ys.drop_last());
        assert((xs + ys).drop_last() =~= xs + ys.drop_last());
        assert((xs + ys).last() == ys.last());
    }
}

/// The distinct items of `xs`, collected from an empty sequence, come in
/// the order of their first occurrences in `xs`.
pub proof fn lemma_add_all_new_order<A>(xs: Seq<A>)
    ensures
        forall|i: int|
            0 <= i < add_all_new(Seq::<A>::empty(), xs).len() ==> 0 <= first_index(
                xs,
                #[trigger] add_all_new(Seq::<A>::empty(), xs)[i],
            ),
        forall|i: int, j: int|
            0 <= i < j < add_all_new(Seq::<A>::empty(), xs).len() ==> first_index(
                xs,
                #[trigger] add_all_new(Seq::<A>::empty(), xs)[i],
            ) < first_index(xs, #[trigger] add_all_new(Seq::<A>::empty(), xs)[j]),
    decreases xs.len(),
{
    let e = Seq::<A>::empty();
    if xs.len() > 0 {
        let p = xs.drop_last();
        let x = xs.last();
        let pr = add_all_new(e, p);
        let r = add_all_new(e, xs);
        lemma_add_all_new_order(p);
        lemma_add_all_new(e, p);
        assert forall|i: int| 0 <= i < pr.len() implies first_index(xs, #[trigger] pr[i])
            == first_index(p, pr[i]) && 0 <= first_index(p, pr[i]) < p.len() by {
            let y = pr[i];
            assert(pr.contains(y));
            lemma_first_index(p, y);
            let k = first_index(p, y);
            assert forall|j: int| 0 <= j < k implies xs[j] != y by {
                assert(xs[j] == p[j]);
            }
            lemma_first_index_at(xs, y, k);
        }
        if !pr.contains(x) {
            assert(r == pr.push(x));
            assert forall|j: int| 0 <= j < xs.len() - 1 implies xs[j] != x by {
                assert(xs[j] == p[j]);
                if xs[j] == x {
                    assert(p.contains(x));
                }
            }
            lemma_first_index_at(xs, x, xs.len() - 1);
            assert forall|i: int| 0 <= i < r.len() implies 0 <= first_index(xs, #[trigger] r[i]) by {
                if i < pr.len() {
                    assert(r[i] == pr[i]);
                }
            }
            assert forall|i: int, j: int| 0 <= i < j < r.len() implies first_index(
                xs,
                #[trigger] r[i],
            ) < first_index(xs, #[trigger] r[j]) by {
                assert(r[i] == pr[i]);
                if j < pr.len() {
                    assert(r[j] == pr[j]);
                }
            }
        } else {
            assert(r == pr);
        }
    }
}

/// An entry with key `k` and no such key before it is where `key_index`
/// finds `k`.
pub proof fn lemma_key_index_at<V>(entries: Seq<(Seq<char>, V)>, k: Seq<char>, i: int)
    requires
        0 <= i < entries.len(),
        entries[i].0 == k,
        forall|j: int| 0 <= j < i ==> entries[j].0 != k,
    ensures
        key_index(entries, k) == i,
{
    lemma_key_index(entries, k);
}

} // verus!
