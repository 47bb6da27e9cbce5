//! The two lookup indices over a Word Table, as mathematical objects: the
//! bucket a key maps to, and the laws that make the buckets a partition of
//! the table.

use vstd::prelude::*;
use vstd::seq_lib::group_filter_ensures;
use vstd::seq_lib::group_to_multiset_ensures;
use vstd::multiset::group_multiset_axioms;
use vstd::multiset::Multiset;

verus! {

/// Holds of the words whose character count is exactly `n`.
pub open spec fn len_pred(n: int) -> spec_fn(Seq<char>) -> bool {
    |w: Seq<char>| w.len() == n
}

/// Holds of the non-empty words whose first character is `c`.
pub open spec fn first_pred(c: char) -> spec_fn(Seq<char>) -> bool {
    |w: Seq<char>| w.len() > 0 && w[0] == c
}

/// The Length Index bucket for character count `n`: the words of `ws` whose
/// character count is exactly `n`, in table order.
pub open spec fn len_bucket(ws: Seq<Seq<char>>, n: int) -> Seq<Seq<char>> {
    ws.filter(len_pred(n))
}

/// The Starting-Character Index bucket for `c`: the words of `ws` whose
/// first character is `c`, in table order.
pub open spec fn first_bucket(ws: Seq<Seq<char>>, c: char) -> Seq<Seq<char>> {
    ws.filter(first_pred(c))
}

/// Filtering a sequence extended by one element keeps the filtered prefix and
/// appends the new element exactly when it passes.
pub proof fn lemma_filter_push<A>(s: Seq<A>, pred: spec_fn(A) -> bool, x: A)
    ensures
        s.push(x).filter(pred) == if pred(x) {
            s.filter(pred).push(x)
        } else {
            s.filter(pred)
        },
{
    reveal(Seq::filter);
    assert(s.push(x).drop_last() =~= s);
    assert(s.push(x).last() == x);
}

/// Every element of a filtered sequence is an element of the original.
pub proof fn lemma_filter_subset<A>(s: Seq<A>, pred: spec_fn(A) -> bool)
    ensures
        forall|x: A| #[trigger] s.filter(pred).contains(x) ==> s.contains(x),
    decreases s.len(),
{
    reveal(Seq::filter);
    if s.len() > 0 {
        lemma_filter_subset(s.drop_last(), pred);
        let sub = s.drop_last().filter(pred);
        assert forall|x: A| #[trigger] s.filter(pred).contains(x) implies s.contains(x) by {
            if pred(s.last()) && x == s.last() {
                assert(s[s.len() - 1] == x);
            } else {
                let i = choose|i: int|
                    0 <= i < s.filter(pred).len() && s.filter(pred)[i] == x;
                if pred(s.last()) {
                    assert(s.filter(pred) == sub.push(s.last()));
                    assert(i < sub.len());
                } else {
                    assert(s.filter(pred) == sub);
                }
                assert(sub[i] == x);
                assert(sub.contains(x));
                assert(s.drop_last().contains(x));
                let j = choose|j: int| 0 <= j < s.drop_last().len() && s.drop_last()[j] == x;
                assert(s[j] == x);
            }
        }
    }
}

/// A filtered sequence is non-empty exactly when some element of the
/// original passes the predicate.
pub proof fn lemma_filter_nonempty<A>(s: Seq<A>, pred: spec_fn(A) -> bool)
    ensures
        s.filter(pred).len() > 0 <==> exists|i: int| 0 <= i < s.len() && pred(#[trigger] s[i]),
{
    broadcast use group_filter_ensures;

    if s.filter(pred).len() > 0 {
        lemma_filter_subset(s, pred);
        let x = s.filter(pred)[0];
        assert(s.filter(pred).contains(x));
        assert(pred(x));
        let i = choose|i: int| 0 <= i < s.len() && s[i] == x;
        assert(pred(s[i]));
    }
    if exists|i: int| 0 <= i < s.len() && pred(#[trigger] s[i]) {
        let i = choose|i: int| 0 <= i < s.len() && pred(#[trigger] s[i]);
        assert(s.filter(pred).contains(s[i]));
    }
}

/// Every word of a table lies in the Length Index bucket for its character
/// count and in the Starting-Character Index bucket for its first character.
pub proof fn lemma_word_in_buckets(ws: Seq<Seq<char>>, i: int)
    requires
        0 <= i < ws.len(),
        ws[i].len() > 0,
    ensures
        len_bucket(ws, ws[i].len() as int).contains(ws[i]),
        first_bucket(ws, ws[i][0]).contains(ws[i]),
{
    broadcast use group_filter_ensures;

    let w = ws[i];
    assert(len_pred(w.len() as int)(w));
    assert(first_pred(w[0])(w));
    assert(ws.filter(len_pred(w.len() as int)).contains(w));
    assert(ws.filter(first_pred(w[0])).contains(w));
}

/// The multiset sum of the Length Index buckets named by `keys`.
pub open spec fn len_buckets_union(ws: Seq<Seq<char>>, keys: Seq<int>) -> Multiset<Seq<char>>
    decreases keys.len(),
{
    if keys.len() == 0 {
        Multiset::<Seq<char>>::empty()
    } else {
        len_bucket(ws, keys.first()).to_multiset().add(len_buckets_union(ws, keys.drop_first()))
    }
}

/// The multiset sum of the Starting-Character Index buckets named by `keys`.
pub open spec fn first_buckets_union(ws: Seq<Seq<char>>, keys: Seq<char>) -> Multiset<Seq<char>>
    decreases keys.len(),
{
    if keys.len() == 0 {
        Multiset::<Seq<char>>::empty()
    } else {
        first_bucket(ws, keys.first()).to_multiset().add(
            first_buckets_union(ws, keys.drop_first()),
        )
    }
}

proof fn lemma_len_union_of_empty(keys: Seq<int>)
    ensures
        len_buckets_union(Seq::<Seq<char>>::empty(), keys) =~= Multiset::<Seq<char>>::empty(),
    decreases keys.len(),
{
    broadcast use group_multiset_axioms;
    broadcast use group_to_multiset_ensures;

    reveal(Seq::filter);
    if keys.len() > 0 {
        lemma_len_union_of_empty(keys.drop_first());
        assert(len_bucket(Seq::<Seq<char>>::empty(), keys.first()) == Seq::<Seq<char>>::empty());
        vstd::multiset::lemma_multiset_empty_len(
            Seq::<Seq<char>>::empty().to_multiset(),
        );
    }
}

proof fn lemma_len_union_step(prev: Seq<Seq<char>>, w: Seq<char>, keys: Seq<int>)
    requires
        keys.no_duplicates(),
    ensures
        keys.contains(w.len() as int) ==> len_buckets_union(prev.push(w), keys)
            =~= len_buckets_union(prev, keys).insert(w),
        !keys.contains(w.len() as int) ==> len_buckets_union(prev.push(w), keys)
            =~= len_buckets_union(prev, keys),
    decreases keys.len(),
{
    broadcast use group_multiset_axioms;
    broadcast use group_to_multiset_ensures;

    if keys.len() > 0 {
        let k = keys.first();
        let rest = keys.drop_first();
        assert(rest.no_duplicates());
        assert(keys.contains(k)) by {
            assert(keys[0] == k);
        }
        assert(!rest.contains(k)) by {
            if rest.contains(k) {
                let j = choose|j: int| 0 <= j < rest.len() && rest[j] == k;
                assert(keys[j + 1] == k);
                assert(keys[0] == k);
            }
        }
        assert forall|n: int| rest.contains(n) implies keys.contains(n) by {
            let j = choose|j: int| 0 <= j < rest.len() && rest[j] == n;
            assert(keys[j + 1] == n);
        }
        lemma_filter_push(prev, len_pred(k), w);
        lemma_len_union_step(prev, w, rest);
        if k == w.len() as int {
            assert(len_bucket(prev.push(w), k).to_multiset() =~= len_bucket(
                prev,
                k,
            ).to_multiset().insert(w));
        } else {
            assert(len_bucket(prev.push(w), k) == len_bucket(prev, k));
            if rest.contains(w.len() as int) {
                assert(keys.contains(w.len() as int));
            } else {
                if keys.contains(w.len() as int) {
                    let j = choose|j: int| 0 <= j < keys.len() && keys[j] == w.len() as int;
                    assert(j > 0);
                    assert(rest[j - 1] == w.len() as int);
                }
            }
        }
    }
}

/// Partition law for the Length Index: over any duplicate-free key list that
/// covers every word's character count, the multiset union of the buckets is
/// exactly the multiset of the Word Table.
pub proof fn lemma_len_partition(ws: Seq<Seq<char>>, keys: Seq<int>)
    requires
        keys.no_duplicates(),
        forall|i: int| 0 <= i < ws.len() ==> keys.contains(#[trigger] ws[i].len() as int),
    ensures
        len_buckets_union(ws, keys) == ws.to_multiset(),
    decreases ws.len(),
{
    broadcast use group_multiset_axioms;
    broadcast use group_to_multiset_ensures;

    if ws.len() == 0 {
        lemma_len_union_of_empty(keys);
        assert(ws =~= Seq::<Seq<char>>::empty());
        vstd::multiset::lemma_multiset_empty_len(ws.to_multiset());
        assert(len_buckets_union(ws, keys) =~= ws.to_multiset());
    } else {
        let prev = ws.drop_last();
        let w = ws.last();
        assert forall|i: int| 0 <= i < prev.len() implies keys.contains(
            #[trigger] prev[i].len() as int,
        ) by {
            assert(prev[i] == ws[i]);
        }
        lemma_len_partition(prev, keys);
        lemma_len_union_step(prev, w, keys);
        assert(keys.contains(w.len() as int)) by {
            assert(ws[ws.len() - 1] == w);
        }
        assert(ws =~= prev.push(w));
        assert(prev.push(w).to_multiset() =~= prev.to_multiset().insert(w));
        assert(len_buckets_union(ws, keys) =~= ws.to_multiset());
    }
}

proof fn lemma_first_union_of_empty(keys: Seq<char>)
    ensures
        first_buckets_union(Seq::<Seq<char>>::empty(), keys) =~= Multiset::<Seq<char>>::empty(),
    decreases keys.len(),
{
    broadcast use group_multiset_axioms;
    broadcast use group_to_multiset_ensures;

    reveal(Seq::filter);
    if keys.len() > 0 {
        lemma_first_union_of_empty(keys.drop_first());
        assert(first_bucket(Seq::<Seq<char>>::empty(), keys.first()) == Seq::<Seq<char>>::empty());
        vstd::multiset::lemma_multiset_empty_len(
            Seq::<Seq<char>>::empty().to_multiset(),
        );
    }
}

proof fn lemma_first_union_step(prev: Seq<Seq<char>>, w: Seq<char>, keys: Seq<char>)
    requires
        keys.no_duplicates(),
        w.len() > 0,
    ensures
        keys.contains(w[0]) ==> first_buckets_union(prev.push(w), keys) =~= first_buckets_union(
            prev,
            keys,
        ).insert(w),
        !keys.contains(w[0]) ==> first_buckets_union(prev.push(w), keys) =~= first_buckets_union(
            prev,
            keys,
        ),
    decreases keys.len(),
{
    broadcast use group_multiset_axioms;
    broadcast use group_to_multiset_ensures;

    if keys.len() > 0 {
        let k = keys.first();
        let rest = keys.drop_first();
        assert(rest.no_duplicates());
        assert(keys.contains(k)) by {
            assert(keys[0] == k);
        }
        assert(!rest.contains(k)) by {
            if rest.contains(k) {
                let j = choose|j: int| 0 <= j < rest.len() && rest[j] == k;
                assert(keys[j + 1] == k);
                assert(keys[0] == k);
            }
        }
        lemma_filter_push(prev, first_pred(k), w);
        lemma_first_union_step(prev, w, rest);
        if w[0] == k {
            assert(first_bucket(prev.push(w), k).to_multiset() =~= first_bucket(
                prev,
                k,
            ).to_multiset().insert(w));
        } else {
            assert(first_bucket(prev.push(w), k) == first_bucket(prev, k));
            if rest.contains(w[0]) {
                let j = choose|j: int| 0 <= j < rest.len() && rest[j] == w[0];
                assert(keys[j + 1] == w[0]);
            } else {
                if keys.contains(w[0]) {
                    let j = choose|j: int| 0 <= j < keys.len() && keys[j] == w[0];
                    assert(j > 0);
                    assert(rest[j - 1] == w[0]);
                }
            }
        }
    }
}

/// Partition law for the Starting-Character Index: over any duplicate-free
/// key list that covers every word's first character, the multiset union of
/// the buckets is exactly the multiset of the Word Table.
pub proof fn lemma_first_partition(ws: Seq<Seq<char>>, keys: Seq<char>)
    requires
        keys.no_duplicates(),
        forall|i: int| 0 <= i < ws.len() ==> #[trigger] ws[i].len() > 0,
        forall|i: int| 0 <= i < ws.len() ==> keys.contains(#[trigger] ws[i][0]),
    ensures
        first_buckets_union(ws, keys) == ws.to_multiset(),
    decreases ws.len(),
{
    broadcast use group_multiset_axioms;
    broadcast use group_to_multiset_ensures;

    if ws.len() == 0 {
        lemma_first_union_of_empty(keys);
        assert(ws =~= Seq::<Seq<char>>::empty());
        vstd::multiset::lemma_multiset_empty_len(ws.to_multiset());
        assert(first_buckets_union(ws, keys) =~= ws.to_multiset());
    } else {
        let prev = ws.drop_last();
        let w = ws.last();
        assert(ws[ws.len() - 1] == w);
        assert forall|i: int| 0 <= i < prev.len() implies #[trigger] prev[i].len() > 0
            && keys.contains(prev[i][0]) by {
            assert(prev[i] == ws[i]);
            assert(ws[i].len() > 0);
            assert(keys.contains(ws[i][0]));
        }
        lemma_first_partition(prev, keys);
        lemma_first_union_step(prev, w, keys);
        assert(keys.contains(w[0]));
        assert(ws =~= prev.push(w));
        assert(prev.push(w).to_multiset() =~= prev.to_multiset().insert(w));
        assert(first_buckets_union(ws, keys) =~= ws.to_multiset());
    }
}

} // verus!
