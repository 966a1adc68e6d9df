//! Association lists: sequences of `(key, value)` pairs with distinct keys,
//! read as finite maps.

use vstd::prelude::*;

verus! {

/// No key occurs twice.
pub open spec fn keys_distinct<K, V>(e: Seq<(K, V)>) -> bool {
    forall|i: int, j: int| 0 <= i < j < e.len() ==> #[trigger] e[i].0 != #[trigger] e[j].0
}

/// Some pair has key `k`.
pub open spec fn has_key<K, V>(e: Seq<(K, V)>, k: K) -> bool {
    exists|i: int| 0 <= i < e.len() && #[trigger] e[i].0 == k
}

/// The position of the pair with key `k` (meaningful where `has_key(e, k)`).
pub open spec fn key_index<K, V>(e: Seq<(K, V)>, k: K) -> int {
    choose|i: int| 0 <= i < e.len() && #[trigger] e[i].0 == k
}

/// The map that the list stands for; a later pair overrides an earlier one.
pub open spec fn to_map<K, V>(e: Seq<(K, V)>) -> Map<K, V>
    decreases e.len(),
{
    if e.len() == 0 {
        Map::empty()
    } else {
        to_map(e.drop_last()).insert(e.last().0, e.last().1)
    }
}

/// The keys in list order.
pub open spec fn keys_of<K, V>(e: Seq<(K, V)>) -> Seq<K> {
    e.map_values(|p: (K, V)| p.0)
}

/// Sets the value of `k`: in place where the key is present, else appended.
pub open spec fn put<K, V>(e: Seq<(K, V)>, k: K, v: V) -> Seq<(K, V)> {
    if has_key(e, k) {
        e.update(key_index(e, k), (k, v))
    } else {
        e.push((k, v))
    }
}

/// With distinct keys, the map holds exactly the listed keys with their
/// listed values, and has as many keys as the list has pairs.
pub proof fn lemma_to_map<K, V>(e: Seq<(K, V)>)
    requires
        keys_distinct(e),
    ensures
        forall|k: K| #[trigger] to_map(e).contains_key(k) <==> has_key(e, k),
        forall|i: int| 0 <= i < e.len() ==> #[trigger] to_map(e)[e[i].0] == e[i].1,
        to_map(e).dom().finite(),
        to_map(e).dom().len() == e.len(),
    decreases e.len(),
{
    if e.len() > 0 {
        let init = e.drop_last();
        assert(keys_distinct(init));
        lemma_to_map(init);
        assert forall|k: K| #[trigger] to_map(e).contains_key(k) <==> has_key(e, k) by {
            if has_key(e, k) {
                let i = choose|i: int| 0 <= i < e.len() && #[trigger] e[i].0 == k;
                if i < e.len() - 1 {
                    assert(init[i].0 == k);
                }
            }
            if has_key(init, k) {
                let i = choose|i: int| 0 <= i < init.len() && #[trigger] init[i].0 == k;
                assert(e[i].0 == k);
            }
        }
        assert forall|i: int| 0 <= i < e.len() implies #[trigger] to_map(e)[e[i].0] == e[i].1 by {
            if i < e.len() - 1 {
                assert(init[i] == e[i]);
                assert(e[i].0 != e[e.len() - 1].0);
            }
        }
        assert(!to_map(init).contains_key(e.last().0)) by {
            if has_key(init, e.last().0) {
                let i = choose|i: int| 0 <= i < init.len() && #[trigger] init[i].0 == e.last().0;
                assert(e[i].0 == e[e.len() - 1].0);
            }
        }
    }
}

/// Setting a key keeps the keys distinct and sets it in the map.
pub proof fn lemma_put<K, V>(e: Seq<(K, V)>, k: K, v: V)
    requires
        keys_distinct(e),
    ensures
        keys_distinct(put(e, k, v)),
        to_map(put(e, k, v)) == to_map(e).insert(k, v),
        has_key(e, k) ==> keys_of(put(e, k, v)) == keys_of(e),
        !has_key(e, k) ==> keys_of(put(e, k, v)) == keys_of(e).push(k),
{
    let p = put(e, k, v);
    lemma_to_map(e);
    if has_key(e, k) {
        let idx = key_index(e, k);
        assert(keys_of(p) =~= keys_of(e));
        assert(keys_distinct(p)) by {
            assert forall|i: int, j: int| 0 <= i < j < p.len() implies #[trigger] p[i].0
                != #[trigger] p[j].0 by {
                assert(p[i].0 == e[i].0);
                assert(p[j].0 == e[j].0);
            }
        }
        lemma_to_map(p);
        assert forall|q: K| #[trigger] to_map(p).contains_key(q) <==> to_map(e).insert(
            k,
            v,
        ).contains_key(q) by {
            if has_key(p, q) {
                let i = choose|i: int| 0 <= i < p.len() && #[trigger] p[i].0 == q;
                assert(e[i].0 == q);
            }
            if has_key(e, q) {
                let i = choose|i: int| 0 <= i < e.len() && #[trigger] e[i].0 == q;
                assert(p[i].0 == q);
            }
        }
        assert forall|q: K| #[trigger] to_map(p).contains_key(q) implies to_map(p)[q] == to_map(
            e,
        ).insert(k, v)[q] by {
            let i = choose|i: int| 0 <= i < p.len() && #[trigger] p[i].0 == q;
            assert(p[i].0 == q);
            if i != idx {
                assert(p[i] == e[i]);
            }
        }
        assert(to_map(p) =~= to_map(e).insert(k, v));
    } else {
        assert(keys_of(p) =~= keys_of(e).push(k));
        assert(keys_distinct(p)) by {
            assert forall|i: int, j: int| 0 <= i < j < p.len() implies #[trigger] p[i].0
                != #[trigger] p[j].0 by {
                if j == e.len() {
                    assert(p[i] == e[i]);
                    assert(e[i].0 == e[i].0);
                } else {
                    assert(p[i] == e[i]);
                    assert(p[j] == e[j]);
                }
            }
        }
        assert(p.drop_last() =~= e);
    }
}

/// Setting a key adds it to the keys and keeps all the others.
pub proof fn lemma_put_keys<K, V>(e: Seq<(K, V)>, k: K, v: V)
    ensures
        forall|q: K| #[trigger] has_key(put(e, k, v), q) <==> (has_key(e, q) || q == k),
{
    let p = put(e, k, v);
    if has_key(e, k) {
        let idx = key_index(e, k);
        assert forall|q: K| #[trigger] has_key(p, q) <==> (has_key(e, q) || q == k) by {
            if has_key(p, q) {
                let i = choose|i: int| 0 <= i < p.len() && #[trigger] p[i].0 == q;
                if i != idx {
                    assert(e[i].0 == q);
                }
            }
            if has_key(e, q) {
                let i = choose|i: int| 0 <= i < e.len() && #[trigger] e[i].0 == q;
                if i != idx {
                    assert(p[i].0 == q);
                } else {
                    assert(p[idx].0 == k);
                }
            }
            if q == k {
                assert(p[idx].0 == k);
            }
        }
    } else {
        assert forall|q: K| #[trigger] has_key(p, q) <==> (has_key(e, q) || q == k) by {
            if has_key(p, q) {
                let i = choose|i: int| 0 <= i < p.len() && #[trigger] p[i].0 == q;
                if i < e.len() {
                    assert(e[i].0 == q);
                }
            }
            if has_key(e, q) {
                let i = choose|i: int| 0 <= i < e.len() && #[trigger] e[i].0 == q;
                assert(p[i].0 == q);
            }
            if q == k {
                assert(p[e.len() as int].0 == k);
            }
        }
    }
}

/// Sets the value of `key` in `list`: in place where the key is present,
/// else appended.
pub fn put_key(list: &mut Vec<(String, usize)>, key: String, v: usize)
    requires
        keys_distinct(pairs_view(old(list)@)),
    ensures
        pairs_view(final(list)@) == put(pairs_view(old(list)@), key@, v),
{
    let ghost e = pairs_view(list@);
    match find_key(list, &key) {
        Some(i) => {
            proof {
                assert(e[i as int].0 == key@);
                assert(has_key(e, key@));
                let j = key_index(e, key@);
                if j != i {
                    if j < i {
                        assert(e[j].0 != e[i as int].0);
                    } else {
                        assert(e[i as int].0 != e[j].0);
                    }
                }
            }
            list.set(i, (key, v));
            assert(pairs_view(list@) =~= put(e, key@, v));
        },
        None => {
            list.push((key, v));
            assert(pairs_view(list@) =~= put(e, key@, v));
        },
    }
}

/// The position of the pair whose key is `key`, if any.
pub fn find_key(list: &Vec<(String, usize)>, key: &String) -> (r: Option<usize>)
    ensures
        match r {
            Some(i) => i < list@.len() && list@[i as int].0@ == key@,
            None => !has_key(pairs_view(list@), key@),
        },
{
    let n = list.len();
    let mut i: usize = 0;
    while i < n
        invariant
            i <= n,
            n == list@.len(),
            forall|j: int| 0 <= j < i ==> #[trigger] list@[j].0@ != key@,
        decreases n - i,
    {
        if list[i].0 == *key {
            return Some(i);
        }
        i = i + 1;
    }
    proof {
        if has_key(pairs_view(list@), key@) {
            let j = choose|j: int|
                0 <= j < pairs_view(list@).len() && #[trigger] pairs_view(list@)[j].0 == key@;
            assert(list@[j].0@ == key@);
        }
    }
    None
}

/// The pairs of a list of `(String, usize)` with each name read as characters.
pub open spec fn pairs_view(list: Seq<(String, usize)>) -> Seq<(Seq<char>, usize)> {
    list.map_values(|p: (String, usize)| (p.0@, p.1))
}

} // verus!
