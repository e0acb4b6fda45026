//! Ordered walks over maps with integer keys.
use std::collections::BTreeMap;

use vstd::prelude::*;
use vstd::std_specs::cmp::OrdSpec;
use vstd::std_specs::iter::IteratorSpec;

verus! {

broadcast use {vstd::std_specs::btree::group_btree_axioms, vstd::laws_cmp::group_laws_cmp};

/// The keys in `keys` grow from each one to the next, and are those of `set`.
pub open spec fn is_ascending(keys: Seq<u64>, set: Set<u64>) -> bool {
    &&& forall|i: int, j: int| 0 <= i < j < keys.len() ==> keys[i] < keys[j]
    &&& forall|k: u64| #[trigger] set.contains(k) <==> keys.contains(k)
}

/// The elements of a finite set in ascending order.
pub open spec fn ascending(set: Set<u64>) -> Seq<u64> {
    choose|keys: Seq<u64>| is_ascending(keys, set)
}

/// The place of a new key among ascending ones.
proof fn lemma_slot(keys: Seq<u64>, key: u64) -> (at: int)
    requires
        forall|i: int, j: int| 0 <= i < j < keys.len() ==> keys[i] < keys[j],
        !keys.contains(key),
    ensures
        0 <= at <= keys.len(),
        forall|i: int| 0 <= i < at ==> keys[i] < key,
        forall|i: int| at <= i < keys.len() ==> key < keys[i],
    decreases keys.len(),
{
    if keys.len() == 0 {
        0
    } else {
        let front = keys.drop_last();
        assert(forall|i: int| 0 <= i < front.len() ==> front[i] == keys[i]);
        assert(keys.contains(keys[keys.len() - 1]));
        if keys.last() < key {
            keys.len() as int
        } else {
            assert(!front.contains(key)) by {
                if front.contains(key) {
                    let i = choose|i: int| 0 <= i < front.len() && front[i] == key;
                    assert(keys[i] == key);
                }
            }
            let at = lemma_slot(front, key);
            assert forall|i: int| at <= i < keys.len() implies key < keys[i] by {
                if i < front.len() {
                    assert(front[i] == keys[i]);
                }
            }
            at
        }
    }
}

/// A finite set has an ascending order.
pub proof fn lemma_ascending_exists(set: Set<u64>)
    requires
        set.finite(),
    ensures
        is_ascending(ascending(set), set),
    decreases set.len(),
{
    if set.len() == 0 {
        let none = Seq::<u64>::empty();
        assert(is_ascending(none, set)) by {
            assert forall|k: u64| #[trigger] set.contains(k) <==> none.contains(k) by {
                if set.contains(k) {
                    assert(set.remove(k).len() + 1 == set.len());
                }
            }
        }
    } else {
        let key = set.choose();
        let rest = set.remove(key);
        lemma_ascending_exists(rest);
        let keys = ascending(rest);
        assert(!keys.contains(key)) by {
            assert(!rest.contains(key));
        }
        let at = lemma_slot(keys, key);
        let all = keys.take(at) + seq![key] + keys.skip(at);
        assert forall|i: int, j: int| 0 <= i < j < all.len() implies all[i] < all[j] by {
            if i < at {
                assert(all[i] == keys[i]);
            } else if i > at {
                assert(all[i] == keys[i - 1]);
            }
            if j < at {
                assert(all[j] == keys[j]);
            } else if j > at {
                assert(all[j] == keys[j - 1]);
            }
        }
        assert forall|k: u64| #[trigger] set.contains(k) <==> all.contains(k) by {
            assert(all[at] == key);
            if set.contains(k) && k != key {
                assert(rest.contains(k));
                let i = choose|i: int| 0 <= i < keys.len() && keys[i] == k;
                if i < at {
                    assert(all[i] == k);
                } else {
                    assert(all[i + 1] == k);
                }
            }
            if all.contains(k) && k != key {
                let i = choose|i: int| 0 <= i < all.len() && all[i] == k;
                let j = if i < at {
                    i
                } else {
                    i - 1
                };
                assert(keys[j] == k);
                assert(rest.contains(k));
            }
        }
        assert(is_ascending(all, set));
    }
}

/// There is only one ascending order.
pub proof fn lemma_ascending_unique(a: Seq<u64>, b: Seq<u64>, set: Set<u64>)
    requires
        is_ascending(a, set),
        is_ascending(b, set),
    ensures
        a == b,
    decreases a.len(),
{
    if a.len() == 0 {
        if b.len() > 0 {
            assert(b.contains(b[0]));
            assert(set.contains(b[0]));
            assert(a.contains(b[0]));
        }
        assert(a =~= b);
    } else {
        assert(a.contains(a.last()));
        assert(set.contains(a.last()));
        assert(b.contains(a.last()));
        let i = choose|i: int| 0 <= i < b.len() && b[i] == a.last();
        assert(b.contains(b.last()));
        assert(set.contains(b.last()));
        assert(a.contains(b.last()));
        let j = choose|j: int| 0 <= j < a.len() && a[j] == b.last();
        assert(a.last() == b.last()) by {
            if i < b.len() - 1 {
                assert(b[i] < b[b.len() - 1]);
            }
            if j < a.len() - 1 {
                assert(a[j] < a[a.len() - 1]);
            }
        }
        let rest = set.remove(a.last());
        assert forall|k: u64| #[trigger] rest.contains(k) <==> a.drop_last().contains(k) by {
            lemma_drop_last_contains(a, set, k);
        }
        assert forall|k: u64| #[trigger] rest.contains(k) <==> b.drop_last().contains(k) by {
            lemma_drop_last_contains(b, set, k);
        }
        lemma_ascending_unique(a.drop_last(), b.drop_last(), rest);
        assert(a =~= a.drop_last().push(a.last()));
        assert(b =~= b.drop_last().push(b.last()));
    }
}

proof fn lemma_drop_last_contains(a: Seq<u64>, set: Set<u64>, k: u64)
    requires
        is_ascending(a, set),
        a.len() > 0,
    ensures
        set.remove(a.last()).contains(k) <==> a.drop_last().contains(k),
{
    if a.drop_last().contains(k) {
        let i = choose|i: int| 0 <= i < a.drop_last().len() && a.drop_last()[i] == k;
        assert(a[i] < a[a.len() - 1]);
        assert(a.contains(a[i]));
        assert(set.contains(k));
    }
    if set.remove(a.last()).contains(k) {
        assert(set.contains(k));
        assert(a.contains(k));
        let i = choose|i: int| 0 <= i < a.len() && a[i] == k;
        assert(a.drop_last()[i] == k);
    }
}

/// The keys of a map, in ascending order.
pub fn sorted_keys<V>(map: &BTreeMap<u64, V>) -> (keys: Vec<u64>)
    ensures
        is_ascending(keys@, map@.dom()),
        keys@ == ascending(map@.dom()),
{
    let mut keys: Vec<u64> = Vec::new();
    let walk = map.keys();
    let ghost all = walk.remaining();
    for key in iter: walk
        invariant
            iter.seq() == all,
            keys@.len() == iter.index(),
            forall|i: int| 0 <= i < keys@.len() ==> keys@[i] == *all[i],
    {
        keys.push(*key);
    }
    proof {
        let plain = all.unref();
        assert(vstd::laws_cmp::obeys_cmp::<u64>());
        assert(vstd::laws_cmp::obeys_cmp::<&u64>());
        assert(vstd::std_specs::btree::increasing_seq(all));
        assert(keys@ =~= plain);
        assert forall|i: int, j: int| 0 <= i < j < keys@.len() implies keys@[i] < keys@[j] by {
            assert(OrdSpec::cmp_spec(&all[i], &all[j]) is Less);
            assert(OrdSpec::cmp_spec(all[i], all[j]) is Less);
        }
        assert forall|k: u64| #[trigger] map@.dom().contains(k) <==> keys@.contains(k) by {
            assert(plain.to_set().contains(k) <==> plain.contains(k));
        }
        assert(is_ascending(keys@, map@.dom()));
        lemma_ascending_unique(keys@, ascending(map@.dom()), map@.dom());
    }
    keys
}

/// `a` comes before `b` in the order of pairs.
pub open spec fn pair_less(a: (u64, u64), b: (u64, u64)) -> bool {
    a.0 < b.0 || (a.0 == b.0 && a.1 < b.1)
}

/// The pairs in `keys` grow from each one to the next, and are those of `set`.
pub open spec fn is_ascending_pairs(keys: Seq<(u64, u64)>, set: Set<(u64, u64)>) -> bool {
    &&& forall|i: int, j: int|
        0 <= i < j < keys.len() ==> pair_less(#[trigger] keys[i], #[trigger] keys[j])
    &&& forall|k: (u64, u64)| #[trigger] set.contains(k) <==> keys.contains(k)
}

/// The elements of a finite set of pairs in ascending order.
pub open spec fn ascending_pairs(set: Set<(u64, u64)>) -> Seq<(u64, u64)> {
    choose|keys: Seq<(u64, u64)>| is_ascending_pairs(keys, set)
}

/// The place of a new pair among ascending ones.
proof fn lemma_pair_slot(keys: Seq<(u64, u64)>, key: (u64, u64)) -> (at: int)
    requires
        forall|i: int, j: int|
            0 <= i < j < keys.len() ==> pair_less(#[trigger] keys[i], #[trigger] keys[j]),
        !keys.contains(key),
    ensures
        0 <= at <= keys.len(),
        forall|i: int| 0 <= i < at ==> pair_less(#[trigger] keys[i], key),
        forall|i: int| at <= i < keys.len() ==> pair_less(key, #[trigger] keys[i]),
    decreases keys.len(),
{
    if keys.len() == 0 {
        0
    } else {
        let front = keys.drop_last();
        assert(forall|i: int| 0 <= i < front.len() ==> front[i] == keys[i]);
        assert(keys.contains(keys[keys.len() - 1]));
        if pair_less(keys.last(), key) {
            keys.len() as int
        } else {
            assert(!front.contains(key)) by {
                if front.contains(key) {
                    let i = choose|i: int| 0 <= i < front.len() && front[i] == key;
                    assert(keys[i] == key);
                }
            }
            let at = lemma_pair_slot(front, key);
            assert forall|i: int| at <= i < keys.len() implies pair_less(key, #[trigger] keys[i]) by {
                if i < front.len() {
                    assert(front[i] == keys[i]);
                }
            }
            at
        }
    }
}

/// A finite set of pairs has an ascending order.
pub proof fn lemma_ascending_pairs_exists(set: Set<(u64, u64)>)
    requires
        set.finite(),
    ensures
        is_ascending_pairs(ascending_pairs(set), set),
    decreases set.len(),
{
    if set.len() == 0 {
        let none = Seq::<(u64, u64)>::empty();
        assert(is_ascending_pairs(none, set)) by {
            assert forall|k: (u64, u64)| #[trigger] set.contains(k) <==> none.contains(k) by {
                if set.contains(k) {
                    assert(set.remove(k).len() + 1 == set.len());
                }
            }
        }
    } else {
        let key = set.choose();
        let rest = set.remove(key);
        lemma_ascending_pairs_exists(rest);
        let keys = ascending_pairs(rest);
        assert(!keys.contains(key)) by {
            assert(!rest.contains(key));
        }
        let at = lemma_pair_slot(keys, key);
        let all = keys.take(at) + seq![key] + keys.skip(at);
        assert forall|i: int, j: int| 0 <= i < j < all.len() implies pair_less(
            #[trigger] all[i],
            #[trigger] all[j],
        ) by {
            if i < at {
                assert(all[i] == keys[i]);
            } else if i > at {
                assert(all[i] == keys[i - 1]);
            }
            if j < at {
                assert(all[j] == keys[j]);
            } else if j > at {
                assert(all[j] == keys[j - 1]);
            }
        }
        assert forall|k: (u64, u64)| #[trigger] set.contains(k) <==> all.contains(k) by {
            assert(all[at] == key);
            if set.contains(k) && k != key {
                assert(rest.contains(k));
                let i = choose|i: int| 0 <= i < keys.len() && keys[i] == k;
                if i < at {
                    assert(all[i] == k);
                } else {
                    assert(all[i + 1] == k);
                }
            }
            if all.contains(k) && k != key {
                let i = choose|i: int| 0 <= i < all.len() && all[i] == k;
                let j = if i < at {
                    i
                } else {
                    i - 1
                };
                assert(keys[j] == k);
                assert(rest.contains(k));
            }
        }
        assert(is_ascending_pairs(all, set));
    }
}

/// There is only one ascending order.
pub proof fn lemma_ascending_pairs_unique(
    a: Seq<(u64, u64)>,
    b: Seq<(u64, u64)>,
    set: Set<(u64, u64)>,
)
    requires
        is_ascending_pairs(a, set),
        is_ascending_pairs(b, set),
    ensures
        a == b,
    decreases a.len(),
{
    if a.len() == 0 {
        if b.len() > 0 {
            assert(b.contains(b[0]));
            assert(set.contains(b[0]));
            assert(a.contains(b[0]));
        }
        assert(a =~= b);
    } else {
        assert(a.contains(a.last()));
        assert(set.contains(a.last()));
        assert(b.contains(a.last()));
        let i = choose|i: int| 0 <= i < b.len() && b[i] == a.last();
        assert(b.contains(b.last()));
        assert(set.contains(b.last()));
        assert(a.contains(b.last()));
        let j = choose|j: int| 0 <= j < a.len() && a[j] == b.last();
        assert(a.last() == b.last()) by {
            if i < b.len() - 1 {
                assert(pair_less(b[i], b[b.len() - 1]));
            }
            if j < a.len() - 1 {
                assert(pair_less(a[j], a[a.len() - 1]));
            }
        }
        let rest = set.remove(a.last());
        assert forall|k: (u64, u64)| #[trigger] rest.contains(k) <==> a.drop_last().contains(k) by {
            lemma_drop_last_contains_pair(a, set, k);
        }
        assert forall|k: (u64, u64)| #[trigger] rest.contains(k) <==> b.drop_last().contains(k) by {
            lemma_drop_last_contains_pair(b, set, k);
        }
        lemma_ascending_pairs_unique(a.drop_last(), b.drop_last(), rest);
        assert(a =~= a.drop_last().push(a.last()));
        assert(b =~= b.drop_last().push(b.last()));
    }
}

proof fn lemma_drop_last_contains_pair(
    a: Seq<(u64, u64)>,
    set: Set<(u64, u64)>,
    k: (u64, u64),
)
    requires
        is_ascending_pairs(a, set),
        a.len() > 0,
    ensures
        set.remove(a.last()).contains(k) <==> a.drop_last().contains(k),
{
    if a.drop_last().contains(k) {
        let i = choose|i: int| 0 <= i < a.drop_last().len() && a.drop_last()[i] == k;
        assert(pair_less(a[i], a[a.len() - 1]));
        assert(a.contains(a[i]));
        assert(set.contains(k));
    }
    if set.remove(a.last()).contains(k) {
        assert(set.contains(k));
        assert(a.contains(k));
        let i = choose|i: int| 0 <= i < a.len() && a[i] == k;
        assert(a.drop_last()[i] == k);
    }
}

/// The keys of a map with pairs as keys, in ascending order.
pub fn sorted_pairs<V>(map: &BTreeMap<(u64, u64), V>) -> (keys: Vec<(u64, u64)>)
    ensures
        is_ascending_pairs(keys@, map@.dom()),
        keys@ == ascending_pairs(map@.dom()),
{
    let mut keys: Vec<(u64, u64)> = Vec::new();
    let walk = map.keys();
    let ghost all = walk.remaining();
    for key in iter: walk
        invariant
            iter.seq() == all,
            keys@.len() == iter.index(),
            forall|i: int| 0 <= i < keys@.len() ==> keys@[i] == *all[i],
    {
        keys.push(*key);
    }
    proof {
        let plain = all.unref();
        assert(vstd::laws_cmp::obeys_cmp::<u64>());
        assert(vstd::laws_cmp::obeys_cmp::<(u64, u64)>());
        assert(vstd::laws_cmp::obeys_cmp::<&(u64, u64)>());
        assert(vstd::std_specs::btree::increasing_seq(all));
        assert(keys@ =~= plain);
        assert forall|i: int, j: int| 0 <= i < j < keys@.len() implies pair_less(
            #[trigger] keys@[i],
            #[trigger] keys@[j],
        ) by {
            assert(OrdSpec::cmp_spec(&all[i], &all[j]) is Less);
            assert(OrdSpec::cmp_spec(all[i], all[j]) is Less);
        }
        assert forall|k: (u64, u64)| #[trigger] map@.dom().contains(k) <==> keys@.contains(k) by {
            assert(plain.to_set().contains(k) <==> plain.contains(k));
        }
        assert(is_ascending_pairs(keys@, map@.dom()));
        lemma_ascending_pairs_unique(keys@, ascending_pairs(map@.dom()), map@.dom());
    }
    keys
}

} // verus!
