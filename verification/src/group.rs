//! Grouping of items by a text key, in the order in which the keys are first
//! met.

use vstd::hash_map::StringHashMap;
use vstd::prelude::*;
use vstd::string::*;

verus! {

/// The items that share a key.
pub struct Group<T> {
    pub key: String,
    pub items: Vec<T>,
}

/// The keys of a list of items.
pub open spec fn keys_of<T>(items: Seq<(Seq<char>, T)>) -> Seq<Seq<char>> {
    Seq::new(items.len(), |i: int| items[i].0)
}

/// The texts of a list, each where it is first met.
pub open spec fn firsts(keys: Seq<Seq<char>>) -> Seq<Seq<char>>
    decreases keys.len(),
{
    if keys.len() == 0 {
        Seq::<Seq<char>>::empty()
    } else if firsts(keys.drop_last()).contains(keys.last()) {
        firsts(keys.drop_last())
    } else {
        firsts(keys.drop_last()).push(keys.last())
    }
}

/// The items with a key, in order.
pub open spec fn values_for<T>(items: Seq<(Seq<char>, T)>, key: Seq<char>) -> Seq<T>
    decreases items.len(),
{
    if items.len() == 0 {
        Seq::<T>::empty()
    } else if items.last().0 == key {
        values_for(items.drop_last(), key).push(items.last().1)
    } else {
        values_for(items.drop_last(), key)
    }
}

/// Each key, where it is first met, with its items in order.
pub open spec fn grouped<T>(items: Seq<(Seq<char>, T)>) -> Seq<(Seq<char>, Seq<T>)> {
    let keys = firsts(keys_of(items));
    Seq::new(keys.len(), |i: int| (keys[i], values_for(items, keys[i])))
}

/// The items of a list with the characters of their keys.
pub open spec fn keyed<T>(items: Seq<(String, T)>) -> Seq<(Seq<char>, T)> {
    Seq::new(items.len(), |i: int| (items[i].0@, items[i].1))
}

/// What groups stand for.
pub open spec fn group_models<T>(groups: Seq<Group<T>>) -> Seq<(Seq<char>, Seq<T>)> {
    Seq::new(groups.len(), |i: int| (groups[i].key@, groups[i].items@))
}

/// The weights of the items, added up.
pub open spec fn weigh<T>(items: Seq<T>, weight: spec_fn(T) -> nat) -> nat
    decreases items.len(),
{
    if items.len() == 0 {
        0
    } else {
        weigh(items.drop_last(), weight) + weight(items.last())
    }
}

/// The items of a list without their keys.
pub open spec fn values_of<T>(items: Seq<(Seq<char>, T)>) -> Seq<T> {
    Seq::new(items.len(), |i: int| items[i].1)
}

/// Whether an index finds each of the groups by its key, and nothing else.
spec fn index_fits<T>(index: Map<Seq<char>, usize>, groups: Seq<Group<T>>) -> bool {
    &&& forall|j: int|
        0 <= j < groups.len() ==> index.contains_key(#[trigger] groups[j].key@)
            && index[groups[j].key@] == j
    &&& forall|k: Seq<char>| #[trigger]
        index.contains_key(k) ==> index[k] < groups.len() && groups[index[k] as int].key@ == k
}

/// Groups the items by their keys. A key stands where it is first met, and its
/// items keep their order.
pub fn group<T>(items: Vec<(String, T)>) -> (r: Vec<Group<T>>)
    ensures
        group_models(r@) == grouped(keyed(items@)),
{
    let ghost all = keyed(items@);
    let ghost given = items@;
    let mut index: StringHashMap<usize> = StringHashMap::new();
    let mut groups: Vec<Group<T>> = Vec::new();
    assert(keys_of(all.take(0)) == Seq::<Seq<char>>::empty());
    assert(group_models(groups@) == grouped(all.take(0)));
    for item in it: items
        invariant
            it.seq() == given,
            all == keyed(given),
            index_fits(index@, groups@),
            group_models(groups@) == grouped(all.take(it.index())),
    {
        let ghost so_far = all.take(it.index());
        let ghost next = all.take(it.index() + 1);
        let ghost names = firsts(keys_of(so_far));
        let (key, value) = item;
        proof {
            assert(next.drop_last() == so_far);
            assert(next.last() == (key@, value));
            assert(keys_of(next).drop_last() == keys_of(so_far));
            assert(keys_of(next).last() == key@);
            assert(group_models(groups@).len() == names.len());
            assert forall|j: int| 0 <= j < groups@.len() implies #[trigger] groups@[j].key@ == names[j]
                && groups@[j].items@ == values_for(so_far, names[j]) by {
                assert(group_models(groups@)[j] == grouped(so_far)[j]);
            }
        }
        let ghost before = groups@;
        let at: Option<usize> = match index.get(key.as_str()) {
            Some(i) => Some(*i),
            None => None,
        };
        match at {
            Some(i) => {
                proof {
                    assert(names[i as int] == key@);
                    assert(names.contains(key@));
                }
                groups[i].items.push(value);
                proof {
                    assert forall|j: int| 0 <= j < groups@.len() implies #[trigger] groups@[j].key@
                        == before[j].key@ by {}
                    assert forall|j: int| 0 <= j < groups@.len() implies group_models(groups@)[j]
                        == grouped(next)[j] by {
                        assert(before[j].key@ == names[j]);
                        if j != i {
                            assert(index@[before[j].key@] == j);
                            assert(names[j] != key@);
                        }
                    }
                    assert(group_models(groups@) =~= grouped(next));
                }
            },
            None => {
                proof {
                    if names.contains(key@) {
                        let j = choose|j: int| 0 <= j < names.len() && names[j] == key@;
                        assert(before[j].key@ == key@);
                        assert(index@.contains_key(before[j].key@));
                    }
                    lemma_no_values(so_far, key@);
                }
                let n = groups.len();
                let mut list: Vec<T> = Vec::new();
                list.push(value);
                let name = key.clone();
                index.insert(name, n);
                groups.push(Group { key, items: list });
                proof {
                    assert forall|j: int| 0 <= j < groups@.len() implies group_models(groups@)[j]
                        == grouped(next)[j] by {
                        if j < n {
                            assert(groups@[j] == before[j]);
                            assert(before[j].key@ == names[j]);
                            assert(names.contains(names[j]));
                        } else {
                            assert(groups@[j].items@ == Seq::<T>::empty().push(value));
                        }
                    }
                    assert(group_models(groups@) =~= grouped(next));
                }
            },
        }
    }
    assert(all.take(all.len() as int) == all);
    groups
}

proof fn lemma_no_values<T>(items: Seq<(Seq<char>, T)>, key: Seq<char>)
    requires
        !firsts(keys_of(items)).contains(key),
    ensures
        values_for(items, key) == Seq::<T>::empty(),
    decreases items.len(),
{
    if items.len() > 0 {
        let keys = keys_of(items);
        let front = firsts(keys.drop_last());
        assert(keys.drop_last() == keys_of(items.drop_last()));
        if front.contains(keys.last()) {
            assert(firsts(keys) == front);
        } else {
            let all = front.push(keys.last());
            assert(all[front.len() as int] == keys.last());
            assert(all.contains(keys.last()));
            if front.contains(key) {
                let i = choose|i: int| 0 <= i < front.len() && front[i] == key;
                assert(all[i] == key);
            }
        }
        lemma_no_values(items.drop_last(), key);
    }
}

// ---------------------------------------------------------------------------
// Laws
// ---------------------------------------------------------------------------

/// The items of one group weigh no more than all of them.
pub proof fn group_weighs_no_more<T>(
    items: Seq<(Seq<char>, T)>,
    key: Seq<char>,
    weight: spec_fn(T) -> nat,
)
    ensures
        weigh(values_for(items, key), weight) <= weigh(values_of(items), weight),
    decreases items.len(),
{
    if items.len() > 0 {
        let front = items.drop_last();
        group_weighs_no_more(front, key, weight);
        assert(values_of(items).drop_last() == values_of(front));
        if items.last().0 == key {
            let v = values_for(front, key);
            assert(v.push(items.last().1).drop_last() == v);
        }
    }
}

/// What holds of every item holds of every item of a group.
pub proof fn group_holds_nothing_new<T>(
    items: Seq<(Seq<char>, T)>,
    key: Seq<char>,
    holds: spec_fn(T) -> bool,
)
    requires
        forall|i: int| 0 <= i < items.len() ==> holds((#[trigger] items[i]).1),
    ensures
        forall|i: int|
            0 <= i < values_for(items, key).len() ==> holds(#[trigger] values_for(items, key)[i]),
    decreases items.len(),
{
    if items.len() > 0 {
        let front = items.drop_last();
        assert forall|i: int| 0 <= i < front.len() implies holds((#[trigger] front[i]).1) by {
            assert(front[i] == items[i]);
        }
        group_holds_nothing_new(front, key, holds);
        assert(items[items.len() - 1] == items.last());
        let all = values_for(items, key);
        let some = values_for(front, key);
        assert forall|i: int| 0 <= i < all.len() implies holds(#[trigger] all[i]) by {
            if i < some.len() {
                assert(all[i] == some[i]);
            }
        }
    }
}

/// Items that weigh less one by one weigh less together.
pub proof fn lighter_items_weigh_less<T>(
    items: Seq<T>,
    light: spec_fn(T) -> nat,
    heavy: spec_fn(T) -> nat,
)
    requires
        forall|x: T| #[trigger] light(x) <= heavy(x),
    ensures
        weigh(items, light) <= weigh(items, heavy),
    decreases items.len(),
{
    if items.len() > 0 {
        lighter_items_weigh_less(items.drop_last(), light, heavy);
        assert(light(items.last()) <= heavy(items.last()));
    }
}

/// The first items weigh no more than all of them.
pub proof fn first_items_weigh_no_more<T>(items: Seq<T>, k: int, weight: spec_fn(T) -> nat)
    requires
        0 <= k <= items.len(),
    ensures
        weigh(items.take(k), weight) <= weigh(items, weight),
    decreases items.len(),
{
    if k == items.len() {
        assert(items.take(k) == items);
    } else {
        first_items_weigh_no_more(items.drop_last(), k, weight);
        assert(items.drop_last().take(k) == items.take(k));
    }
}

/// Every item is in the group of its key.
pub proof fn no_item_is_lost<T>(items: Seq<(Seq<char>, T)>, i: int)
    requires
        0 <= i < items.len(),
    ensures
        firsts(keys_of(items)).contains(items[i].0),
        values_for(items, items[i].0).contains(items[i].1),
    decreases items.len(),
{
    let keys = keys_of(items);
    let front = items.drop_last();
    let names = firsts(keys.drop_last());
    assert(keys.drop_last() == keys_of(front));
    let key = items[i].0;
    let inside = values_for(front, key);
    if i < items.len() - 1 {
        no_item_is_lost(front, i);
        assert(front[i] == items[i]);
        let j = choose|j: int| 0 <= j < names.len() && names[j] == key;
        assert(firsts(keys)[j] == key);
        let k = choose|k: int| 0 <= k < inside.len() && inside[k] == items[i].1;
        assert(values_for(items, key)[k] == items[i].1);
    } else {
        assert(values_for(items, key)[inside.len() as int] == items[i].1);
        if !names.contains(key) {
            assert(firsts(keys)[names.len() as int] == key);
        }
    }
}

/// The weights of the groups of some keys, added up.
pub open spec fn weigh_groups<T>(
    keys: Seq<Seq<char>>,
    items: Seq<(Seq<char>, T)>,
    weight: spec_fn(T) -> nat,
) -> nat
    decreases keys.len(),
{
    if keys.len() == 0 {
        0
    } else {
        weigh_groups(keys.drop_last(), items, weight) + weigh(
            values_for(items, keys.last()),
            weight,
        )
    }
}

proof fn lemma_firsts_differ(keys: Seq<Seq<char>>)
    ensures
        firsts(keys).no_duplicates(),
    decreases keys.len(),
{
    if keys.len() > 0 {
        lemma_firsts_differ(keys.drop_last());
        let front = firsts(keys.drop_last());
        if !front.contains(keys.last()) {
            assert forall|i: int, j: int|
                0 <= i < firsts(keys).len() && 0 <= j < firsts(keys).len() && i != j implies firsts(
                keys,
            )[i] != firsts(keys)[j] by {
                if i < front.len() {
                    assert(front.contains(front[i]));
                }
                if j < front.len() {
                    assert(front.contains(front[j]));
                }
            }
        }
    }
}

proof fn lemma_weigh_one_more<T>(
    keys: Seq<Seq<char>>,
    items: Seq<(Seq<char>, T)>,
    weight: spec_fn(T) -> nat,
)
    requires
        items.len() > 0,
        keys.no_duplicates(),
    ensures
        weigh_groups(keys, items, weight) == weigh_groups(keys, items.drop_last(), weight) + if keys.contains(
            items.last().0,
        ) {
            weight(items.last().1)
        } else {
            0
        },
    decreases keys.len(),
{
    if keys.len() > 0 {
        let front = keys.drop_last();
        let key = items.last().0;
        assert(front.no_duplicates());
        lemma_weigh_one_more(front, items, weight);
        let inside = values_for(items.drop_last(), keys.last());
        assert(keys[keys.len() - 1] == keys.last());
        if key == keys.last() {
            assert(inside.push(items.last().1).drop_last() == inside);
            assert(keys.contains(key));
            if front.contains(key) {
                let i = choose|i: int| 0 <= i < front.len() && front[i] == key;
                assert(keys[i] == key);
            }
        } else if front.contains(key) {
            let i = choose|i: int| 0 <= i < front.len() && front[i] == key;
            assert(keys[i] == key);
        } else if keys.contains(key) {
            let i = choose|i: int| 0 <= i < keys.len() && keys[i] == key;
            assert(front[i] == key);
        }
    }
}

/// Grouping neither loses nor adds weight: the groups together weigh what the
/// items weigh.
pub proof fn groups_weigh_what_items_weigh<T>(
    items: Seq<(Seq<char>, T)>,
    weight: spec_fn(T) -> nat,
)
    ensures
        weigh_groups(firsts(keys_of(items)), items, weight) == weigh(values_of(items), weight),
    decreases items.len(),
{
    if items.len() > 0 {
        let front = items.drop_last();
        let keys = keys_of(items);
        let names = firsts(keys.drop_last());
        groups_weigh_what_items_weigh(front, weight);
        assert(keys.drop_last() == keys_of(front));
        assert(values_of(items).drop_last() == values_of(front));
        lemma_firsts_differ(keys.drop_last());
        lemma_weigh_one_more(names, items, weight);
        assert(keys.last() == items.last().0);
        assert(values_of(items).last() == items.last().1);
        if !names.contains(keys.last()) {
            let one = Seq::<T>::empty().push(items.last().1);
            assert(names.push(keys.last()).drop_last() == names);
            lemma_no_values(front, keys.last());
            assert(values_for(items, keys.last()) == one);
            assert(one.drop_last() == Seq::<T>::empty());
            assert(weigh(one, weight) == weigh(one.drop_last(), weight) + weight(items.last().1));
            assert(weigh_groups(firsts(keys), items, weight) == weigh_groups(names, items, weight)
                + weigh(one, weight));
        } else {
            assert(firsts(keys) == names);
        }
    } else {
        assert(keys_of(items).len() == 0);
    }
}

/// What one more item does to the groups: it joins the items of its key, behind
/// those that are there, and no others; a key that is new stands behind the
/// keys that are there.
pub proof fn items_join_their_groups<T>(items: Seq<(Seq<char>, T)>, item: (Seq<char>, T), key: Seq<
    char,
>)
    ensures
        values_for(Seq::<(Seq<char>, T)>::empty(), key).len() == 0,
        item.0 == key ==> values_for(items.push(item), key) == values_for(items, key).push(item.1),
        item.0 != key ==> values_for(items.push(item), key) == values_for(items, key),
        keys_of(items).contains(item.0) ==> firsts(keys_of(items.push(item))) == firsts(
            keys_of(items),
        ),
        !keys_of(items).contains(item.0) ==> firsts(keys_of(items.push(item))) == firsts(
            keys_of(items),
        ).push(item.0),
{
    assert(items.push(item).drop_last() == items);
    assert(keys_of(items.push(item)).drop_last() == keys_of(items));
    assert(keys_of(items.push(item)).last() == item.0);
    keys_stand_once(keys_of(items), item.0);
}

/// Every key stands exactly once among the keys of the groups, and no other
/// text does.
pub proof fn keys_stand_once(keys: Seq<Seq<char>>, key: Seq<char>)
    ensures
        firsts(keys).contains(key) <==> keys.contains(key),
        firsts(keys).no_duplicates(),
    decreases keys.len(),
{
    lemma_firsts_differ(keys);
    if keys.len() > 0 {
        let front = keys.drop_last();
        keys_stand_once(front, key);
        let last = keys.last();
        let some = firsts(front);
        let all = firsts(keys);
        if keys.contains(key) {
            let i = choose|i: int| 0 <= i < keys.len() && keys[i] == key;
            if i < front.len() {
                assert(front[i] == key);
                let k = choose|k: int| 0 <= k < some.len() && some[k] == key;
                assert(all[k] == key);
            } else if !some.contains(last) {
                assert(all[some.len() as int] == key);
            }
        }
        if all.contains(key) {
            let k = choose|k: int| 0 <= k < all.len() && all[k] == key;
            if k < some.len() {
                assert(some[k] == key);
                let i = choose|i: int| 0 <= i < front.len() && front[i] == key;
                assert(keys[i] == key);
            } else {
                assert(keys[keys.len() - 1] == key);
            }
        }
    }
}

/// Weights are added up item by item.
pub proof fn weights_add_up<T>(items: Seq<T>, item: T, weight: spec_fn(T) -> nat)
    ensures
        weigh(items.push(item), weight) == weigh(items, weight) + weight(item),
        weigh(Seq::<T>::empty(), weight) == 0,
{
    assert(items.push(item).drop_last() == items);
}

/// A key has items exactly if it is the key of some item.
pub proof fn only_keys_have_items<T>(items: Seq<(Seq<char>, T)>, key: Seq<char>)
    ensures
        values_for(items, key).len() > 0 <==> keys_of(items).contains(key),
    decreases items.len(),
{
    if items.len() > 0 {
        let front = items.drop_last();
        only_keys_have_items(front, key);
        if keys_of(items).contains(key) {
            let i = choose|i: int| 0 <= i < items.len() && keys_of(items)[i] == key;
            if i < front.len() {
                assert(keys_of(front)[i] == key);
            }
        }
        if values_for(items, key).len() > 0 {
            if items.last().0 == key {
                assert(keys_of(items)[items.len() - 1] == key);
            } else {
                let i = choose|i: int| 0 <= i < front.len() && keys_of(front)[i] == key;
                assert(keys_of(items)[i] == key);
            }
        }
    }
}

/// There is a group for every key, once, where the key is first met; it holds
/// what has the key. Items and groups stand for their characters.
pub proof fn every_key_has_its_group<T>(
    items: Seq<(Seq<char>, T)>,
    raw: Seq<(String, T)>,
    groups: Seq<Group<T>>,
    i: int,
)
    ensures
        grouped(items).len() == firsts(keys_of(items)).len(),
        0 <= i < grouped(items).len() ==> grouped(items)[i].0 == firsts(keys_of(items))[i]
            && grouped(items)[i].1 == values_for(items, firsts(keys_of(items))[i]),
        keyed(raw).len() == raw.len(),
        0 <= i < raw.len() ==> keyed(raw)[i].0 == raw[i].0@ && keyed(raw)[i].1 == raw[i].1,
        group_models(groups).len() == groups.len(),
        0 <= i < groups.len() ==> group_models(groups)[i].0 == groups[i].key@ && group_models(
            groups,
        )[i].1 == groups[i].items@,
{
}

} // verus!
