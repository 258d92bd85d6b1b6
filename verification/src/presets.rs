//! Saved transfers: named sets of options.

use crate::sort;
use crate::sort::{arrange, sort_by_rank, ByName};
use crate::text;
use crate::text::{same_text, to_lower};
use vstd::prelude::*;
use vstd::string::*;

verus! {

/// A saved set of options.
#[derive(Debug, Clone)]
pub struct Preset {
    pub name: String,
    pub sources: Vec<String>,
    pub dests: Vec<String>,
    pub hash: String,
    pub verify: bool,
    pub skip_existing: bool,
    pub include_ext: Option<String>,
    pub exclude_ext: Option<String>,
    pub min_size: Option<String>,
    pub max_size: Option<String>,
    pub newer_than: Option<String>,
    pub older_than: Option<String>,
    pub exclude_paths: Vec<String>,
    pub owner_only: bool,
    pub dest_template: Option<String>,
    pub project: Option<String>,
    pub write_manifest: bool,
}

/// The presets that do not have a name.
pub open spec fn without(presets: Seq<Preset>, name: Seq<char>) -> Seq<Preset>
    decreases presets.len(),
{
    if presets.len() == 0 {
        Seq::<Preset>::empty()
    } else if presets.last().name@ == name {
        without(presets.drop_last(), name)
    } else {
        without(presets.drop_last(), name).push(presets.last())
    }
}

/// The names of the presets as they are sorted.
pub open spec fn lower_names(presets: Seq<Preset>) -> Seq<Seq<char>> {
    Seq::new(presets.len(), |i: int| text::lowercase(presets[i].name@))
}

/// The presets in the order of their names. Letter case does not count.
pub open spec fn by_name(presets: Seq<Preset>) -> Seq<Preset> {
    sort::arranged(
        presets,
        sort::sorted_order(presets.len(), sort::dictionary_order(lower_names(presets))),
        presets.len(),
    )
}

/// The presets with one saved: it takes the place of those with its name.
pub open spec fn saved(presets: Seq<Preset>, preset: Preset) -> Seq<Preset> {
    by_name(without(presets, preset.name@).push(preset))
}

/// The presets without those that have a name.
pub fn delete_preset(presets: Vec<Preset>, name: &str) -> (r: Vec<Preset>)
    ensures
        r@ == without(presets@, name@),
{
    let ghost all = presets@;
    let mut r: Vec<Preset> = Vec::new();
    assert(all.take(0) == Seq::<Preset>::empty());
    for p in it: presets
        invariant
            it.seq() == all,
            r@ == without(all.take(it.index()), name@),
    {
        let ghost next = all.take(it.index() + 1);
        assert(next.drop_last() == all.take(it.index()));
        assert(next.last() == p);
        if !same_text(p.name.as_str(), name) {
            r.push(p);
        }
    }
    assert(all.take(all.len() as int) == all);
    r
}

/// Saves a preset. It takes the place of one with the same name, and the list
/// stays in the order of the names, whatever their letter case.
pub fn save_preset(presets: Vec<Preset>, preset: Preset) -> (r: Vec<Preset>)
    ensures
        r@ == saved(presets@, preset),
{
    let name = preset.name.clone();
    let mut list = delete_preset(presets, name.as_str());
    list.push(preset);
    let n = list.len();
    let ghost all = list@;
    let mut names: Vec<String> = Vec::new();
    let mut i: usize = 0;
    assert(text::texts(names@) == lower_names(all).take(0));
    while i < n
        invariant
            all == list@,
            n == list@.len(),
            i <= n,
            text::texts(names@) == lower_names(all).take(i as int),
        decreases n - i,
    {
        let ghost before = text::texts(names@);
        let low = to_lower(list[i].name.as_str());
        let ghost model = low@;
        names.push(low);
        i += 1;
        assert(text::texts(names@) == before.push(model));
        assert(lower_names(all).take(i as int) == before.push(model));
    }
    assert(lower_names(all).take(n as int) == lower_names(all));
    assert(text::texts(names@).len() == names@.len());
    let rank = ByName { names };
    let order = sort_by_rank(&rank, n);
    let ghost le = sort::dictionary_order(lower_names(all));
    let ghost ps = sort::positions(order@);
    proof {
        sort::Ranking::ranks(&rank);
        assert forall|a: int| 0 <= a < order@.len() implies (#[trigger] order@[a]) < list@.len() by {
            assert(ps[a] == order@[a]);
        }
        assert forall|a: int, b: int| 0 <= a < b < order@.len() implies #[trigger] order@[a]
            != #[trigger] order@[b] by {
            assert(ps[a] == order@[a] && ps[b] == order@[b]);
            assert(sort::precedes(le, ps[a], ps[b]));
            assert(le(ps[a], ps[a]) || le(ps[a], ps[a]));
        }
    }
    arrange(list, &order, n)
}

// ---------------------------------------------------------------------------
// Laws
// ---------------------------------------------------------------------------

/// A deleted name is gone, and every preset with another name is still there.
pub proof fn deleting_removes_just_the_name(presets: Seq<Preset>, name: Seq<char>)
    ensures
        forall|i: int|
            0 <= i < without(presets, name).len() ==> (#[trigger] without(presets, name)[i]).name@
                != name && presets.contains(without(presets, name)[i]),
        forall|i: int|
            0 <= i < presets.len() && (#[trigger] presets[i]).name@ != name ==> without(
                presets,
                name,
            ).contains(presets[i]),
    decreases presets.len(),
{
    if presets.len() > 0 {
        let front = presets.drop_last();
        deleting_removes_just_the_name(front, name);
        let some = without(front, name);
        let all = without(presets, name);
        assert forall|i: int| 0 <= i < all.len() implies (#[trigger] all[i]).name@ != name
            && presets.contains(all[i]) by {
            if i < some.len() {
                assert(all[i] == some[i]);
                let k = choose|k: int| 0 <= k < front.len() && front[k] == some[i];
                assert(presets[k] == all[i]);
            } else {
                assert(presets[presets.len() - 1] == all[i]);
            }
        }
        assert forall|i: int| 0 <= i < presets.len() && (#[trigger] presets[i]).name@ != name implies all.contains(
            presets[i],
        ) by {
            if i < front.len() {
                assert(front[i] == presets[i]);
                let k = choose|k: int| 0 <= k < some.len() && some[k] == front[i];
                assert(all[k] == presets[i]);
            } else {
                assert(all[some.len() as int] == presets[i]);
            }
        }
    }
}

/// A saved preset is the only one with its name, every preset with another
/// name is kept, and the names stand in order.
pub proof fn saving_replaces_the_name(presets: Seq<Preset>, preset: Preset)
    ensures
        saved(presets, preset).contains(preset),
        forall|i: int|
            0 <= i < saved(presets, preset).len() && (#[trigger] saved(presets, preset)[i]).name@
                == preset.name@ ==> saved(presets, preset)[i] == preset,
        forall|i: int|
            0 <= i < presets.len() && (#[trigger] presets[i]).name@ != preset.name@ ==> saved(
                presets,
                preset,
            ).contains(presets[i]),
        forall|a: int, b: int|
            0 <= a < b < saved(presets, preset).len() ==> text::text_le(
                text::lowercase((#[trigger] saved(presets, preset)[a]).name@),
                text::lowercase((#[trigger] saved(presets, preset)[b]).name@),
            ),
{
    let rest = without(presets, preset.name@);
    let list = rest.push(preset);
    let names = lower_names(list);
    let le = sort::dictionary_order(names);
    let n = list.len() as int;
    lemma_names_rank(names);
    sort::ranking_has_an_order(le, n);
    let order = sort::sorted_order(list.len(), le);
    let r = saved(presets, preset);
    deleting_removes_just_the_name(presets, preset.name@);
    assert(list[n - 1] == preset);
    lemma_arranged_has(le, order, list, n - 1);
    assert forall|i: int| 0 <= i < r.len() && (#[trigger] r[i]).name@ == preset.name@ implies r[i]
        == preset by {
        assert(r[i] == list[order[i]]);
        if order[i] < rest.len() {
            assert(list[order[i]] == rest[order[i]]);
        }
    }
    assert forall|i: int| 0 <= i < presets.len() && (#[trigger] presets[i]).name@
        != preset.name@ implies r.contains(presets[i]) by {
        let k = choose|k: int| 0 <= k < rest.len() && rest[k] == presets[i];
        assert(list[k] == presets[i]);
        lemma_arranged_has(le, order, list, k);
    }
    assert forall|a: int, b: int| 0 <= a < b < r.len() implies text::text_le(
        text::lowercase((#[trigger] r[a]).name@),
        text::lowercase((#[trigger] r[b]).name@),
    ) by {
        assert(sort::precedes(le, order[a], order[b]));
        assert(le(order[a], order[b]) || le(order[b], order[a]));
        assert(names[order[a]] == text::lowercase(r[a].name@));
        assert(names[order[b]] == text::lowercase(r[b].name@));
    }
}

/// Saving loses no preset but those it replaces, and repeats none: the list is
/// a rearrangement of the others and the saved one.
pub proof fn saving_rearranges(presets: Seq<Preset>, preset: Preset)
    ensures
        saved(presets, preset).to_multiset() == without(presets, preset.name@).push(
            preset,
        ).to_multiset(),
{
    let list = without(presets, preset.name@).push(preset);
    let names = lower_names(list);
    let le = sort::dictionary_order(names);
    lemma_names_rank(names);
    sort::ranking_has_an_order(le, list.len() as int);
    sort::arranging_loses_nothing(list, le, sort::sorted_order(list.len(), le));
}

/// Saving a preset a second time changes nothing.
pub proof fn saving_twice_changes_nothing(presets: Seq<Preset>, preset: Preset)
    ensures
        saved(saved(presets, preset), preset) == saved(presets, preset),
{
    let list = without(presets, preset.name@).push(preset);
    let n = list.len() as int;
    let le = sort::dictionary_order(lower_names(list));
    lemma_names_rank(lower_names(list));
    sort::ranking_has_an_order(le, n);
    let order = sort::sorted_order(list.len(), le);
    let s = saved(presets, preset);
    let k = lemma_saved_place(presets, preset);
    let again = s.remove(k).push(preset);
    let next = sort::dictionary_order(lower_names(again));
    lemma_names_rank(lower_names(again));
    sort::ranking_has_an_order(next, n);
    let back = Seq::new(
        list.len(),
        |i: int|
            if i < k {
                i
            } else if i == k {
                n - 1
            } else {
                i - 1
            },
    );
    assert forall|a: int| 0 <= a < n implies again[#[trigger] back[a]] == s[a] by {}
    assert forall|a: int, b: int| 0 <= a < b < n implies sort::precedes(
        next,
        #[trigger] back[a],
        #[trigger] back[b],
    ) by {
        assert(again[back[a]] == s[a] && again[back[b]] == s[b]);
        assert(s[a] == list[order[a]] && s[b] == list[order[b]]);
        assert(next(back[a], back[b]) == le(order[a], order[b]));
        assert(next(back[b], back[a]) == le(order[b], order[a]));
        assert(sort::precedes(le, order[a], order[b]));
        assert(le(order[a], order[b]) || le(order[b], order[a]));
    }
    sort::order_is_unique(next, n, back, sort::sorted_order(again.len(), next));
    assert(sort::arranged(again, back, again.len()) == s);
}

/// Deleting what was saved leaves the presets with other names, each as often
/// as before.
pub proof fn deleting_undoes_saving(presets: Seq<Preset>, preset: Preset)
    ensures
        without(saved(presets, preset), preset.name@).to_multiset() == without(
            presets,
            preset.name@,
        ).to_multiset(),
{
    let rest = without(presets, preset.name@);
    let s = saved(presets, preset);
    let k = lemma_saved_place(presets, preset);
    saving_rearranges(presets, preset);
    s.to_multiset_ensures();
    rest.to_multiset_ensures();
    assert(s.remove(k).to_multiset() == s.to_multiset().remove(preset));
    assert(rest.to_multiset().insert(preset).remove(preset) == rest.to_multiset());
}

/// Where the saved preset stands: it comes last of those that it is sorted on
/// a par with, and dropping its name drops just it.
proof fn lemma_saved_place(presets: Seq<Preset>, preset: Preset) -> (k: int)
    ensures
        ({
            let list = without(presets, preset.name@).push(preset);
            let le = sort::dictionary_order(lower_names(list));
            let s = saved(presets, preset);
            &&& 0 <= k < s.len()
            &&& s.len() == list.len()
            &&& s[k] == preset
            &&& sort::sorted_order(list.len(), le)[k] == list.len() - 1
            &&& without(s, preset.name@) == s.remove(k)
        }),
{
    let rest = without(presets, preset.name@);
    let list = rest.push(preset);
    let n = list.len() as int;
    let le = sort::dictionary_order(lower_names(list));
    lemma_names_rank(lower_names(list));
    sort::ranking_has_an_order(le, n);
    let order = sort::sorted_order(list.len(), le);
    let s = saved(presets, preset);
    sort::order_lists_all(le, n, order, n - 1);
    let k = choose|k: int| 0 <= k < order.len() && order[k] == n - 1;
    deleting_removes_just_the_name(presets, preset.name@);
    assert forall|i: int| 0 <= i < s.len() && i != k implies (#[trigger] s[i]).name@
        != preset.name@ by {
        if i < k {
            assert(sort::precedes(le, order[i], order[k]));
        } else {
            assert(sort::precedes(le, order[k], order[i]));
        }
        assert(le(n - 1, n - 1) || le(n - 1, n - 1));
        assert(order[i] < rest.len());
        assert(list[order[i]] == rest[order[i]]);
    }
    lemma_without_one(s, k, preset.name@);
    k
}

proof fn lemma_without_none(presets: Seq<Preset>, name: Seq<char>)
    requires
        forall|i: int| 0 <= i < presets.len() ==> (#[trigger] presets[i]).name@ != name,
    ensures
        without(presets, name) == presets,
    decreases presets.len(),
{
    if presets.len() > 0 {
        let front = presets.drop_last();
        assert forall|i: int| 0 <= i < front.len() implies (#[trigger] front[i]).name@ != name by {
            assert(front[i] == presets[i]);
        }
        lemma_without_none(front, name);
        assert(presets.last() == presets[presets.len() - 1]);
        assert(front.push(presets.last()) == presets);
    } else {
        assert(presets == Seq::<Preset>::empty());
    }
}

proof fn lemma_without_one(presets: Seq<Preset>, k: int, name: Seq<char>)
    requires
        0 <= k < presets.len(),
        presets[k].name@ == name,
        forall|i: int|
            0 <= i < presets.len() && i != k ==> (#[trigger] presets[i]).name@ != name,
    ensures
        without(presets, name) == presets.remove(k),
    decreases presets.len(),
{
    let front = presets.drop_last();
    assert forall|i: int| 0 <= i < front.len() && i != k implies (#[trigger] front[i]).name@
        != name by {
        assert(front[i] == presets[i]);
    }
    assert(presets.last() == presets[presets.len() - 1]);
    if k == presets.len() - 1 {
        lemma_without_none(front, name);
        assert(presets.remove(k) == front);
    } else {
        lemma_without_one(front, k, name);
        assert(front.remove(k).push(presets.last()) == presets.remove(k));
    }
}

/// Texts can be ranked.
proof fn lemma_names_rank(names: Seq<Seq<char>>)
    ensures
        sort::is_ranking(names.len() as int, sort::dictionary_order(names)),
{
    let n = names.len() as int;
    let le = sort::dictionary_order(names);
    assert forall|i: int, j: int| 0 <= i < n && 0 <= j < n implies le(i, j)
        || #[trigger] le(j, i) by {
        sort::text_order_is_total(names[i], names[j]);
    }
    assert forall|i: int, j: int, k: int|
        0 <= i < n && 0 <= j < n && 0 <= k < n && #[trigger] le(i, j)
            && #[trigger] le(j, k) implies le(i, k) by {
        sort::text_order_carries(names[i], names[j], names[k]);
    }
}

/// Every item is somewhere in its arrangement.
proof fn lemma_arranged_has(
    le: spec_fn(int, int) -> bool,
    order: Seq<int>,
    list: Seq<Preset>,
    k: int,
)
    requires
        sort::is_ranking(list.len() as int, le),
        sort::is_order(le, order, 0, list.len() as int),
        0 <= k < list.len(),
    ensures
        sort::arranged(list, order, list.len()).contains(list[k]),
{
    sort::order_lists_all(le, list.len() as int, order, k);
    let at = choose|at: int| 0 <= at < order.len() && order[at] == k;
    assert(sort::arranged(list, order, list.len())[at] == list[k]);
}

/// Deleting decides preset by preset and keeps the order: what is left of two
/// lists is left of each of them, one with the name leaves nothing and one with
/// another name stays.
pub proof fn presets_are_deleted_one_by_one(a: Seq<Preset>, b: Seq<Preset>, p: Preset, name: Seq<char>)
    ensures
        without(a + b, name) == without(a, name) + without(b, name),
        p.name@ == name ==> without(seq![p], name).len() == 0,
        p.name@ != name ==> without(seq![p], name) == seq![p],
    decreases b.len(),
{
    reveal_with_fuel(without, 2);
    assert(seq![p].drop_last() == Seq::<Preset>::empty());
    assert(Seq::<Preset>::empty().push(p) == seq![p]);
    if b.len() == 0 {
        assert(a + b == a);
        assert(without(a, name) + without(b, name) == without(a, name));
    } else {
        presets_are_deleted_one_by_one(a, b.drop_last(), p, name);
        assert((a + b).drop_last() == a + b.drop_last());
        let x = without(a, name);
        let y = without(b.drop_last(), name);
        assert((x + y).push(b.last()) == x + y.push(b.last()));
    }
}

} // verus!
