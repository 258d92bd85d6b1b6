//! Stable sorting by a rank. A sort yields the order of the positions, so that
//! it works for items of any kind.

use crate::text;
use crate::text::to_chars;
use vstd::prelude::*;

verus! {

/// Whether position `i` comes strictly before `j`: it ranks first, or they
/// rank alike and `i` stands first.
pub open spec fn precedes(le: spec_fn(int, int) -> bool, i: int, j: int) -> bool {
    !le(j, i) || (le(i, j) && i < j)
}

/// Whether `le` ranks the positions below `n`: any two can be compared, and
/// what ranks before a third by way of a second ranks before it.
pub open spec fn is_ranking(n: int, le: spec_fn(int, int) -> bool) -> bool {
    &&& forall|i: int, j: int| 0 <= i < n && 0 <= j < n ==> le(i, j) || #[trigger] le(j, i)
    &&& forall|i: int, j: int, k: int|
        0 <= i < n && 0 <= j < n && 0 <= k < n && #[trigger] le(i, j) && #[trigger] le(j, k) ==> le(
            i,
            k,
        )
}

/// Whether `order` lists the positions from `from` up to `to`, each before all
/// that follow it.
pub open spec fn is_order(
    le: spec_fn(int, int) -> bool,
    order: Seq<int>,
    from: int,
    to: int,
) -> bool {
    &&& order.len() == to - from
    &&& forall|a: int| 0 <= a < order.len() ==> from <= #[trigger] order[a] < to
    &&& forall|a: int, b: int|
        0 <= a < b < order.len() ==> precedes(le, #[trigger] order[a], #[trigger] order[b])
}

/// The positions below `n` in the order of their rank; positions that rank
/// alike keep their order.
pub open spec fn sorted_order(n: nat, le: spec_fn(int, int) -> bool) -> Seq<int> {
    choose|order: Seq<int>| is_order(le, order, 0, n as int)
}

/// The items in an order, up to `keep` of them.
pub open spec fn arranged<T>(items: Seq<T>, order: Seq<int>, keep: nat) -> Seq<T> {
    Seq::new(
        if keep < order.len() {
            keep
        } else {
            order.len()
        },
        |i: int| items[order[i]],
    )
}

/// The positions of a list, as integers.
pub open spec fn positions(v: Seq<usize>) -> Seq<int> {
    Seq::new(v.len(), |i: int| v[i] as int)
}

/// A way to rank the positions of a list.
pub trait Ranking {
    /// How many positions there are.
    spec fn count(&self) -> nat;

    /// Whether the first position ranks before the second, or like it.
    spec fn le(&self) -> spec_fn(int, int) -> bool;

    /// Any two positions can be compared, and ranks carry over.
    proof fn ranks(&self)
        ensures
            is_ranking(self.count() as int, self.le()),
    ;

    /// Whether position `i` ranks before `j`, or like it.
    fn not_after(&self, i: usize, j: usize) -> (r: bool)
        requires
            i < self.count(),
            j < self.count(),
        ensures
            r == (self.le())(i as int, j as int),
    ;
}

proof fn lemma_precedes_carries(le: spec_fn(int, int) -> bool, n: int, i: int, j: int, k: int)
    requires
        is_ranking(n, le),
        0 <= i < n,
        0 <= j < n,
        0 <= k < n,
        precedes(le, i, j),
        precedes(le, j, k),
    ensures
        precedes(le, i, k),
{
    assert(le(i, j) || le(j, i));
    assert(le(j, k) || le(k, j));
    assert(le(i, k) || le(k, i));
    if le(k, i) {
        if le(i, j) {
            assert(le(k, j));
        }
        if le(j, k) {
            assert(le(j, i));
        }
    }
}

/// Merges two orders, the second of which lists later positions.
fn merge<R: Ranking>(
    rank: &R,
    left: &Vec<usize>,
    right: &Vec<usize>,
    Ghost(from): Ghost<int>,
    Ghost(mid): Ghost<int>,
    Ghost(to): Ghost<int>,
) -> (r: Vec<usize>)
    requires
        0 <= from <= mid <= to <= rank.count(),
        is_order(rank.le(), positions(left@), from, mid),
        is_order(rank.le(), positions(right@), mid, to),
    ensures
        is_order(rank.le(), positions(r@), from, to),
{
    let ghost le = rank.le();
    let ghost n = rank.count() as int;
    let ghost ls = positions(left@);
    let ghost rs = positions(right@);
    let mut out: Vec<usize> = Vec::new();
    let mut i: usize = 0;
    let mut j: usize = 0;
    proof {
        rank.ranks();
    }
    while i < left.len() || j < right.len()
        invariant
            0 <= from <= mid <= to <= n,
            n == rank.count(),
            le == rank.le(),
            is_ranking(n, le),
            ls == positions(left@),
            rs == positions(right@),
            is_order(le, ls, from, mid),
            is_order(le, rs, mid, to),
            i <= left@.len(),
            j <= right@.len(),
            out@.len() == i + j,
            forall|a: int| 0 <= a < out@.len() ==> from <= #[trigger] positions(out@)[a] < to,
            forall|a: int, b: int|
                0 <= a < b < out@.len() ==> precedes(
                    le,
                    #[trigger] positions(out@)[a],
                    #[trigger] positions(out@)[b],
                ),
            forall|a: int, b: int|
                0 <= a < out@.len() && i <= b < ls.len() ==> precedes(
                    le,
                    #[trigger] positions(out@)[a],
                    #[trigger] ls[b],
                ),
            forall|a: int, b: int|
                0 <= a < out@.len() && j <= b < rs.len() ==> precedes(
                    le,
                    #[trigger] positions(out@)[a],
                    #[trigger] rs[b],
                ),
        decreases left@.len() - i + right@.len() - j,
    {
        let ghost before = positions(out@);
        let take_left = if i >= left.len() {
            false
        } else if j >= right.len() {
            true
        } else {
            assert(ls[i as int] < mid <= rs[j as int]);
            rank.not_after(left[i], right[j])
        };
        if take_left {
            let x = left[i];
            assert(ls[i as int] == x);
            proof {
                assert forall|b: int| j <= b < rs.len() implies precedes(le, x as int, #[trigger] rs[b]) by {
                    assert(ls[i as int] < mid <= rs[j as int]);
                    assert(precedes(le, x as int, rs[j as int]));
                    if b > j {
                        lemma_precedes_carries(le, n, x as int, rs[j as int], rs[b]);
                    }
                }
            }
            out.push(x);
            i += 1;
            assert(positions(out@) == before.push(x as int));
        } else {
            let y = right[j];
            assert(rs[j as int] == y);
            proof {
                assert forall|b: int| i <= b < ls.len() implies precedes(le, y as int, #[trigger] ls[b]) by {
                    assert(precedes(le, y as int, ls[i as int]));
                    if b > i {
                        lemma_precedes_carries(le, n, y as int, ls[i as int], ls[b]);
                    }
                }
            }
            out.push(y);
            j += 1;
            assert(positions(out@) == before.push(y as int));
        }
    }
    out
}

/// The positions from `from` up to `to` in the order of their rank.
fn sort_range<R: Ranking>(rank: &R, from: usize, to: usize) -> (r: Vec<usize>)
    requires
        from <= to <= rank.count(),
    ensures
        is_order(rank.le(), positions(r@), from as int, to as int),
    decreases to - from,
{
    if to - from <= 1 {
        let mut r: Vec<usize> = Vec::new();
        if from < to {
            r.push(from);
        }
        r
    } else {
        let mid: usize = from + (to - from) / 2;
        let left = sort_range(rank, from, mid);
        let right = sort_range(rank, mid, to);
        merge(rank, &left, &right, Ghost(from as int), Ghost(mid as int), Ghost(to as int))
    }
}

/// The positions in the order of their rank; positions that rank alike keep
/// their order.
pub fn sort_by_rank<R: Ranking>(rank: &R, n: usize) -> (r: Vec<usize>)
    requires
        n == rank.count(),
    ensures
        positions(r@) == sorted_order(rank.count(), rank.le()),
        is_order(rank.le(), positions(r@), 0, n as int),
{
    let r = sort_range(rank, 0, n);
    proof {
        let chosen = sorted_order(rank.count(), rank.le());
        assert(is_order(rank.le(), positions(r@), 0, n as int));
        assert(is_order(rank.le(), chosen, 0, n as int));
        rank.ranks();
        order_is_unique(rank.le(), n as int, positions(r@), chosen);
    }
    r
}

/// Moves the items into an order and keeps the first `keep` of them.
pub fn arrange<T>(items: Vec<T>, order: &Vec<usize>, keep: usize) -> (r: Vec<T>)
    requires
        forall|a: int| 0 <= a < order@.len() ==> (#[trigger] order@[a]) < items@.len(),
        forall|a: int, b: int|
            0 <= a < b < order@.len() ==> #[trigger] order@[a] != #[trigger] order@[b],
    ensures
        r@ == arranged(items@, positions(order@), keep as nat),
{
    let ghost all = items@;
    let mut slots: Vec<Option<T>> = Vec::new();
    for x in it: items
        invariant
            it.seq() == all,
            slots@.len() == it.index(),
            forall|k: int| 0 <= k < slots@.len() ==> #[trigger] slots@[k] == Some(all[k]),
    {
        slots.push(Some(x));
    }
    let mut r: Vec<T> = Vec::new();
    let mut i: usize = 0;
    while i < order.len() && i < keep
        invariant
            i <= order@.len(),
            i <= keep,
            slots@.len() == all.len(),
            forall|a: int| 0 <= a < order@.len() ==> (#[trigger] order@[a]) < all.len(),
            forall|a: int, b: int|
                0 <= a < b < order@.len() ==> #[trigger] order@[a] != #[trigger] order@[b],
            forall|a: int|
                i <= a < order@.len() ==> #[trigger] slots@[order@[a] as int] == Some(
                    all[order@[a] as int],
                ),
            r@.len() == i,
            forall|a: int| 0 <= a < i ==> #[trigger] r@[a] == all[order@[a] as int],
        decreases order@.len() - i,
    {
        let at = order[i];
        let mut taken: Option<T> = None;
        let ghost before = slots@;
        core::mem::swap(&mut slots[at], &mut taken);
        proof {
            assert(taken == Some(all[at as int]));
            assert forall|a: int| i + 1 <= a < order@.len() implies #[trigger] slots@[order@[a] as int]
                == Some(all[order@[a] as int]) by {
                assert(order@[a] != order@[i as int]);
                assert(before[order@[a] as int] == Some(all[order@[a] as int]));
            }
        }
        match taken {
            Some(x) => {
                r.push(x);
            },
            None => {},
        }
        i += 1;
    }
    assert(r@ == arranged(all, positions(order@), keep as nat));
    r
}

// ---------------------------------------------------------------------------
// Ranks
// ---------------------------------------------------------------------------

/// Larger sizes rank first.
pub open spec fn larger_first(sizes: Seq<u64>) -> spec_fn(int, int) -> bool {
    |i: int, j: int| sizes[i] >= sizes[j]
}

/// Ranks positions by size, the largest first.
pub struct BySize {
    pub sizes: Vec<u64>,
}

impl Ranking for BySize {
    open spec fn count(&self) -> nat {
        self.sizes@.len()
    }

    open spec fn le(&self) -> spec_fn(int, int) -> bool {
        larger_first(self.sizes@)
    }

    proof fn ranks(&self) {
    }

    fn not_after(&self, i: usize, j: usize) -> (r: bool) {
        self.sizes[i] >= self.sizes[j]
    }
}

/// Moves the items into the order of their sizes, the largest first, and keeps
/// the first `keep` of them. Items of one size keep their order.
pub fn largest_first<T>(items: Vec<T>, sizes: Vec<u64>, keep: usize) -> (r: Vec<T>)
    requires
        sizes@.len() == items@.len(),
    ensures
        r@ == arranged(items@, sorted_order(sizes@.len(), larger_first(sizes@)), keep as nat),
        is_order(
            larger_first(sizes@),
            sorted_order(sizes@.len(), larger_first(sizes@)),
            0,
            sizes@.len() as int,
        ),
{
    let n = items.len();
    let ghost le = larger_first(sizes@);
    let rank = BySize { sizes };
    let order = sort_by_rank(&rank, n);
    let ghost ps = positions(order@);
    proof {
        assert forall|a: int| 0 <= a < order@.len() implies (#[trigger] order@[a]) < items@.len() by {
            assert(ps[a] == order@[a]);
        }
        assert forall|a: int, b: int| 0 <= a < b < order@.len() implies #[trigger] order@[a]
            != #[trigger] order@[b] by {
            assert(ps[a] == order@[a] && ps[b] == order@[b]);
            assert(precedes(le, ps[a], ps[b]));
        }
    }
    arrange(items, &order, keep)
}

/// Texts rank in dictionary order of their code points.
pub open spec fn dictionary_order(names: Seq<Seq<char>>) -> spec_fn(int, int) -> bool {
    |i: int, j: int| text::text_le(names[i], names[j])
}

/// Ranks positions by text, in dictionary order.
pub struct ByName {
    pub names: Vec<String>,
}

impl Ranking for ByName {
    open spec fn count(&self) -> nat {
        self.names@.len()
    }

    open spec fn le(&self) -> spec_fn(int, int) -> bool {
        dictionary_order(text::texts(self.names@))
    }

    proof fn ranks(&self) {
        let names = text::texts(self.names@);
        let le = self.le();
        assert forall|i: int, j: int|
            0 <= i < names.len() && 0 <= j < names.len() implies le(i, j) || #[trigger] le(j, i) by {
            text_order_is_total(names[i], names[j]);
        }
        assert forall|i: int, j: int, k: int|
            0 <= i < names.len() && 0 <= j < names.len() && 0 <= k < names.len()
                && #[trigger] le(i, j) && #[trigger] le(j, k) implies le(i, k) by {
            text_order_carries(names[i], names[j], names[k]);
        }
    }

    fn not_after(&self, i: usize, j: usize) -> (r: bool) {
        assert(text::texts(self.names@)[i as int] == self.names@[i as int]@);
        assert(text::texts(self.names@)[j as int] == self.names@[j as int]@);
        not_after_text(self.names[i].as_str(), self.names[j].as_str())
    }
}

/// Whether `a` stands at or before `b` in dictionary order of code points.
pub fn not_after_text(a: &str, b: &str) -> (r: bool)
    ensures
        r == text::text_le(a@, b@),
{
    let x = to_chars(a);
    let y = to_chars(b);
    let mut i: usize = 0;
    assert(a@.skip(0) == a@);
    assert(b@.skip(0) == b@);
    while i < x.len() && i < y.len()
        invariant
            x@ == a@,
            y@ == b@,
            i <= x@.len(),
            i <= y@.len(),
            text::text_le(a@, b@) == text::text_le(a@.skip(i as int), b@.skip(i as int)),
        decreases x@.len() - i,
    {
        assert(a@.skip(i as int)[0] == x@[i as int]);
        assert(b@.skip(i as int)[0] == y@[i as int]);
        if x[i] != y[i] {
            return x[i] < y[i];
        }
        assert(a@.skip(i as int).skip(1) == a@.skip(i + 1));
        assert(b@.skip(i as int).skip(1) == b@.skip(i + 1));
        i += 1;
    }
    i >= x.len()
}

// ---------------------------------------------------------------------------
// Laws
// ---------------------------------------------------------------------------

/// Of two texts one stands at or before the other.
pub proof fn text_order_is_total(a: Seq<char>, b: Seq<char>)
    ensures
        text::text_le(a, b) || text::text_le(b, a),
    decreases a.len(),
{
    if a.len() == 0 {
        assert(text::text_le(a, b));
    } else if b.len() == 0 {
        assert(text::text_le(b, a));
    } else if a[0] == b[0] {
        text_order_is_total(a.skip(1), b.skip(1));
        assert(text::text_le(a, b) == text::text_le(a.skip(1), b.skip(1)));
        assert(text::text_le(b, a) == text::text_le(b.skip(1), a.skip(1)));
    } else {
        assert(a[0] < b[0] || b[0] < a[0]);
    }
}

/// A text at or before a second, which is at or before a third, is at or
/// before the third.
pub proof fn text_order_carries(a: Seq<char>, b: Seq<char>, c: Seq<char>)
    requires
        text::text_le(a, b),
        text::text_le(b, c),
    ensures
        text::text_le(a, c),
    decreases a.len(),
{
    if a.len() > 0 && b.len() > 0 && c.len() > 0 && a[0] == b[0] && b[0] == c[0] {
        text_order_carries(a.skip(1), b.skip(1), c.skip(1));
    }
}

/// An order of positions leaves none out.
pub proof fn order_lists_all(le: spec_fn(int, int) -> bool, n: int, order: Seq<int>, x: int)
    requires
        is_ranking(n, le),
        is_order(le, order, 0, n),
        0 <= x < n,
    ensures
        order.contains(x),
{
    assert(order.no_duplicates()) by {
        assert forall|a: int, b: int| 0 <= a < b < order.len() implies order[a] != order[b] by {
            assert(precedes(le, order[a], order[b]));
            assert(le(order[a], order[a]) || le(order[a], order[a]));
        }
    }
    let listed = order.to_set();
    let all = vstd::set_lib::set_int_range(0, n);
    vstd::set_lib::lemma_int_range(0, n);
    order.unique_seq_to_set();
    assert forall|y: int| listed.contains(y) implies all.contains(y) by {
        assert(order.contains(y));
    }
    vstd::set_lib::lemma_len_subset(listed, all);
    vstd::set_lib::lemma_subset_equality(listed, all);
    assert(all.contains(x));
    assert(listed.contains(x));
}

/// There is only one stable order: two orders of the same positions by the
/// same rank are the same.
pub proof fn order_is_unique(le: spec_fn(int, int) -> bool, n: int, a: Seq<int>, b: Seq<int>)
    requires
        is_ranking(n, le),
        is_order(le, a, 0, n),
        is_order(le, b, 0, n),
    ensures
        a == b,
{
    lemma_orders_agree(le, n, a, b, n);
    assert(a == b);
}

proof fn lemma_orders_agree(
    le: spec_fn(int, int) -> bool,
    n: int,
    a: Seq<int>,
    b: Seq<int>,
    upto: int,
)
    requires
        is_ranking(n, le),
        is_order(le, a, 0, n),
        is_order(le, b, 0, n),
        0 <= upto <= n,
    ensures
        forall|k: int| 0 <= k < upto ==> a[k] == b[k],
    decreases upto,
{
    if upto > 0 {
        let i = upto - 1;
        lemma_orders_agree(le, n, a, b, i);
        let x = a[i];
        let y = b[i];
        if x != y {
            order_lists_all(le, n, b, x);
            order_lists_all(le, n, a, y);
            let k = choose|k: int| 0 <= k < b.len() && b[k] == x;
            let m = choose|m: int| 0 <= m < a.len() && a[m] == y;
            assert(le(x, x) || le(x, x));
            assert(le(y, y) || le(y, y));
            if k < i {
                assert(a[k] == x);
                assert(precedes(le, a[k], a[i]));
            } else if m < i {
                assert(b[m] == y);
                assert(precedes(le, b[m], b[i]));
            } else {
                assert(precedes(le, b[i], b[k]));
                assert(precedes(le, a[i], a[m]));
            }
        }
    }
}

proof fn lemma_place(
    le: spec_fn(int, int) -> bool,
    n: int,
    order: Seq<int>,
    m: int,
    k: int,
) -> (at: int)
    requires
        is_ranking(n, le),
        0 <= m < n,
        is_order(le, order, 0, m),
        0 <= k <= order.len(),
        forall|a: int| 0 <= a < k ==> precedes(le, #[trigger] order[a], m),
    ensures
        0 <= at <= order.len(),
        forall|a: int| 0 <= a < at ==> precedes(le, #[trigger] order[a], m),
        forall|a: int| at <= a < order.len() ==> precedes(le, m, #[trigger] order[a]),
    decreases order.len() - k,
{
    if k == order.len() {
        k
    } else if precedes(le, m, order[k]) {
        assert forall|a: int| k <= a < order.len() implies precedes(le, m, #[trigger] order[a]) by {
            if a > k {
                lemma_precedes_carries(le, n, m, order[k], order[a]);
            }
        }
        k
    } else {
        assert(0 <= order[k] < m);
        assert(le(order[k], m) || le(m, order[k]));
        lemma_place(le, n, order, m, k + 1)
    }
}

/// Whatever can be ranked can be sorted.
pub proof fn ranking_has_an_order(le: spec_fn(int, int) -> bool, n: int)
    requires
        n >= 0,
        is_ranking(n, le),
    ensures
        is_order(le, sorted_order(n as nat, le), 0, n),
{
    let order = lemma_build_order(le, n, n);
    assert(is_order(le, order, 0, n));
}

proof fn lemma_build_order(le: spec_fn(int, int) -> bool, n: int, m: int) -> (order: Seq<int>)
    requires
        is_ranking(n, le),
        0 <= m <= n,
    ensures
        is_order(le, order, 0, m),
    decreases m,
{
    if m == 0 {
        Seq::<int>::empty()
    } else {
        let x = m - 1;
        let rest = lemma_build_order(le, n, x);
        let at = lemma_place(le, n, rest, x, 0);
        let order = rest.take(at) + seq![x] + rest.skip(at);
        assert forall|a: int| 0 <= a < order.len() implies 0 <= #[trigger] order[a] < m by {
            if a < at {
                assert(order[a] == rest[a]);
            } else if a > at {
                assert(order[a] == rest[a - 1]);
            }
        }
        assert forall|a: int, b: int| 0 <= a < b < order.len() implies precedes(
            le,
            #[trigger] order[a],
            #[trigger] order[b],
        ) by {
            let p = if a < at {
                rest[a]
            } else {
                rest[a - 1]
            };
            let q = if b < at {
                rest[b]
            } else {
                rest[b - 1]
            };
            if a == at {
                assert(order[b] == q);
            } else if b == at {
                assert(order[a] == p);
            } else {
                assert(order[a] == p && order[b] == q);
            }
        }
        order
    }
}

/// Items arranged by size stand largest first.
pub proof fn arranged_sizes_fall(sizes: Seq<u64>, keep: nat)
    ensures
        ({
            let r = arranged(sizes, sorted_order(sizes.len(), larger_first(sizes)), keep);
            forall|a: int, b: int| 0 <= a < b < r.len() ==> #[trigger] r[a] >= #[trigger] r[b]
        }),
{
    let le = larger_first(sizes);
    let n = sizes.len() as int;
    ranking_has_an_order(le, n);
    let order = sorted_order(sizes.len(), le);
    let r = arranged(sizes, order, keep);
    assert forall|a: int, b: int| 0 <= a < b < r.len() implies #[trigger] r[a] >= #[trigger] r[b] by {
        assert(precedes(le, order[a], order[b]));
    }
}

/// An arrangement of all items loses none of them and repeats none.
pub proof fn arranging_loses_nothing<T>(
    items: Seq<T>,
    le: spec_fn(int, int) -> bool,
    order: Seq<int>,
)
    requires
        is_ranking(items.len() as int, le),
        is_order(le, order, 0, items.len() as int),
    ensures
        arranged(items, order, items.len()).to_multiset() == items.to_multiset(),
    decreases items.len(),
{
    let n = items.len() as int;
    let r = arranged(items, order, items.len());
    if n == 0 {
        assert(r == items);
    } else {
        order_lists_all(le, n, order, n - 1);
        let at = choose|at: int| 0 <= at < order.len() && order[at] == n - 1;
        let rest = order.remove(at);
        assert forall|a: int, b: int| 0 <= a < b < rest.len() implies precedes(
            le,
            #[trigger] rest[a],
            #[trigger] rest[b],
        ) by {
            let i = if a < at {
                a
            } else {
                a + 1
            };
            let j = if b < at {
                b
            } else {
                b + 1
            };
            assert(precedes(le, order[i], order[j]));
        }
        assert forall|a: int| 0 <= a < rest.len() implies 0 <= #[trigger] rest[a] < n - 1 by {
            let i = if a < at {
                a
            } else {
                a + 1
            };
            assert(0 <= order[i] < n);
            if i < at {
                assert(precedes(le, order[i], order[at]));
            } else {
                assert(precedes(le, order[at], order[i]));
            }
            assert(le(n - 1, n - 1) || le(n - 1, n - 1));
        }
        let front = items.drop_last();
        arranging_loses_nothing(front, le, rest);
        let less = arranged(front, rest, front.len());
        assert(r.remove(at) == less);
        r.to_multiset_ensures();
        front.to_multiset_ensures();
        assert(front.push(items.last()) == items);
        assert(r[at] == items.last());
        assert(r.to_multiset() == less.to_multiset().insert(items.last()));
    }
}

/// Sorting by size puts every position where its size belongs: a larger size
/// comes before a smaller one, and of two positions with one size the first
/// stays first. Every position is listed once.
pub proof fn sizes_are_sorted_stably(sizes: Seq<u64>, a: int, b: int)
    ensures
        ({
            let order = sorted_order(sizes.len(), larger_first(sizes));
            &&& order.len() == sizes.len()
            &&& 0 <= a < order.len() ==> 0 <= order[a] < sizes.len()
            &&& 0 <= a < b < order.len() ==> sizes[order[a]] > sizes[order[b]] || (sizes[order[a]]
                == sizes[order[b]] && order[a] < order[b])
            &&& 0 <= a < sizes.len() ==> order.contains(a)
        }),
{
    let le = larger_first(sizes);
    let n = sizes.len() as int;
    assert(is_ranking(n, le)) by {
        assert forall|i: int, j: int| 0 <= i < n && 0 <= j < n implies le(i, j)
            || #[trigger] le(j, i) by {}
        assert forall|i: int, j: int, k: int|
            0 <= i < n && 0 <= j < n && 0 <= k < n && #[trigger] le(i, j)
                && #[trigger] le(j, k) implies le(i, k) by {}
    }
    ranking_has_an_order(le, n);
    let order = sorted_order(sizes.len(), le);
    if 0 <= a < b < order.len() {
        assert(precedes(le, order[a], order[b]));
    }
    if 0 <= a < sizes.len() {
        order_lists_all(le, n, order, a);
    }
}

/// Sorting by name puts every position where its name belongs in dictionary
/// order, and of two positions with one name the first stays first. Every
/// position is listed once.
pub proof fn names_are_sorted_stably(names: Seq<Seq<char>>, a: int, b: int)
    ensures
        ({
            let order = sorted_order(names.len(), dictionary_order(names));
            &&& order.len() == names.len()
            &&& 0 <= a < order.len() ==> 0 <= order[a] < names.len()
            &&& 0 <= a < b < order.len() ==> text::text_le(names[order[a]], names[order[b]]) && (
            names[order[a]] == names[order[b]] ==> order[a] < order[b])
            &&& 0 <= a < names.len() ==> order.contains(a)
        }),
{
    let le = dictionary_order(names);
    let n = names.len() as int;
    assert(is_ranking(n, le)) by {
        assert forall|i: int, j: int| 0 <= i < n && 0 <= j < n implies le(i, j)
            || #[trigger] le(j, i) by {
            text_order_is_total(names[i], names[j]);
        }
        assert forall|i: int, j: int, k: int|
            0 <= i < n && 0 <= j < n && 0 <= k < n && #[trigger] le(i, j)
                && #[trigger] le(j, k) implies le(i, k) by {
            text_order_carries(names[i], names[j], names[k]);
        }
    }
    ranking_has_an_order(le, n);
    let order = sorted_order(names.len(), le);
    if 0 <= a < b < order.len() {
        assert(precedes(le, order[a], order[b]));
        text_order_is_total(names[order[a]], names[order[b]]);
        text_order_is_total(names[order[a]], names[order[a]]);
        assert(le(order[a], order[b]) || le(order[b], order[a]));
    }
    if 0 <= a < names.len() {
        order_lists_all(le, n, order, a);
    }
}

/// An arrangement holds the item of each position in turn, up to as many as are
/// kept.
pub proof fn arrangements_follow_the_order<T>(items: Seq<T>, order: Seq<int>, keep: nat, i: int)
    ensures
        arranged(items, order, keep).len() == if keep < order.len() {
            keep
        } else {
            order.len()
        },
        0 <= i < arranged(items, order, keep).len() ==> arranged(items, order, keep)[i]
            == items[order[i]],
{
}

} // verus!
