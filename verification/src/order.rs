//! Ordering text.
use vstd::prelude::*;
use vstd::relations::{sorted_by, total_ordering};
use vstd::seq_lib::{lemma_sorted_unique, to_multiset_build, to_multiset_insert};
use crate::bags::lemma_map_permutation;
use crate::concat::{views, Text};
use crate::text::{chars_of, same_text};

verus! {

broadcast use crate::concat::group_views;

/// Whether `a` comes before `b` or is `b`, by the first character in which they
/// differ; a prefix comes first.
pub open spec fn text_le(a: Text, b: Text) -> bool
    decreases a.len(),
{
    if a.len() == 0 {
        true
    } else if b.len() == 0 {
        false
    } else if a.first() == b.first() {
        text_le(a.drop_first(), b.drop_first())
    } else {
        a.first() < b.first()
    }
}

/// Whether `a` comes before `b` or is `b`.
pub fn comes_first(a: &str, b: &str) -> (r: bool)
    ensures
        r == text_le(a@, b@),
{
    let x = chars_of(a);
    let y = chars_of(b);
    let mut i: usize = 0;
    assert(x@.skip(0) =~= x@);
    assert(y@.skip(0) =~= y@);
    while i < x.len()
        invariant
            i <= x@.len(),
            i <= y@.len(),
            x@ == a@,
            y@ == b@,
            text_le(a@, b@) == text_le(x@.skip(i as int), y@.skip(i as int)),
        decreases x@.len() - i,
    {
        if i >= y.len() {
            return false;
        }
        if x[i] != y[i] {
            return x[i] < y[i];
        }
        assert(x@.skip(i as int).drop_first() =~= x@.skip(i + 1));
        assert(y@.skip(i as int).drop_first() =~= y@.skip(i + 1));
        i += 1;
    }
    true
}

proof fn lemma_text_le_reflexive(a: Text)
    ensures
        text_le(a, a),
    decreases a.len(),
{
    if a.len() > 0 {
        lemma_text_le_reflexive(a.drop_first());
    }
}

proof fn lemma_text_le_total(a: Text, b: Text)
    ensures
        text_le(a, b) || text_le(b, a),
    decreases a.len(),
{
    if a.len() > 0 && b.len() > 0 && a.first() == b.first() {
        lemma_text_le_total(a.drop_first(), b.drop_first());
    }
}

proof fn lemma_text_le_antisymmetric(a: Text, b: Text)
    requires
        text_le(a, b),
        text_le(b, a),
    ensures
        a == b,
    decreases a.len(),
{
    if a.len() == 0 || b.len() == 0 {
        assert(a =~= b);
    } else {
        lemma_text_le_antisymmetric(a.drop_first(), b.drop_first());
        assert(a =~= seq![a.first()] + a.drop_first());
        assert(b =~= seq![b.first()] + b.drop_first());
    }
}

proof fn lemma_text_le_transitive(a: Text, b: Text, c: Text)
    requires
        text_le(a, b),
        text_le(b, c),
    ensures
        text_le(a, c),
    decreases a.len(),
{
    if a.len() > 0 && b.len() > 0 && c.len() > 0 {
        if a.first() == b.first() && b.first() == c.first() {
            lemma_text_le_transitive(a.drop_first(), b.drop_first(), c.drop_first());
        }
    }
}

/// The order of texts is total: any two are ordered, in one way only unless they
/// are the same, and consistently with a third.
pub proof fn law_text_order_is_total(a: Text, b: Text, c: Text)
    ensures
        text_le(a, a),
        text_le(a, b) || text_le(b, a),
        text_le(a, b) && text_le(b, a) ==> a == b,
        text_le(a, b) && text_le(b, c) ==> text_le(a, c),
{
    lemma_text_le_reflexive(a);
    lemma_text_le_total(a, b);
    if text_le(a, b) && text_le(b, a) {
        lemma_text_le_antisymmetric(a, b);
    }
    if text_le(a, b) && text_le(b, c) {
        lemma_text_le_transitive(a, b, c);
    }
}

/// Whether position `i` comes before position `j` when the keys are put in
/// order: by key, and by position where the keys are the same.
pub open spec fn precedes(keys: Seq<Text>, i: int, j: int) -> bool {
    if keys[i] == keys[j] {
        i <= j
    } else {
        text_le(keys[i], keys[j])
    }
}

/// The order of positions by key.
pub open spec fn by_key(keys: Seq<Text>) -> spec_fn(int, int) -> bool {
    |i: int, j: int| precedes(keys, i, j)
}

/// The positions of `n` things, first to last.
pub open spec fn positions(n: nat) -> Seq<int> {
    Seq::new(n, |i: int| i)
}

/// The positions of the keys, in the order of the keys. The same key keeps its
/// positions in order.
pub open spec fn stable_order(keys: Seq<Text>) -> Seq<int> {
    positions(keys.len()).sort_by(by_key(keys))
}

/// Indices as positions.
pub open spec fn as_positions(s: Seq<usize>) -> Seq<int> {
    s.map_values(|i: usize| i as int)
}

proof fn lemma_by_key_is_total(keys: Seq<Text>)
    ensures
        total_ordering(by_key(keys)),
{
    let r = by_key(keys);
    assert forall|i: int, j: int| #[trigger] r(i, j) && #[trigger] r(j, i) implies i == j by {
        if keys[i] != keys[j] {
            lemma_text_le_antisymmetric(keys[i], keys[j]);
        }
    }
    assert forall|i: int, j: int, k: int| #[trigger] r(i, j) && #[trigger] r(j, k) implies r(
        i,
        k,
    ) by {
        law_text_order_is_total(keys[i], keys[j], keys[k]);
        law_text_order_is_total(keys[j], keys[i], keys[k]);
        law_text_order_is_total(keys[k], keys[j], keys[i]);
    }
    assert forall|i: int, j: int| #[trigger] r(i, j) || #[trigger] r(j, i) by {
        lemma_text_le_total(keys[i], keys[j]);
    }
}

/// The order holds every position once, and the keys ascend along it; where two
/// keys are the same, so do the positions.
pub proof fn law_order_is_sorted_and_stable(keys: Seq<Text>)
    ensures
        stable_order(keys).to_multiset() == positions(keys.len()).to_multiset(),
        stable_order(keys).len() == keys.len(),
        forall|k: int|
            0 <= k < keys.len() ==> 0 <= #[trigger] stable_order(keys)[k] < keys.len(),
        forall|k: int, l: int|
            0 <= k <= l < keys.len() ==> precedes(
                keys,
                #[trigger] stable_order(keys)[k],
                #[trigger] stable_order(keys)[l],
            ),
{
    broadcast use vstd::seq_lib::group_to_multiset_ensures;

    let r = by_key(keys);
    let ps = positions(keys.len());
    let order = stable_order(keys);
    lemma_by_key_is_total(keys);
    ps.lemma_sort_by_ensures(r);
    assert(order.len() == order.to_multiset().len());
    assert forall|k: int| 0 <= k < keys.len() implies 0 <= #[trigger] order[k] < keys.len() by {
        assert(order.contains(order[k]));
        assert(ps.contains(order[k]));
    }
    assert forall|k: int, l: int| 0 <= k <= l < keys.len() implies precedes(
        keys,
        #[trigger] order[k],
        #[trigger] order[l],
    ) by {
        if k < l {
            assert(r(order[k], order[l]));
        }
    }
}

/// Where the key at position `i` goes among the positions before it.
fn insertion_point(keys: &Vec<String>, order: &Vec<usize>, i: usize) -> (p: usize)
    requires
        i < keys@.len(),
        forall|k: int| 0 <= k < order@.len() ==> #[trigger] order@[k] < i,
    ensures
        p <= order@.len(),
        p > 0 ==> text_le(keys@[order@[p - 1] as int]@, keys@[i as int]@),
        forall|k: int|
            p <= k < order@.len() ==> !text_le(
                keys@[#[trigger] order@[k] as int]@,
                keys@[i as int]@,
            ),
{
    let mut p: usize = order.len();
    while p > 0 && !comes_first(keys[order[p - 1]].as_str(), keys[i].as_str())
        invariant
            p <= order@.len(),
            i < keys@.len(),
            forall|k: int| 0 <= k < order@.len() ==> #[trigger] order@[k] < i,
            forall|k: int|
                p <= k < order@.len() ==> !text_le(
                    keys@[#[trigger] order@[k] as int]@,
                    keys@[i as int]@,
                ),
        decreases p,
    {
        p -= 1;
    }
    p
}

/// Inserting the next position where it belongs keeps the order.
proof fn lemma_insert_keeps_order(keys: Seq<Text>, order: Seq<int>, i: int, p: int)
    requires
        0 <= p <= order.len(),
        sorted_by(order, by_key(keys)),
        forall|k: int| 0 <= k < order.len() ==> #[trigger] order[k] < i,
        p > 0 ==> text_le(keys[order[p - 1]], keys[i]),
        forall|k: int| p <= k < order.len() ==> !text_le(keys[#[trigger] order[k]], keys[i]),
    ensures
        sorted_by(order.insert(p, i), by_key(keys)),
{
    let r = by_key(keys);
    let after = order.insert(p, i);
    lemma_by_key_is_total(keys);
    if p > 0 {
        assert(r(order[p - 1], i));
    }
    assert forall|k: int, l: int| 0 <= k < l < after.len() implies #[trigger] r(
        after[k],
        after[l],
    ) by {
        if l == p {
            assert(after[k] == order[k]);
            if k < p - 1 {
                assert(r(order[k], order[p - 1]));
            }
        } else if k == p {
            assert(after[l] == order[l - 1]);
            lemma_text_le_total(keys[i], keys[order[l - 1]]);
            lemma_text_le_reflexive(keys[i]);
        } else {
            let k0 = if k < p {
                k
            } else {
                k - 1
            };
            let l0 = if l < p {
                l
            } else {
                l - 1
            };
            assert(after[k] == order[k0] && after[l] == order[l0]);
            assert(r(order[k0], order[l0]));
        }
    }
}

/// The positions of the keys, in the order of the keys.
pub fn order_of(keys: &Vec<String>) -> (r: Vec<usize>)
    ensures
        as_positions(r@) == stable_order(views(keys@)),
        r@.len() == keys@.len(),
        forall|k: int| 0 <= k < r@.len() ==> #[trigger] r@[k] < keys@.len(),
{
    broadcast use vstd::seq_lib::group_to_multiset_ensures;

    let ghost texts = views(keys@);
    let mut order: Vec<usize> = Vec::new();
    proof {
        assert(as_positions(order@) =~= positions(0));
    }
    for i in 0..keys.len()
        invariant
            texts == views(keys@),
            order@.len() == i,
            forall|k: int| 0 <= k < order@.len() ==> #[trigger] order@[k] < i,
            sorted_by(as_positions(order@), by_key(texts)),
            as_positions(order@).to_multiset() == positions(i as nat).to_multiset(),
    {
        let p: usize = insertion_point(keys, &order, i);
        let ghost before = as_positions(order@);
        proof {
            assert(forall|k: int| 0 <= k < keys@.len() ==> texts[k] == keys@[k]@);
            lemma_insert_keeps_order(texts, before, i as int, p as int);
        }
        order.insert(p, i);
        proof {
            assert(as_positions(order@) =~= before.insert(p as int, i as int));
            assert(positions((i + 1) as nat) =~= positions(i as nat).push(i as int));
            to_multiset_insert(before, p as int, i as int);
            to_multiset_build(positions(i as nat), i as int);
        }
    }
    proof {
        law_order_is_sorted_and_stable(texts);
        lemma_by_key_is_total(texts);
        positions(texts.len()).lemma_sort_by_ensures(by_key(texts));
        lemma_sorted_unique(as_positions(order@), stable_order(texts), by_key(texts));
    }
    order
}

/// The lines in order.
pub open spec fn sorted_lines(lines: Seq<Text>) -> Seq<Text> {
    stable_order(lines).map_values(|i: int| lines[i])
}

/// The lines ascend.
pub proof fn law_sorted_lines_ascend(lines: Seq<Text>)
    ensures
        sorted_lines(lines).len() == lines.len(),
        forall|k: int, l: int|
            0 <= k <= l < lines.len() ==> text_le(
                #[trigger] sorted_lines(lines)[k],
                #[trigger] sorted_lines(lines)[l],
            ),
{
    law_order_is_sorted_and_stable(lines);
    assert forall|k: int, l: int| 0 <= k <= l < lines.len() implies text_le(
        #[trigger] sorted_lines(lines)[k],
        #[trigger] sorted_lines(lines)[l],
    ) by {
        assert(precedes(lines, stable_order(lines)[k], stable_order(lines)[l]));
        lemma_text_le_reflexive(lines[stable_order(lines)[k]]);
    }
}

/// Putting lines in order keeps every line as often as it stood there.
pub proof fn law_sorting_keeps_every_line(lines: Seq<Text>)
    ensures
        sorted_lines(lines).to_multiset() == lines.to_multiset(),
{
    let at = |i: int| lines[i];
    law_order_is_sorted_and_stable(lines);
    lemma_map_permutation(stable_order(lines), positions(lines.len()), at);
    assert(positions(lines.len()).map_values(at) =~= lines);
}

/// Lines that differ only in their order are put in the same order.
pub proof fn law_sorting_forgets_the_order(a: Seq<Text>, b: Seq<Text>)
    requires
        a.to_multiset() == b.to_multiset(),
    ensures
        sorted_lines(a) == sorted_lines(b),
{
    let le = |x: Text, y: Text| text_le(x, y);
    assert(total_ordering(le)) by {
        assert forall|x: Text| #[trigger] le(x, x) by {
            lemma_text_le_reflexive(x);
        }
        assert forall|x: Text, y: Text| #[trigger] le(x, y) && #[trigger] le(y, x) implies x
            == y by {
            lemma_text_le_antisymmetric(x, y);
        }
        assert forall|x: Text, y: Text, z: Text| #[trigger] le(x, y) && #[trigger] le(
            y,
            z,
        ) implies le(x, z) by {
            lemma_text_le_transitive(x, y, z);
        }
        assert forall|x: Text, y: Text| #[trigger] le(x, y) || #[trigger] le(y, x) by {
            lemma_text_le_total(x, y);
        }
    }
    law_sorting_keeps_every_line(a);
    law_sorting_keeps_every_line(b);
    law_sorted_lines_ascend(a);
    law_sorted_lines_ascend(b);
    assert(sorted_by(sorted_lines(a), le));
    assert(sorted_by(sorted_lines(b), le));
    lemma_sorted_unique(sorted_lines(a), sorted_lines(b), le);
}

/// Puts lines in order.
pub fn sort_lines(lines: &Vec<String>) -> (r: Vec<String>)
    ensures
        views(r@) == sorted_lines(views(lines@)),
{
    let order = order_of(lines);
    let ghost all = views(lines@);
    let mut r: Vec<String> = Vec::new();
    for i in 0..order.len()
        invariant
            all == views(lines@),
            as_positions(order@) == stable_order(all),
            forall|k: int| 0 <= k < order@.len() ==> #[trigger] order@[k] < lines@.len(),
            views(r@) == sorted_lines(all).take(i as int),
    {
        assert(as_positions(order@)[i as int] == order@[i as int]);
        r.push(lines[order[i]].clone());
        assert(views(r@) =~= sorted_lines(all).take(i + 1));
    }
    assert(as_positions(order@).len() == order@.len());
    assert(sorted_lines(all).take(order@.len() as int) =~= sorted_lines(all));
    r
}

/// The lines without those that repeat the line before them.
pub open spec fn without_repeats(lines: Seq<Text>) -> Seq<Text>
    decreases lines.len(),
{
    if lines.len() < 2 {
        lines
    } else if lines[lines.len() - 2] == lines.last() {
        without_repeats(lines.drop_last())
    } else {
        without_repeats(lines.drop_last()).push(lines.last())
    }
}

proof fn lemma_without_repeats(lines: Seq<Text>)
    ensures
        lines.len() > 0 ==> without_repeats(lines).len() > 0 && without_repeats(lines).last()
            == lines.last(),
        forall|t: Text| #[trigger] lines.contains(t) <==> without_repeats(lines).contains(t),
    decreases lines.len(),
{
    if lines.len() >= 2 {
        let shorter = lines.drop_last();
        lemma_without_repeats(shorter);
        let r = without_repeats(lines);
        assert forall|t: Text| #[trigger] lines.contains(t) <==> r.contains(t) by {
            assert(shorter.contains(t) <==> without_repeats(shorter).contains(t));
            if lines.contains(t) {
                let k = choose|k: int| 0 <= k < lines.len() && lines[k] == t;
                if k < lines.len() - 1 {
                    assert(shorter[k] == t);
                    let q = choose|q: int|
                        0 <= q < without_repeats(shorter).len() && without_repeats(shorter)[q]
                            == t;
                    assert(r[q] == t);
                } else if lines[lines.len() - 2] != lines.last() {
                    assert(r.last() == t);
                } else {
                    assert(shorter[lines.len() - 2] == t);
                }
            }
            if r.contains(t) {
                let k = choose|k: int| 0 <= k < r.len() && r[k] == t;
                if lines[lines.len() - 2] != lines.last() && k == r.len() - 1 {
                    assert(lines.last() == t);
                } else {
                    assert(without_repeats(shorter)[k] == t);
                    let q = choose|q: int| 0 <= q < shorter.len() && shorter[q] == t;
                    assert(lines[q] == t);
                }
            }
        }
    }
}

/// The distinct lines, in order.
pub open spec fn distinct_lines(lines: Seq<Text>) -> Seq<Text> {
    without_repeats(sorted_lines(lines))
}

/// Every line stands among the distinct lines, and nothing else does.
pub proof fn law_distinct_lines_keep_every_line(lines: Seq<Text>)
    ensures
        forall|t: Text| #[trigger] lines.contains(t) <==> distinct_lines(lines).contains(t),
{
    broadcast use vstd::seq_lib::group_to_multiset_ensures;

    let sorted = sorted_lines(lines);
    let order = stable_order(lines);
    law_order_is_sorted_and_stable(lines);
    lemma_without_repeats(sorted);
    assert forall|t: Text| #[trigger] lines.contains(t) <==> distinct_lines(lines).contains(t) by {
        if lines.contains(t) {
            let k = choose|k: int| 0 <= k < lines.len() && lines[k] == t;
            assert(positions(lines.len())[k] == k);
            assert(positions(lines.len()).contains(k));
            assert(order.to_multiset().contains(k));
            assert(order.contains(k));
            let q = choose|q: int| 0 <= q < order.len() && order[q] == k;
            assert(sorted[q] == t);
            assert(sorted.contains(t));
        }
        if distinct_lines(lines).contains(t) {
            assert(sorted.contains(t));
            let q = choose|q: int| 0 <= q < sorted.len() && sorted[q] == t;
            assert(lines[order[q]] == t);
        }
    }
}

proof fn lemma_without_repeats_ascends(lines: Seq<Text>)
    requires
        forall|k: int, l: int|
            0 <= k <= l < lines.len() ==> text_le(#[trigger] lines[k], #[trigger] lines[l]),
    ensures
        forall|k: int, l: int|
            0 <= k < l < without_repeats(lines).len() ==> text_le(
                #[trigger] without_repeats(lines)[k],
                #[trigger] without_repeats(lines)[l],
            ) && without_repeats(lines)[k] != without_repeats(lines)[l],
    decreases lines.len(),
{
    if lines.len() >= 2 {
        let shorter = lines.drop_last();
        let r = without_repeats(lines);
        let before = without_repeats(shorter);
        lemma_without_repeats_ascends(shorter);
        lemma_without_repeats(shorter);
        assert forall|k: int, l: int| 0 <= k < l < r.len() implies text_le(
            #[trigger] r[k],
            #[trigger] r[l],
        ) && r[k] != r[l] by {
            if l == before.len() {
                let previous = lines[lines.len() - 2];
                let last = lines[lines.len() - 1];
                assert(text_le(previous, last));
                lemma_text_le_reflexive(previous);
                assert(text_le(r[k], previous)) by {
                    if k < before.len() - 1 {
                        assert(text_le(before[k], before[before.len() - 1]));
                    }
                }
                lemma_text_le_transitive(r[k], previous, last);
                if r[k] == last {
                    lemma_text_le_antisymmetric(previous, last);
                }
            } else {
                assert(text_le(before[k], before[l]) && before[k] != before[l]);
            }
        }
    }
}

/// The distinct lines ascend, and none stands there twice.
pub proof fn law_distinct_lines_ascend(lines: Seq<Text>)
    ensures
        forall|k: int, l: int|
            0 <= k < l < distinct_lines(lines).len() ==> text_le(
                #[trigger] distinct_lines(lines)[k],
                #[trigger] distinct_lines(lines)[l],
            ) && distinct_lines(lines)[k] != distinct_lines(lines)[l],
{
    law_sorted_lines_ascend(lines);
    lemma_without_repeats_ascends(sorted_lines(lines));
}

/// Drops the lines that repeat the line before them.
fn drop_repeats(lines: &Vec<String>) -> (r: Vec<String>)
    ensures
        views(r@) == without_repeats(views(lines@)),
{
    let ghost all = views(lines@);
    let mut r: Vec<String> = Vec::new();
    for i in 0..lines.len()
        invariant
            all == views(lines@),
            views(r@) == without_repeats(all.take(i as int)),
    {
        assert(all.take(i + 1).drop_last() =~= all.take(i as int));
        assert(all[i as int] == lines@[i as int]@);
        if i == 0 {
            r.push(lines[i].clone());
            assert(views(r@) =~= all.take(1));
        } else {
            assert(all[i - 1] == lines@[i - 1]@);
            if !same_text(lines[i - 1].as_str(), lines[i].as_str()) {
                r.push(lines[i].clone());
            }
        }
    }
    assert(all.take(lines@.len() as int) =~= all);
    r
}

/// The distinct lines, in order.
pub fn sort_and_dedup(lines: &Vec<String>) -> (r: Vec<String>)
    ensures
        views(r@) == distinct_lines(views(lines@)),
{
    let sorted = sort_lines(lines);
    drop_repeats(&sorted)
}

} // verus!
