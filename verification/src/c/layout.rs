//! Where the fields of a message or structure stand on the wire.
//!
//! Fields keep their declared order as long as the next one fits the current
//! position. Where it does not, the nearest later field that fits is pulled
//! forward, and only where none fits is padding spent.
use vstd::prelude::*;

verus! {

/// The space that one field takes: its alignment and its size in bytes.
#[derive(Debug, Clone, Copy, PartialEq, Eq, Structural)]
pub struct Slot {
    pub align: u32,
    pub size: u32,
}

/// Whether a field of this alignment can stand at `pos` without padding.
pub open spec fn fits(align: u32, pos: nat) -> bool {
    align <= 1 || pos % (align as nat) == 0
}

/// The first multiple of `align` at or after `value`.
pub open spec fn aligned_up(value: nat, align: nat) -> nat {
    if align <= 1 || value % align == 0 {
        value
    } else {
        (value + (align - value % align)) as nat
    }
}

/// How far placing has come.
pub struct Placement {
    /// One offset for each field, in declared order; zero where not yet placed.
    pub offsets: Seq<nat>,
    /// Which fields have been placed.
    pub placed: Seq<bool>,
    /// The first byte after the last field placed.
    pub pos: nat,
}

/// The first field at or after `from` that is not placed and fits at `pos`.
pub open spec fn next_fitting(slots: Seq<Slot>, placed: Seq<bool>, pos: nat, from: int) -> Option<
    int,
>
    decreases slots.len() - from,
{
    if from < 0 || from >= slots.len() {
        None
    } else if !placed[from] && fits(slots[from].align, pos) {
        Some(from)
    } else {
        next_fitting(slots, placed, pos, from + 1)
    }
}

/// The first field at or after `from` that is not placed.
pub open spec fn next_unplaced(placed: Seq<bool>, from: int) -> Option<int>
    decreases placed.len() - from,
{
    if from < 0 || from >= placed.len() {
        None
    } else if !placed[from] {
        Some(from)
    } else {
        next_unplaced(placed, from + 1)
    }
}

/// The field to place next: the first that fits, else the first that is left.
pub open spec fn next_field(slots: Seq<Slot>, p: Placement) -> Option<int> {
    match next_fitting(slots, p.placed, p.pos, 0) {
        Some(i) => Some(i),
        None => next_unplaced(p.placed, 0),
    }
}

/// The placement after one more field.
pub open spec fn place_one(slots: Seq<Slot>, p: Placement) -> Placement {
    match next_field(slots, p) {
        Some(i) => {
            let at = aligned_up(p.pos, slots[i].align as nat);
            Placement {
                offsets: p.offsets.update(i, at),
                placed: p.placed.update(i, true),
                pos: at + slots[i].size as nat,
            }
        },
        None => p,
    }
}

/// The placement after `left` more fields.
pub open spec fn place_rest(slots: Seq<Slot>, p: Placement, left: nat) -> Placement
    decreases left,
{
    if left == 0 {
        p
    } else {
        place_rest(slots, place_one(slots, p), (left - 1) as nat)
    }
}

/// Nothing placed yet, with the first free byte at `start`.
pub open spec fn unplaced(n: nat, start: nat) -> Placement {
    Placement {
        offsets: Seq::new(n, |i: int| 0nat),
        placed: Seq::new(n, |i: int| false),
        pos: start,
    }
}

/// All fields placed, from byte `start` on.
pub open spec fn placement(slots: Seq<Slot>, start: nat) -> Placement {
    place_rest(slots, unplaced(slots.len(), start), slots.len())
}

/// The end of the last byte of the first `n` fields, at least `floor`.
pub open spec fn furthest_end(slots: Seq<Slot>, offsets: Seq<nat>, n: nat, floor: nat) -> nat
    decreases n,
{
    if n == 0 {
        floor
    } else {
        let before = furthest_end(slots, offsets, (n - 1) as nat, floor);
        let end = offsets[n - 1] + slots[n - 1].size as nat;
        if end > before {
            end
        } else {
            before
        }
    }
}

/// The widest alignment among the first `n` fields, at least one.
pub open spec fn widest_align(slots: Seq<Slot>, n: nat) -> nat
    decreases n,
{
    if n == 0 {
        1
    } else {
        let before = widest_align(slots, (n - 1) as nat);
        if slots[n - 1].align > before {
            slots[n - 1].align as nat
        } else {
            before
        }
    }
}

/// The length of a message body: header and fields, in whole words.
pub open spec fn body_length(slots: Seq<Slot>, offsets: Seq<nat>, header: nat) -> nat {
    aligned_up(furthest_end(slots, offsets, slots.len(), header), 4)
}

/// The size of one element of a structure: its fields, rounded up so that the
/// next element is aligned too.
pub open spec fn struct_size(slots: Seq<Slot>, offsets: Seq<nat>) -> nat {
    aligned_up(furthest_end(slots, offsets, slots.len(), 0), widest_align(slots, slots.len()))
}

/// Offsets as contracts see them.
pub open spec fn offset_views(v: Seq<u32>) -> Seq<nat> {
    v.map_values(|o: u32| o as nat)
}

/// Aligning up moves forward by less than the alignment, onto a multiple of it.
pub proof fn lemma_aligned_up(value: nat, align: nat)
    ensures
        aligned_up(value, align) >= value,
        align > 1 ==> aligned_up(value, align) < value + align,
        align > 0 ==> aligned_up(value, align) % align == 0,
{
    if align > 1 && value % align != 0 {
        let q = value / align;
        let r = value % align;
        assert(value == align * q + r) by (nonlinear_arith)
            requires
                align > 1,
                q == value / align,
                r == value % align,
        ;
        assert(align * q + align == align * (q + 1)) by (nonlinear_arith);
        assert((align * (q + 1)) % align == 0) by (nonlinear_arith)
            requires
                align > 1,
        ;
        assert(value + (align - r) == align * (q + 1));
    }
}

/// Placing more fields never moves the position back.
pub proof fn lemma_place_rest_pos(slots: Seq<Slot>, p: Placement, left: nat)
    ensures
        place_rest(slots, p, left).pos >= p.pos,
        place_one(slots, p).pos >= p.pos,
    decreases left,
{
    if let Some(i) = next_field(slots, p) {
        lemma_aligned_up(p.pos, slots[i].align as nat);
    }
    if left > 0 {
        lemma_place_rest_pos(slots, place_one(slots, p), (left - 1) as nat);
    }
}

/// What holds of a placement at every stage, given where it began.
pub open spec fn sound(slots: Seq<Slot>, p: Placement, start: nat) -> bool {
    &&& p.offsets.len() == slots.len()
    &&& p.placed.len() == slots.len()
    &&& start <= p.pos
    &&& p.pos == start || exists|i: int|
        0 <= i < slots.len() && #[trigger] p.placed[i] && p.offsets[i] + slots[i].size == p.pos
    &&& forall|i: int|
        #![trigger p.placed[i]]
        0 <= i < slots.len() && p.placed[i] ==> {
            &&& start <= p.offsets[i]
            &&& fits(slots[i].align, p.offsets[i])
            &&& p.offsets[i] + slots[i].size <= p.pos
        }
    &&& forall|i: int, j: int|
        #![trigger p.placed[i], p.placed[j]]
        0 <= i < slots.len() && 0 <= j < slots.len() && i != j && p.placed[i] && p.placed[j]
            ==> disjoint(slots, p.offsets, i, j)
}

/// Whether two fields share no byte.
pub open spec fn disjoint(slots: Seq<Slot>, offsets: Seq<nat>, i: int, j: int) -> bool {
    ||| offsets[i] + slots[i].size <= offsets[j]
    ||| offsets[j] + slots[j].size <= offsets[i]
}

proof fn lemma_next_fitting(slots: Seq<Slot>, placed: Seq<bool>, pos: nat, from: int)
    requires
        0 <= from,
    ensures
        next_fitting(slots, placed, pos, from) matches Some(i) ==> from <= i < slots.len()
            && !placed[i] && fits(slots[i].align, pos),
    decreases slots.len() - from,
{
    if from < slots.len() {
        lemma_next_fitting(slots, placed, pos, from + 1);
    }
}

proof fn lemma_next_unplaced(placed: Seq<bool>, from: int)
    requires
        0 <= from,
    ensures
        next_unplaced(placed, from) matches Some(i) ==> from <= i < placed.len() && !placed[i],
        next_unplaced(placed, from) is None ==> forall|i: int|
            from <= i < placed.len() ==> #[trigger] placed[i],
    decreases placed.len() - from,
{
    if from < placed.len() {
        lemma_next_unplaced(placed, from + 1);
    }
}

/// The next field is one that is left, as long as one is.
pub proof fn lemma_next_field(slots: Seq<Slot>, p: Placement)
    requires
        p.placed.len() == slots.len(),
    ensures
        next_field(slots, p) matches Some(i) ==> 0 <= i < slots.len() && !p.placed[i],
        next_field(slots, p) is None ==> forall|i: int|
            0 <= i < slots.len() ==> #[trigger] p.placed[i],
{
    lemma_next_fitting(slots, p.placed, p.pos, 0);
    lemma_next_unplaced(p.placed, 0);
}

proof fn lemma_place_one_sound(slots: Seq<Slot>, p: Placement, start: nat)
    requires
        sound(slots, p, start),
    ensures
        sound(slots, place_one(slots, p), start),
{
    lemma_next_field(slots, p);
    if let Some(i) = next_field(slots, p) {
        lemma_aligned_up(p.pos, slots[i].align as nat);
        let q = place_one(slots, p);
        assert(q.placed[i] && q.offsets[i] + slots[i].size == q.pos);
        assert forall|a: int, b: int|
            #![trigger q.placed[a], q.placed[b]]
            0 <= a < slots.len() && 0 <= b < slots.len() && a != b && q.placed[a]
                && q.placed[b] implies disjoint(slots, q.offsets, a, b) by {
            if a == i {
                assert(p.placed[b]);
            } else if b == i {
                assert(p.placed[a]);
            } else {
                assert(p.placed[a] && p.placed[b]);
            }
        }
        assert forall|a: int|
            #![trigger q.placed[a]]
            0 <= a < slots.len() && q.placed[a] implies {
            &&& start <= q.offsets[a]
            &&& fits(slots[a].align, q.offsets[a])
            &&& q.offsets[a] + slots[a].size <= q.pos
        } by {
            if a != i {
                assert(p.placed[a]);
            }
        }
    }
}

/// The number of fields among the first `n` that are not placed.
pub open spec fn unplaced_count(placed: Seq<bool>, n: nat) -> nat
    decreases n,
{
    if n == 0 {
        0
    } else {
        unplaced_count(placed, (n - 1) as nat) + if placed[n - 1] {
            0nat
        } else {
            1nat
        }
    }
}

proof fn lemma_unplaced_count_update(placed: Seq<bool>, n: nat, i: int)
    requires
        n <= placed.len(),
        0 <= i < placed.len(),
        !placed[i],
    ensures
        unplaced_count(placed.update(i, true), n) == unplaced_count(placed, n) - if i < n {
            1int
        } else {
            0int
        },
    decreases n,
{
    if n > 0 {
        lemma_unplaced_count_update(placed, (n - 1) as nat, i);
    }
}

proof fn lemma_unplaced_count_zero(placed: Seq<bool>, n: nat, i: int)
    requires
        n <= placed.len(),
        unplaced_count(placed, n) == 0,
        0 <= i < n,
    ensures
        placed[i],
    decreases n,
{
    if i < n - 1 {
        lemma_unplaced_count_zero(placed, (n - 1) as nat, i);
    }
}

proof fn lemma_unplaced_count_all(n: nat, m: nat)
    requires
        m <= n,
    ensures
        unplaced_count(Seq::new(n, |i: int| false), m) == m,
    decreases m,
{
    if m > 0 {
        lemma_unplaced_count_all(n, (m - 1) as nat);
    }
}

proof fn lemma_all_placed_count(placed: Seq<bool>, n: nat)
    requires
        n <= placed.len(),
        forall|i: int| 0 <= i < n ==> #[trigger] placed[i],
    ensures
        unplaced_count(placed, n) == 0,
    decreases n,
{
    if n > 0 {
        lemma_all_placed_count(placed, (n - 1) as nat);
    }
}

proof fn lemma_place_rest_sound(slots: Seq<Slot>, p: Placement, start: nat, left: nat)
    requires
        sound(slots, p, start),
        left == unplaced_count(p.placed, slots.len()),
    ensures
        sound(slots, place_rest(slots, p, left), start),
        unplaced_count(place_rest(slots, p, left).placed, slots.len()) == 0,
    decreases left,
{
    if left > 0 {
        lemma_next_field(slots, p);
        if next_field(slots, p) is None {
            lemma_all_placed_count(p.placed, slots.len());
        } else {
            let i = next_field(slots, p)->0;
            lemma_unplaced_count_update(p.placed, slots.len(), i);
            lemma_place_one_sound(slots, p, start);
            lemma_place_rest_sound(slots, place_one(slots, p), start, (left - 1) as nat);
        }
    }
}

/// Every field is placed at or after the start, at a multiple of its alignment
/// and before the end, and no two fields share a byte.
pub proof fn law_fields_are_aligned_and_apart(slots: Seq<Slot>, start: nat)
    ensures
        ({
            let p = placement(slots, start);
            &&& p.offsets.len() == slots.len()
            &&& forall|i: int| 0 <= i < slots.len() ==> start <= #[trigger] p.offsets[i]
            &&& forall|i: int|
                0 <= i < slots.len() ==> fits(slots[i].align, #[trigger] p.offsets[i])
            &&& forall|i: int|
                0 <= i < slots.len() ==> #[trigger] p.offsets[i] + slots[i].size <= p.pos
            &&& forall|i: int, j: int|
                0 <= i < slots.len() && 0 <= j < slots.len() && i != j ==> disjoint(
                    slots,
                    p.offsets,
                    i,
                    j,
                )
        }),
{
    let first = unplaced(slots.len(), start);
    lemma_unplaced_count_all(slots.len(), slots.len());
    lemma_place_rest_sound(slots, first, start, slots.len());
    let p = placement(slots, start);
    assert forall|i: int| 0 <= i < slots.len() implies #[trigger] p.placed[i] by {
        lemma_unplaced_count_zero(p.placed, slots.len(), i);
    }
    assert forall|i: int| 0 <= i < slots.len() implies {
        &&& start <= #[trigger] p.offsets[i]
        &&& fits(slots[i].align, p.offsets[i])
        &&& p.offsets[i] + slots[i].size <= p.pos
    } by {
        assert(p.placed[i]);
    }
    assert forall|i: int, j: int|
        0 <= i < slots.len() && 0 <= j < slots.len() && i != j implies disjoint(
        slots,
        p.offsets,
        i,
        j,
    ) by {
        assert(p.placed[i] && p.placed[j]);
    }
}

proof fn lemma_furthest_end(slots: Seq<Slot>, offsets: Seq<nat>, n: nat, floor: nat)
    ensures
        furthest_end(slots, offsets, n, floor) >= floor,
        forall|i: int|
            0 <= i < n ==> #[trigger] offsets[i] + slots[i].size <= furthest_end(
                slots,
                offsets,
                n,
                floor,
            ),
    decreases n,
{
    if n > 0 {
        lemma_furthest_end(slots, offsets, (n - 1) as nat, floor);
    }
}

proof fn lemma_furthest_end_bound(slots: Seq<Slot>, offsets: Seq<nat>, n: nat, floor: nat, top: nat)
    requires
        floor <= top,
        forall|i: int| 0 <= i < n ==> #[trigger] offsets[i] + slots[i].size <= top,
    ensures
        furthest_end(slots, offsets, n, floor) <= top,
    decreases n,
{
    if n > 0 {
        lemma_furthest_end_bound(slots, offsets, (n - 1) as nat, floor, top);
    }
}

/// A message body is a whole number of words, long enough for its header and
/// for every field.
pub proof fn law_body_covers_fields(slots: Seq<Slot>, offsets: Seq<nat>, header: nat)
    ensures
        body_length(slots, offsets, header) % 4 == 0,
        body_length(slots, offsets, header) >= header,
        forall|i: int|
            0 <= i < slots.len() ==> #[trigger] offsets[i] + slots[i].size <= body_length(
                slots,
                offsets,
                header,
            ),
{
    lemma_furthest_end(slots, offsets, slots.len(), header);
    lemma_aligned_up(furthest_end(slots, offsets, slots.len(), header), 4);
}

/// A message body ends with the word in which its last field ends: no word is
/// spent after it.
pub proof fn law_body_ends_with_last_field(slots: Seq<Slot>, header: nat)
    ensures
        body_length(slots, placement(slots, header).offsets, header) == aligned_up(
            placement(slots, header).pos,
            4,
        ),
{
    law_fields_are_aligned_and_apart(slots, header);
    let p = placement(slots, header);
    lemma_furthest_end(slots, p.offsets, slots.len(), header);
    let first = unplaced(slots.len(), header);
    lemma_unplaced_count_all(slots.len(), slots.len());
    lemma_place_rest_sound(slots, first, header, slots.len());
    lemma_furthest_end_bound(slots, p.offsets, slots.len(), header, p.pos);
    if p.pos != header {
        let i = choose|i: int|
            0 <= i < slots.len() && #[trigger] p.placed[i] && p.offsets[i] + slots[i].size == p.pos;
        assert(p.offsets[i] + slots[i].size == p.pos);
    }
}

proof fn lemma_widest_align(slots: Seq<Slot>, n: nat)
    requires
        n <= slots.len(),
    ensures
        widest_align(slots, n) >= 1,
        widest_align(slots, n) == 1 || exists|i: int|
            0 <= i < n && widest_align(slots, n) == (#[trigger] slots[i]).align,
        forall|i: int| 0 <= i < n ==> (#[trigger] slots[i]).align <= widest_align(slots, n),
    decreases n,
{
    if n > 0 {
        lemma_widest_align(slots, (n - 1) as nat);
    }
}

/// One element of a structure covers all its fields and is a multiple of its
/// widest alignment, so that the element after it is aligned too.
pub proof fn law_struct_size_keeps_alignment(slots: Seq<Slot>, offsets: Seq<nat>)
    ensures
        struct_size(slots, offsets) % widest_align(slots, slots.len()) == 0,
        forall|i: int| 0 <= i < slots.len() ==> (#[trigger] slots[i]).align <= widest_align(slots, slots.len()),
        forall|i: int|
            0 <= i < slots.len() ==> #[trigger] offsets[i] + slots[i].size <= struct_size(
                slots,
                offsets,
            ),
{
    lemma_furthest_end(slots, offsets, slots.len(), 0);
    lemma_widest_align(slots, slots.len());
    lemma_aligned_up(
        furthest_end(slots, offsets, slots.len(), 0),
        widest_align(slots, slots.len()),
    );
}

/// Whether the alignment divides the position.
pub open spec fn on_boundary(align: u32, pos: nat) -> bool {
    align == 0 || pos % (align as nat) == 0
}

/// The first free byte before step `k`: the start, or the end of the field placed
/// in the step before.
pub open spec fn free_byte(
    slots: Seq<Slot>,
    start: nat,
    offsets: Seq<nat>,
    order: Seq<int>,
    k: int,
) -> nat {
    if k <= 0 {
        start
    } else {
        offsets[order[k - 1]] + slots[order[k - 1]].size as nat
    }
}

/// Whether the field of step `k` is the right one at the right place. Among the
/// fields that are left, the first in declared order whose alignment divides the
/// first free byte goes there. Where there is none, the first that is left goes to
/// the next boundary of its alignment.
pub open spec fn step_is_right(
    slots: Seq<Slot>,
    start: nat,
    offsets: Seq<nat>,
    order: Seq<int>,
    k: int,
) -> bool {
    let free = free_byte(slots, start, offsets, order, k);
    let i = order[k];
    &&& on_boundary(slots[i].align, offsets[i])
    &&& forall|j: int|
        k <= j < order.len() && on_boundary(slots[#[trigger] order[j]].align, free) ==> i
            <= order[j] && offsets[i] == free
    &&& offsets[i] == free || {
        &&& free < offsets[i] < free + slots[i].align
        &&& forall|j: int| k <= j < order.len() ==> i <= #[trigger] order[j]
    }
}

/// Whether fields placed in this order have these offsets: every field is placed
/// in one step, and every step is right.
pub open spec fn laid_out(
    slots: Seq<Slot>,
    start: nat,
    offsets: Seq<nat>,
    order: Seq<int>,
) -> bool {
    &&& order.len() == slots.len()
    &&& offsets.len() == slots.len()
    &&& order.no_duplicates()
    &&& forall|k: int| 0 <= k < order.len() ==> 0 <= #[trigger] order[k] < slots.len()
    &&& forall|k: int|
        0 <= k < order.len() ==> #[trigger] step_is_right(slots, start, offsets, order, k)
}

/// The fields in the order in which they are placed.
spec fn placing_order(slots: Seq<Slot>, start: nat) -> Seq<int> {
    Seq::new(slots.len(), |k: int| next_field(slots, stage(slots, start, k as nat))->0)
}

/// How far placing has come after `k` steps.
spec fn stage(slots: Seq<Slot>, start: nat, k: nat) -> Placement {
    place_rest(slots, unplaced(slots.len(), start), k)
}

proof fn lemma_one_step_more(slots: Seq<Slot>, p: Placement, k: nat)
    ensures
        place_rest(slots, p, k + 1) == place_one(slots, place_rest(slots, p, k)),
    decreases k,
{
    if k == 0 {
        reveal_with_fuel(place_rest, 2);
    } else {
        lemma_one_step_more(slots, place_one(slots, p), (k - 1) as nat);
    }
}

proof fn lemma_next_fitting_is_first(slots: Seq<Slot>, placed: Seq<bool>, pos: nat, from: int)
    requires
        0 <= from,
    ensures
        match next_fitting(slots, placed, pos, from) {
            Some(i) => {
                &&& from <= i < slots.len()
                &&& !placed[i]
                &&& on_boundary(slots[i].align, pos)
                &&& forall|j: int|
                    from <= j < i ==> placed[j] || !on_boundary((#[trigger] slots[j]).align, pos)
            },
            None => forall|j: int|
                from <= j < slots.len() ==> placed[j] || !on_boundary(
                    (#[trigger] slots[j]).align,
                    pos,
                ),
        },
    decreases slots.len() - from,
{
    if from < slots.len() {
        lemma_next_fitting_is_first(slots, placed, pos, from + 1);
    }
}

proof fn lemma_next_unplaced_is_first(placed: Seq<bool>, from: int)
    requires
        0 <= from,
    ensures
        match next_unplaced(placed, from) {
            Some(i) => from <= i < placed.len() && !placed[i] && forall|j: int|
                from <= j < i ==> #[trigger] placed[j],
            None => forall|j: int| from <= j < placed.len() ==> #[trigger] placed[j],
        },
    decreases placed.len() - from,
{
    if from < placed.len() {
        lemma_next_unplaced_is_first(placed, from + 1);
    }
}

proof fn lemma_stage(slots: Seq<Slot>, start: nat, k: nat)
    requires
        k <= slots.len(),
    ensures
        ({
            let p = stage(slots, start, k);
            &&& p.placed.len() == slots.len()
            &&& p.offsets.len() == slots.len()
            &&& unplaced_count(p.placed, slots.len()) == slots.len() - k
            &&& k < slots.len() ==> {
                let i = placing_order(slots, start)[k as int];
                &&& next_field(slots, p) == Some(i)
                &&& 0 <= i < slots.len()
                &&& !p.placed[i]
            }
        }),
    decreases k,
{
    let p = stage(slots, start, k);
    if k == 0 {
        lemma_unplaced_count_all(slots.len(), slots.len());
    } else {
        lemma_stage(slots, start, (k - 1) as nat);
        lemma_one_step_more(slots, unplaced(slots.len(), start), (k - 1) as nat);
        let before = stage(slots, start, (k - 1) as nat);
        let i = next_field(slots, before)->0;
        lemma_unplaced_count_update(before.placed, slots.len(), i);
    }
    lemma_next_field(slots, p);
    if k < slots.len() && next_field(slots, p) is None {
        lemma_all_placed_count(p.placed, slots.len());
    }
}

proof fn lemma_placed_before(slots: Seq<Slot>, start: nat, j: nat, k: nat)
    requires
        j < k <= slots.len(),
    ensures
        ({
            let i = placing_order(slots, start)[j as int];
            let p = stage(slots, start, k);
            &&& p.placed[i]
            &&& p.offsets[i] == stage(slots, start, j + 1).offsets[i]
        }),
    decreases k,
{
    lemma_stage(slots, start, j);
    lemma_stage(slots, start, (k - 1) as nat);
    lemma_one_step_more(slots, unplaced(slots.len(), start), (k - 1) as nat);
    if j < k - 1 {
        lemma_placed_before(slots, start, j, (k - 1) as nat);
    }
}

proof fn lemma_placed_in_some_step(slots: Seq<Slot>, start: nat, k: nat, i: int)
    requires
        k <= slots.len(),
        0 <= i < slots.len(),
        stage(slots, start, k).placed[i],
    ensures
        exists|j: int| 0 <= j < k && #[trigger] placing_order(slots, start)[j] == i,
    decreases k,
{
    if k > 0 {
        lemma_stage(slots, start, (k - 1) as nat);
        lemma_one_step_more(slots, unplaced(slots.len(), start), (k - 1) as nat);
        if placing_order(slots, start)[k - 1] != i {
            lemma_placed_in_some_step(slots, start, (k - 1) as nat, i);
        }
    }
}

proof fn lemma_left_at_stage(slots: Seq<Slot>, start: nat, j: nat, k: nat)
    requires
        k <= j < slots.len(),
    ensures
        !stage(slots, start, k).placed[placing_order(slots, start)[j as int]],
{
    let i = placing_order(slots, start)[j as int];
    lemma_stage(slots, start, j);
    if stage(slots, start, k).placed[i] {
        lemma_placed_in_some_step(slots, start, k, i);
        let l = choose|l: int| 0 <= l < k && #[trigger] placing_order(slots, start)[l] == i;
        lemma_placed_before(slots, start, l as nat, j);
    }
}

proof fn lemma_step_is_right(slots: Seq<Slot>, start: nat, k: int)
    requires
        0 <= k < slots.len(),
    ensures
        step_is_right(
            slots,
            start,
            placement(slots, start).offsets,
            placing_order(slots, start),
            k,
        ),
{
    let order = placing_order(slots, start);
    let offsets = placement(slots, start).offsets;
    let p = stage(slots, start, k as nat);
    let i = order[k];
    lemma_stage(slots, start, k as nat);
    lemma_one_step_more(slots, unplaced(slots.len(), start), k as nat);
    lemma_placed_before(slots, start, k as nat, slots.len());
    let free = free_byte(slots, start, offsets, order, k);
    if k > 0 {
        lemma_stage(slots, start, (k - 1) as nat);
        lemma_one_step_more(slots, unplaced(slots.len(), start), (k - 1) as nat);
        lemma_placed_before(slots, start, (k - 1) as nat, slots.len());
    }
    assert(p.pos == free);
    lemma_next_fitting_is_first(slots, p.placed, p.pos, 0);
    lemma_next_unplaced_is_first(p.placed, 0);
    lemma_aligned_up(p.pos, slots[i].align as nat);
    assert(offsets[i] == aligned_up(p.pos, slots[i].align as nat));
    assert forall|j: int|
        k <= j < order.len() && on_boundary(slots[#[trigger] order[j]].align, free) implies i
        <= order[j] && offsets[i] == free by {
        lemma_stage(slots, start, j as nat);
        lemma_left_at_stage(slots, start, j as nat, k as nat);
        assert(on_boundary(slots[order[j]].align, p.pos));
    }
    if offsets[i] != free {
        assert forall|j: int| k <= j < order.len() implies i <= #[trigger] order[j] by {
            lemma_stage(slots, start, j as nat);
            lemma_left_at_stage(slots, start, j as nat, k as nat);
        }
    }
}

/// Fields are placed one after another without gaps as long as one of those that
/// are left fits: the first of these in declared order goes to exactly the first
/// free byte. Padding is spent only where none fits, and then no more of it than
/// the alignment of the first that is left asks for.
pub proof fn law_padding_is_spent_only_where_nothing_fits(slots: Seq<Slot>, start: nat)
    ensures
        exists|order: Seq<int>| laid_out(slots, start, placement(slots, start).offsets, order),
{
    let order = placing_order(slots, start);
    law_fields_are_aligned_and_apart(slots, start);
    assert forall|k: int| 0 <= k < order.len() implies 0 <= #[trigger] order[k] < slots.len() by {
        lemma_stage(slots, start, k as nat);
    }
    assert forall|j: int, k: int|
        0 <= j < order.len() && 0 <= k < order.len() && j != k implies order[j] != order[k] by {
        if j < k {
            lemma_placed_before(slots, start, j as nat, k as nat);
            lemma_stage(slots, start, k as nat);
        } else {
            lemma_placed_before(slots, start, k as nat, j as nat);
            lemma_stage(slots, start, j as nat);
        }
    }
    assert forall|k: int| 0 <= k < order.len() implies #[trigger] step_is_right(
        slots,
        start,
        placement(slots, start).offsets,
        order,
        k,
    ) by {
        lemma_step_is_right(slots, start, k);
    }
    assert(laid_out(slots, start, placement(slots, start).offsets, order));
}

/// A message body is no longer than it has to be: where it is longer than the
/// header, some field or the header reaches into its last word.
pub proof fn law_body_is_as_short_as_can_be(slots: Seq<Slot>, offsets: Seq<nat>, header: nat)
    ensures
        ({
            let length = body_length(slots, offsets, header);
            ||| length < header + 4
            ||| exists|i: int|
                0 <= i < slots.len() && length < #[trigger] offsets[i] + slots[i].size + 4
        }),
{
    lemma_furthest_end_is_reached(slots, offsets, slots.len(), header);
    lemma_aligned_up(furthest_end(slots, offsets, slots.len(), header), 4);
}

proof fn lemma_furthest_end_is_reached(slots: Seq<Slot>, offsets: Seq<nat>, n: nat, floor: nat)
    ensures
        furthest_end(slots, offsets, n, floor) == floor || exists|i: int|
            0 <= i < n && furthest_end(slots, offsets, n, floor) == #[trigger] offsets[i]
                + slots[i].size,
    decreases n,
{
    if n > 0 {
        lemma_furthest_end_is_reached(slots, offsets, (n - 1) as nat, floor);
        let before = furthest_end(slots, offsets, (n - 1) as nat, floor);
        let end = offsets[n - 1] + slots[n - 1].size as nat;
        if end > before {
            assert(furthest_end(slots, offsets, n, floor) == offsets[n - 1] + slots[n - 1].size);
        }
    }
}

/// Whether a size holds all fields and keeps every one of them aligned in the
/// element after it.
pub open spec fn element_can_be(slots: Seq<Slot>, offsets: Seq<nat>, size: nat) -> bool {
    forall|i: int|
        #![trigger slots[i]]
        0 <= i < slots.len() ==> offsets[i] + slots[i].size <= size && on_boundary(
            slots[i].align,
            size,
        )
}

/// One element of a structure of values as they stand on the wire has the least
/// size that holds all fields and keeps every one of them aligned in the element
/// after it.
pub proof fn law_struct_size_is_least(slots: Seq<Slot>, offsets: Seq<nat>, size: nat)
    requires
        forall|i: int| 0 <= i < slots.len() ==> is_wire_align((#[trigger] slots[i]).align),
    ensures
        element_can_be(slots, offsets, struct_size(slots, offsets)),
        element_can_be(slots, offsets, size) ==> struct_size(slots, offsets) <= size,
{
    law_struct_size_keeps_alignment(slots, offsets);
    lemma_widest_align(slots, slots.len());
    let widest = widest_align(slots, slots.len());
    let end = furthest_end(slots, offsets, slots.len(), 0);
    lemma_furthest_end_is_reached(slots, offsets, slots.len(), 0);
    lemma_aligned_up(end, widest);
    assert forall|i: int| #![trigger slots[i]] 0 <= i < slots.len() implies on_boundary(
        slots[i].align,
        struct_size(slots, offsets),
    ) by {
        assert(is_wire_align(slots[i].align));
        lemma_wire_aligns_divide(struct_size(slots, offsets), widest, slots[i].align as nat);
    }
    if element_can_be(slots, offsets, size) && size < struct_size(slots, offsets) {
        assert(size >= end);
        if widest > 1 {
            let i = choose|i: int|
                0 <= i < slots.len() && widest == (#[trigger] slots[i]).align;
            assert(on_boundary(slots[i].align, size));
            assert(size % widest == 0 && struct_size(slots, offsets) % widest == 0);
            assert(struct_size(slots, offsets) < size + widest);
            lemma_boundaries_are_apart(size, struct_size(slots, offsets), widest);
        }
    }
}

/// The alignments of values on the wire.
pub open spec fn is_wire_align(align: u32) -> bool {
    align == 1 || align == 2 || align == 4 || align == 8
}

proof fn lemma_wire_aligns_divide(size: nat, widest: nat, align: nat)
    requires
        align <= widest,
        widest == 1 || widest == 2 || widest == 4 || widest == 8,
        align == 1 || align == 2 || align == 4 || align == 8,
        size % widest == 0,
    ensures
        size % align == 0,
{
}

proof fn lemma_boundaries_are_apart(a: nat, b: nat, align: nat)
    requires
        align > 1,
        a % align == 0,
        b % align == 0,
        a < b,
    ensures
        a + align <= b,
{
    let p = a / align;
    let q = b / align;
    assert(a == align * p && b == align * q) by (nonlinear_arith)
        requires
            align > 1,
            a % align == 0,
            b % align == 0,
            p == a / align,
            q == b / align,
    ;
    assert(a + align <= b) by (nonlinear_arith)
        requires
            a == align * p,
            b == align * q,
            a < b,
            align > 1,
    ;
}

/// The first multiple of `align` at or after `value`, or none where it does not
/// fit in 32 bits.
pub fn align_up_checked(value: u32, align: u32) -> (r: Option<u32>)
    ensures
        r == (if aligned_up(value as nat, align as nat) <= u32::MAX {
            Some(aligned_up(value as nat, align as nat) as u32)
        } else {
            None
        }),
{
    if align <= 1 {
        return Some(value);
    }
    let rem: u32 = value % align;
    if rem == 0 {
        Some(value)
    } else {
        value.checked_add(align - rem)
    }
}

/// The first multiple of `align` at or after `value`.
pub fn align_up(value: u32, align: u32) -> (r: u32)
    requires
        aligned_up(value as nat, align as nat) <= u32::MAX,
    ensures
        r == aligned_up(value as nat, align as nat),
{
    if align <= 1 {
        return value;
    }
    let rem: u32 = value % align;
    if rem == 0 {
        value
    } else {
        value + (align - rem)
    }
}

fn slot_fits(align: u32, pos: u32) -> (r: bool)
    ensures
        r == fits(align, pos as nat),
{
    align <= 1 || pos % align == 0
}

fn find_next(slots: &[Slot], placed: &Vec<bool>, pos: u32) -> (r: Option<usize>)
    requires
        placed@.len() == slots@.len(),
    ensures
        ({
            let p = Placement { offsets: Seq::empty(), placed: placed@, pos: pos as nat };
            match r {
                Some(i) => next_field(slots@, p) == Some(i as int),
                None => next_field(slots@, p) is None,
            }
        }),
{
    let n: usize = slots.len();
    let mut fallback: Option<usize> = None;
    let mut i: usize = 0;
    while i < n
        invariant
            i <= n,
            n == slots@.len(),
            placed@.len() == slots@.len(),
            next_fitting(slots@, placed@, pos as nat, 0) == next_fitting(
                slots@,
                placed@,
                pos as nat,
                i as int,
            ),
            match fallback {
                Some(f) => next_unplaced(placed@, 0) == Some(f as int),
                None => next_unplaced(placed@, 0) == next_unplaced(placed@, i as int),
            },
        decreases n - i,
    {
        if !placed[i] {
            if slot_fits(slots[i].align, pos) {
                return Some(i);
            }
            if fallback.is_none() {
                fallback = Some(i);
            }
        }
        i += 1;
    }
    fallback
}

/// Places the fields from byte `start` on and gives one offset for each, in
/// declared order; none where the end lies beyond 32 bits.
pub fn place_slots(slots: &[Slot], start: u32) -> (r: Option<Vec<u32>>)
    ensures
        match r {
            Some(offsets) => placement(slots@, start as nat).pos <= u32::MAX && offset_views(
                offsets@,
            ) == placement(slots@, start as nat).offsets,
            None => placement(slots@, start as nat).pos > u32::MAX,
        },
{
    let n: usize = slots.len();
    let mut offsets: Vec<u32> = Vec::new();
    let mut placed: Vec<bool> = Vec::new();
    let mut k: usize = 0;
    while k < n
        invariant
            k <= n,
            offsets@ == Seq::new(k as nat, |i: int| 0u32),
            placed@ == Seq::new(k as nat, |i: int| false),
        decreases n - k,
    {
        offsets.push(0);
        placed.push(false);
        k += 1;
    }
    let mut pos: u32 = start;
    let mut left: usize = n;
    let ghost goal = placement(slots@, start as nat);
    proof {
        assert(offset_views(offsets@) =~= unplaced(slots@.len(), start as nat).offsets);
    }
    while left > 0
        invariant
            n == slots@.len(),
            left <= n,
            offsets@.len() == n,
            placed@.len() == n,
            goal == place_rest(
                slots@,
                Placement { offsets: offset_views(offsets@), placed: placed@, pos: pos as nat },
                left as nat,
            ),
            goal == placement(slots@, start as nat),
        decreases left,
    {
        let ghost p = Placement {
            offsets: offset_views(offsets@),
            placed: placed@,
            pos: pos as nat,
        };
        let ghost bare = Placement { offsets: Seq::empty(), placed: placed@, pos: pos as nat };
        proof {
            assert(next_field(slots@, p) == next_field(slots@, bare));
            lemma_next_field(slots@, p);
            lemma_place_rest_pos(slots@, place_one(slots@, p), (left - 1) as nat);
        }
        match find_next(slots, &placed, pos) {
            Some(i) => {
                let slot = slots[i];
                proof {
                    lemma_aligned_up(pos as nat, slot.align as nat);
                }
                let at: u32 = match align_up_checked(pos, slot.align) {
                    Some(at) => at,
                    None => {
                        return None;
                    },
                };
                let end: u32 = match at.checked_add(slot.size) {
                    Some(end) => end,
                    None => {
                        return None;
                    },
                };
                let ghost before = offsets@;
                offsets.set(i, at);
                placed.set(i, true);
                pos = end;
                assert(offset_views(offsets@) =~= offset_views(before).update(i as int, at as nat));
            },
            None => {},
        }
        left -= 1;
    }
    Some(offsets)
}

/// The length of a message body with these offsets, or none where it does not
/// fit in 32 bits.
pub fn compute_body_length(slots: &[Slot], offsets: &Vec<u32>, header: u32) -> (r: Option<u32>)
    requires
        offsets@.len() == slots@.len(),
        forall|i: int|
            0 <= i < slots@.len() ==> #[trigger] offsets@[i] + slots@[i].size <= u32::MAX,
    ensures
        ({
            let length = body_length(slots@, offset_views(offsets@), header as nat);
            r == (if length <= u32::MAX {
                Some(length as u32)
            } else {
                None
            })
        }),
{
    let end = find_furthest_end(slots, offsets, header);
    align_up_checked(end, 4)
}

fn find_furthest_end(slots: &[Slot], offsets: &Vec<u32>, floor: u32) -> (r: u32)
    requires
        offsets@.len() == slots@.len(),
        forall|i: int|
            0 <= i < slots@.len() ==> #[trigger] offsets@[i] + slots@[i].size <= u32::MAX,
    ensures
        r == furthest_end(slots@, offset_views(offsets@), slots@.len(), floor as nat),
{
    let mut end: u32 = floor;
    for i in 0..slots.len()
        invariant
            offsets@.len() == slots@.len(),
            forall|i: int|
                0 <= i < slots@.len() ==> #[trigger] offsets@[i] + slots@[i].size <= u32::MAX,
            end == furthest_end(slots@, offset_views(offsets@), i as nat, floor as nat),
    {
        assert(offset_views(offsets@)[i as int] == offsets@[i as int]);
        let this: u32 = offsets[i] + slots[i].size;
        if this > end {
            end = this;
        }
    }
    end
}

/// The size of one element of a structure with these offsets, or none where it
/// does not fit in 32 bits.
pub fn compute_aligned_struct_size(slots: &[Slot], offsets: &Vec<u32>) -> (r: Option<u32>)
    requires
        offsets@.len() == slots@.len(),
        forall|i: int|
            0 <= i < slots@.len() ==> #[trigger] offsets@[i] + slots@[i].size <= u32::MAX,
    ensures
        ({
            let size = struct_size(slots@, offset_views(offsets@));
            r == (if size <= u32::MAX {
                Some(size as u32)
            } else {
                None
            })
        }),
{
    let end = find_furthest_end(slots, offsets, 0);
    let mut align: u32 = 1;
    for i in 0..slots.len()
        invariant
            align == widest_align(slots@, i as nat),
    {
        if slots[i].align > align {
            align = slots[i].align;
        }
    }
    align_up_checked(end, align)
}

} // verus!
