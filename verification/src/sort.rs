//! Sorting, built on the ground floor.
//!
//! What SortableJS calls a group lives here: containers you can drag
//! between, insertion slots measured from the rectangles you actually
//! drew, and a keyboard carry that does what a mouse drag does without a
//! mouse. Rendering stays with the caller; while something is held, leave
//! it out of what you register, and ask [`Sortable::over`] where to open
//! the gap.

use vstd::prelude::*;

use vstd::std_specs::cmp::PartialEqSpec;

use crate::geom::{max, sat_sub, MouseButton, MouseEvent, MouseEventKind, Rect};
use crate::interact::{ghost_of, is_left_down, is_left_up, next_state, outcome, Did, Drag, State};

verus! {

/// Where the row that starts before index `j` ends: items from `j` on
/// join it while they start above `bottom`, the lowest edge of the row so
/// far. Gives the first index past the row and the row's bottom edge.
pub open spec fn row_from(items: Seq<Rect>, j: int, bottom: int) -> (int, int)
    decreases items.len() - j,
{
    if 0 <= j < items.len() && items[j].y < bottom {
        row_from(items, j + 1, max(bottom, items[j].bottom_edge()))
    } else {
        (j, bottom)
    }
}

/// How many items of `row` have their horizontal midline at or left of
/// column `x`.
pub open spec fn count_past(row: Seq<Rect>, x: int) -> int
    decreases row.len(),
{
    if row.len() == 0 {
        0
    } else {
        count_past(row.drop_last(), x) + if x >= row.last().x + row.last().width / 2 {
            1int
        } else {
            0int
        }
    }
}

/// A row ends past where its reading started, and not past the end.
pub proof fn lemma_row_from_advances(items: Seq<Rect>, j: int, bottom: int)
    ensures
        row_from(items, j, bottom).0 >= j,
        j <= items.len() ==> row_from(items, j, bottom).0 <= items.len(),
    decreases items.len() - j,
{
    if 0 <= j < items.len() && items[j].y < bottom {
        lemma_row_from_advances(items, j + 1, max(bottom, items[j].bottom_edge()));
    }
}

/// No more items are passed than the row has.
pub proof fn lemma_count_past_bounds(row: Seq<Rect>, x: int)
    ensures
        0 <= count_past(row, x) <= row.len(),
    decreases row.len(),
{
    if row.len() > 0 {
        lemma_count_past_bounds(row.drop_last(), x);
    }
}

/// The gap a cursor at `(x, y)` means, reading rows from index `i` on.
///
/// A row is a run of consecutive items each starting above the lowest
/// edge of the ones before it. Above a row, the gap is the one before it;
/// inside a row of one item, before or after it by its vertical midline;
/// inside a row of several, after every item whose horizontal midline the
/// cursor has reached. Below every row, the gap after everything.
pub open spec fn slot_from(items: Seq<Rect>, i: int, x: int, y: int) -> int
    decreases items.len() - i,
{
    if i < 0 || i >= items.len() {
        items.len() as int
    } else {
        let (j, bottom) = row_from(items, i + 1, items[i].bottom_edge());
        if y < items[i].y {
            i
        } else if y < bottom {
            if j == i + 1 {
                if y >= items[i].y + items[i].height / 2 {
                    i + 1
                } else {
                    i
                }
            } else {
                i + count_past(items.subrange(i, j), x)
            }
        } else {
            proof {
                lemma_row_from_advances(items, i + 1, items[i].bottom_edge());
            }
            slot_from(items, j, x, y)
        }
    }
}

/// Which of `items.len() + 1` gaps a cursor over a container means,
/// measured from where its items were actually drawn, in drawing order.
///
/// Rows of one item read by their vertical midline, rows of several by
/// each item's horizontal midline — so the same rule serves a vertical
/// list of any heights, a horizontal strip, and a row-major grid, without
/// being told which one it is looking at.
pub fn slot(items: &[Rect], x: u16, y: u16) -> (s: usize)
    requires
        forall|k: int| 0 <= k < items@.len() ==> (#[trigger] items@[k]).wf(),
    ensures
        s == slot_from(items@, 0, x as int, y as int),
{
    let mut i: usize = 0;
    while i < items.len()
        invariant
            0 <= i <= items@.len(),
            forall|k: int| 0 <= k < items@.len() ==> (#[trigger] items@[k]).wf(),
            slot_from(items@, 0, x as int, y as int) == slot_from(items@, i as int, x as int, y as int),
        decreases items.len() - i,
    {
        let top: u16 = items[i].y;
        let mut bottom: u16 = items[i].bottom();
        let mut j: usize = i + 1;
        while j < items.len() && items[j].y < bottom
            invariant
                i < j <= items@.len(),
                row_from(items@, i + 1, items@[i as int].bottom_edge()) == row_from(
                    items@,
                    j as int,
                    bottom as int,
                ),
            decreases items.len() - j,
        {
            let b: u16 = items[j].bottom();
            if b > bottom {
                bottom = b;
            }
            j = j + 1;
        }
        if y < top {
            return i;
        }
        if y < bottom {
            if j - i == 1 {
                if y >= items[i].y + items[i].height / 2 {
                    return i + 1;
                } else {
                    return i;
                }
            }
            let mut count: usize = 0;
            let mut k: usize = i;
            while k < j
                invariant
                    i <= k <= j <= items@.len(),
                    count == count_past(items@.subrange(i as int, k as int), x as int),
                    count <= k - i,
                    forall|m: int| 0 <= m < items@.len() ==> (#[trigger] items@[m]).wf(),
                decreases j - k,
            {
                assert(items@.subrange(i as int, k + 1).drop_last() =~= items@.subrange(
                    i as int,
                    k as int,
                ));
                let r: Rect = items[k];
                if x >= r.x + r.width / 2 {
                    count = count + 1;
                }
                k = k + 1;
            }
            return i + count;
        }
        i = j;
    }
    items.len()
}

/// What a mouse event amounted to, with the drop already resolved to a
/// container and a slot.
#[derive(Debug, PartialEq)]
pub enum Act<C, K> {
    Nothing,
    Click(K),
    Lift(K),
    Move,
    Drop { key: K, container: C, slot: usize },
}

/// A container as the contracts see it: its id, the area it covers, and
/// its items with the rectangles they were drawn in, in drawing order.
pub struct Lane<C, K> {
    pub id: C,
    pub area: Rect,
    pub items: Seq<(K, Rect)>,
}

/// Something held by the keyboard rather than the mouse. It has no
/// cursor; its position is a slot in a container, moved a step at a time.
pub struct Carry<K> {
    pub key: K,
    pub con: usize,
    pub slot: usize,
}

struct Con<C, K> {
    id: C,
    area: Rect,
    items: Vec<(K, Rect)>,
}

/// The rectangles the items of a container were drawn in.
pub open spec fn rects_of<K>(items: Seq<(K, Rect)>) -> Seq<Rect> {
    items.map_values(|p: (K, Rect)| p.1)
}

/// How many cells, across plus down, a cell lies outside a rectangle; 0
/// inside it.
pub open spec fn distance_to(r: Rect, x: int, y: int) -> int {
    let dx: int = if x < r.x {
        r.x - x
    } else {
        sat_sub(x, r.x + sat_sub(r.width as int, 1))
    };
    let dy: int = if y < r.y {
        r.y - y
    } else {
        sat_sub(y, r.y + sat_sub(r.height as int, 1))
    };
    dx + dy
}

/// The first of `areas` at the least distance from the cell.
pub open spec fn nearest(areas: Seq<Rect>, x: int, y: int) -> int
    decreases areas.len(),
{
    if areas.len() <= 1 {
        0
    } else {
        let b: int = nearest(areas.drop_last(), x, y);
        if distance_to(areas.last(), x, y) < distance_to(areas[b], x, y) {
            areas.len() - 1
        } else {
            b
        }
    }
}

pub open spec fn areas_of<C, K>(lanes: Seq<Lane<C, K>>) -> Seq<Rect> {
    lanes.map_values(|l: Lane<C, K>| l.area)
}

/// Where a held thing let go at this cell lands: the container under the
/// cell or the nearest one, and the slot the cell means in it.
pub open spec fn place_of<C, K>(lanes: Seq<Lane<C, K>>, x: int, y: int) -> Option<(C, int)> {
    if lanes.len() == 0 {
        None
    } else {
        let n: int = nearest(areas_of(lanes), x, y);
        Some((lanes[n].id, slot_from(rects_of(lanes[n].items), 0, x, y)))
    }
}

/// `got` is `want`, with the container id a clone.
pub open spec fn place_like<C: Clone>(got: Option<(C, usize)>, want: Option<(C, int)>) -> bool {
    match want {
        None => got is None,
        Some((c, s)) => got matches Some((c2, s2)) && cloned(c, c2) && s2 == s,
    }
}

/// The last item of `items` whose rectangle holds the cell.
pub open spec fn top_item<K>(items: Seq<(K, Rect)>, x: int, y: int) -> Option<int>
    decreases items.len(),
{
    if items.len() == 0 {
        None
    } else if items.last().1.holds(x, y) {
        Some(items.len() - 1)
    } else {
        top_item(items.drop_last(), x, y)
    }
}

/// Where [`top_item`] finds an item, its rectangle holds the cell and no
/// later item's does; where it finds none, no item's does.
pub proof fn lemma_top_item<K>(items: Seq<(K, Rect)>, x: int, y: int)
    ensures
        match top_item(items, x, y) {
            Some(i) => {
                &&& 0 <= i < items.len()
                &&& items[i].1.holds(x, y)
                &&& forall|j: int| i < j < items.len() ==> !(#[trigger] items[j]).1.holds(x, y)
            },
            None => forall|j: int| 0 <= j < items.len() ==> !(#[trigger] items[j]).1.holds(x, y),
        },
    decreases items.len(),
{
    if items.len() > 0 {
        lemma_top_item(items.drop_last(), x, y);
        assert(forall|j: int| 0 <= j < items.len() - 1 ==> items.drop_last()[j] == items[j]);
    }
}

/// What a press at the cell picks up: in the last container that has an
/// item there, the last such item, as (container, item).
pub open spec fn lane_hit<C, K>(lanes: Seq<Lane<C, K>>, x: int, y: int) -> Option<(int, int)>
    decreases lanes.len(),
{
    if lanes.len() == 0 {
        None
    } else {
        match top_item(lanes.last().items, x, y) {
            Some(i) => Some((lanes.len() - 1, i)),
            None => lane_hit(lanes.drop_last(), x, y),
        }
    }
}

/// The act a drag outcome becomes: a drop resolved by [`place_of`], the
/// rest passed through; lifted keys and resolved container ids are clones.
pub open spec fn act_like<C: Clone, K: Clone>(
    got: Act<C, K>,
    did: Did<K>,
    lanes: Seq<Lane<C, K>>,
) -> bool {
    match did {
        Did::Nothing => got == Act::<C, K>::Nothing,
        Did::Click(k) => got == Act::<C, K>::Click(k),
        Did::Lift(k) => got matches Act::Lift(k2) && cloned(k, k2),
        Did::Move => got == Act::<C, K>::Move,
        Did::Drop { key, x, y } => match place_of(lanes, x as int, y as int) {
            None => got == Act::<C, K>::Nothing,
            Some((c, s)) => got matches Act::Drop { key: k2, container, slot } && k2 == key
                && cloned(c, container) && slot == s,
        },
    }
}

/// `v` held between `lo` and `hi`.
pub open spec fn clamp(v: int, lo: int, hi: int) -> int {
    if v < lo {
        lo
    } else if v > hi {
        hi
    } else {
        v
    }
}

/// A keyboard step never leaves the range it is held in, and a step that
/// stays inside the range is taken in full.
pub proof fn lemma_clamp(v: int, lo: int, hi: int)
    requires
        lo <= hi,
    ensures
        lo <= clamp(v, lo, hi) <= hi,
        lo <= v <= hi ==> clamp(v, lo, hi) == v,
        v < lo ==> clamp(v, lo, hi) == lo,
        v > hi ==> clamp(v, lo, hi) == hi,
{
}

/// Item `s` of container `c` is the first with this key, reading the
/// containers in order and each container's items in order.
pub open spec fn is_first_key<C, K: PartialEq>(
    lanes: Seq<Lane<C, K>>,
    key: K,
    c: int,
    s: int,
) -> bool {
    &&& 0 <= c < lanes.len()
    &&& 0 <= s < lanes[c].items.len()
    &&& lanes[c].items[s].0.eq_spec(&key)
    &&& forall|i: int| 0 <= i < s ==> !(#[trigger] lanes[c].items[i]).0.eq_spec(&key)
    &&& forall|d: int, i: int|
        0 <= d < c && 0 <= i < lanes[d].items.len() ==> !(#[trigger] lanes[d].items[i]).0.eq_spec(
            &key,
        )
}

/// Some container holds an item with this key.
pub open spec fn has_key<C, K: PartialEq>(lanes: Seq<Lane<C, K>>, key: K) -> bool {
    exists|d: int, i: int|
        0 <= d < lanes.len() && 0 <= i < lanes[d].items.len() && (#[trigger] lanes[d].items[i]).0.eq_spec(
            &key,
        )
}

/// `dst` holds the same rectangles as `src`, with cloned keys.
pub open spec fn copies<K: Clone>(src: Seq<(K, Rect)>, dst: Seq<(K, Rect)>) -> bool {
    &&& dst.len() == src.len()
    &&& forall|i: int|
        0 <= i < src.len() ==> (#[trigger] dst[i]).1 == src[i].1 && cloned(src[i].0, dst[i].0)
}

/// `new` is `old` with container `i` given a new area and items (keeping
/// its id), or, where `i` is past the end, with a new container appended.
pub open spec fn refreshed<C, K: Clone>(
    old: Seq<Lane<C, K>>,
    new: Seq<Lane<C, K>>,
    i: int,
    id: C,
    area: Rect,
    items: Seq<(K, Rect)>,
) -> bool {
    if 0 <= i < old.len() {
        &&& new.len() == old.len()
        &&& forall|j: int| 0 <= j < old.len() && j != i ==> #[trigger] new[j] == old[j]
        &&& new[i].id == old[i].id
        &&& new[i].area == area
        &&& copies(items, new[i].items)
    } else {
        &&& i == old.len()
        &&& new.len() == old.len() + 1
        &&& forall|j: int| 0 <= j < old.len() ==> #[trigger] new[j] == old[j]
        &&& new[i].id == id
        &&& new[i].area == area
        &&& copies(items, new[i].items)
    }
}

/// The first container whose id equals `id`, or the number of containers.
pub open spec fn is_first_id<C: PartialEq, K>(lanes: Seq<Lane<C, K>>, id: C, i: int) -> bool {
    &&& 0 <= i <= lanes.len()
    &&& i < lanes.len() ==> lanes[i].id.eq_spec(&id)
    &&& forall|j: int| 0 <= j < i ==> !(#[trigger] lanes[j]).id.eq_spec(&id)
}

/// The index of the first container whose id equals `id`, or the number
/// of containers where none does.
pub open spec fn first_id<C: PartialEq, K>(lanes: Seq<Lane<C, K>>, id: C) -> int
    decreases lanes.len(),
{
    if lanes.len() == 0 {
        0
    } else if lanes[0].id.eq_spec(&id) {
        0
    } else {
        1 + first_id(lanes.drop_first(), id)
    }
}

/// The index of the first item with this key.
pub open spec fn first_item<K: PartialEq>(items: Seq<(K, Rect)>, key: K) -> Option<int>
    decreases items.len(),
{
    if items.len() == 0 {
        None
    } else if items[0].0.eq_spec(&key) {
        Some(0)
    } else {
        match first_item(items.drop_first(), key) {
            Some(i) => Some(i + 1),
            None => None,
        }
    }
}

/// The first item with this key, reading the containers in order and
/// each container's items in order, as (container, item).
pub open spec fn first_key<C, K: PartialEq>(lanes: Seq<Lane<C, K>>, key: K) -> Option<(int, int)>
    decreases lanes.len(),
{
    if lanes.len() == 0 {
        None
    } else {
        match first_item(lanes[0].items, key) {
            Some(i) => Some((0, i)),
            None => match first_key(lanes.drop_first(), key) {
                Some((c, i)) => Some((c + 1, i)),
                None => None,
            },
        }
    }
}

/// [`first_id`] is the first container with the id, or the number of
/// containers where none has it.
pub proof fn lemma_first_id<C: PartialEq, K>(lanes: Seq<Lane<C, K>>, id: C)
    ensures
        is_first_id(lanes, id, first_id(lanes, id)),
        forall|i: int| #[trigger] is_first_id(lanes, id, i) ==> i == first_id(lanes, id),
    decreases lanes.len(),
{
    if lanes.len() > 0 && !lanes[0].id.eq_spec(&id) {
        let rest = lanes.drop_first();
        lemma_first_id(rest, id);
        assert forall|j: int| 0 <= j < first_id(lanes, id) implies !(#[trigger] lanes[j]).id.eq_spec(
            &id,
        ) by {
            if j > 0 {
                assert(lanes[j] == rest[j - 1]);
            }
        }
    }
    let f = first_id(lanes, id);
    assert forall|i: int| #[trigger] is_first_id(lanes, id, i) implies i == f by {
        if i < f {
            assert(lanes[i].id.eq_spec(&id));
        }
        if f < i {
            assert(lanes[f].id.eq_spec(&id));
        }
    }
}

/// [`first_item`] is the first item with the key; where it finds none,
/// no item has the key.
pub proof fn lemma_first_item<K: PartialEq>(items: Seq<(K, Rect)>, key: K)
    ensures
        match first_item(items, key) {
            Some(i) => {
                &&& 0 <= i < items.len()
                &&& items[i].0.eq_spec(&key)
                &&& forall|j: int| 0 <= j < i ==> !(#[trigger] items[j]).0.eq_spec(&key)
            },
            None => forall|j: int| 0 <= j < items.len() ==> !(#[trigger] items[j]).0.eq_spec(&key),
        },
    decreases items.len(),
{
    if items.len() > 0 && !items[0].0.eq_spec(&key) {
        let rest = items.drop_first();
        lemma_first_item(rest, key);
        assert forall|j: int| 0 < j < items.len() implies items[j] == rest[j - 1] by {}
    }
}

/// [`first_key`] is the first item with the key across the containers;
/// where it finds none, no container has the key.
pub proof fn lemma_first_key<C, K: PartialEq>(lanes: Seq<Lane<C, K>>, key: K)
    ensures
        match first_key(lanes, key) {
            Some((c, s)) => is_first_key(lanes, key, c, s),
            None => !has_key(lanes, key),
        },
        forall|c: int, s: int| #[trigger] is_first_key(lanes, key, c, s) ==> first_key(lanes, key) == Some((c, s)),
    decreases lanes.len(),
{
    if lanes.len() > 0 {
        lemma_first_item(lanes[0].items, key);
        let rest = lanes.drop_first();
        lemma_first_key(rest, key);
        assert forall|d: int| 0 < d < lanes.len() implies lanes[d] == rest[d - 1] by {}
        match first_item(lanes[0].items, key) {
            Some(i) => {
                assert forall|c: int, s: int| #[trigger] is_first_key(lanes, key, c, s) implies first_key(
                    lanes,
                    key,
                ) == Some((c, s)) by {
                    if c > 0 {
                        assert(lanes[0].items[i].0.eq_spec(&key));
                    } else if s < i {
                        assert(lanes[0].items[s].0.eq_spec(&key));
                    } else if i < s {
                        assert(lanes[0].items[i].0.eq_spec(&key));
                    }
                }
            },
            None => {
                match first_key(rest, key) {
                    Some((c, s)) => {
                        assert(is_first_key(lanes, key, c + 1, s)) by {
                            assert forall|d: int, i: int|
                                0 <= d < c + 1 && 0 <= i < lanes[d].items.len() implies !(
                                #[trigger] lanes[d].items[i]).0.eq_spec(&key) by {
                                if d > 0 {
                                    assert(lanes[d].items[i] == rest[d - 1].items[i]);
                                }
                            }
                        }
                    },
                    None => {
                        assert forall|d: int, i: int|
                            0 <= d < lanes.len() && 0 <= i < lanes[d].items.len() implies !(
                            #[trigger] lanes[d].items[i]).0.eq_spec(&key) by {
                            if d > 0 {
                                assert(lanes[d].items[i] == rest[d - 1].items[i]);
                            }
                        }
                    },
                }
                assert forall|c: int, s: int| #[trigger] is_first_key(lanes, key, c, s) implies first_key(
                    lanes,
                    key,
                ) == Some((c, s)) by {
                    if c == 0 {
                        assert(lanes[0].items[s].0.eq_spec(&key));
                    } else {
                        assert(is_first_key(rest, key, c - 1, s)) by {
                            assert(rest[c - 1] == lanes[c]);
                            assert forall|d: int, i: int|
                                0 <= d < c - 1 && 0 <= i < rest[d].items.len() implies !(
                                #[trigger] rest[d].items[i]).0.eq_spec(&key) by {
                                assert(rest[d].items[i] == lanes[d + 1].items[i]);
                            }
                        }
                    }
                }
            },
        }
    }
}

/// A row whose items all end above `y` ends above `y`.
pub proof fn lemma_row_from_bottom(items: Seq<Rect>, j: int, bottom: int, y: int)
    requires
        bottom <= y,
        forall|k: int| 0 <= k < items.len() ==> (#[trigger] items[k]).bottom_edge() <= y,
    ensures
        row_from(items, j, bottom).1 <= y,
    decreases items.len() - j,
{
    if 0 <= j < items.len() && items[j].y < bottom {
        lemma_row_from_bottom(items, j + 1, max(bottom, items[j].bottom_edge()), y);
    }
}

/// The slot is one of the `items.len() + 1` gaps.
pub proof fn lemma_slot_in_range(items: Seq<Rect>, i: int, x: int, y: int)
    requires
        0 <= i,
    ensures
        i <= items.len() ==> i <= slot_from(items, i, x, y) <= items.len(),
        0 <= slot_from(items, i, x, y) <= items.len(),
    decreases items.len() - i,
{
    if i < items.len() {
        let (j, bottom) = row_from(items, i + 1, items[i].bottom_edge());
        lemma_row_from_advances(items, i + 1, items[i].bottom_edge());
        if y < items[i].y {
        } else if y < bottom {
            if j != i + 1 {
                lemma_count_past_bounds(items.subrange(i, j), x);
            }
        } else {
            lemma_slot_in_range(items, j, x, y);
        }
    }
}

/// Moving the cursor right never moves the gap back within a row.
pub proof fn lemma_count_past_monotone(row: Seq<Rect>, x1: int, x2: int)
    requires
        x1 <= x2,
    ensures
        count_past(row, x1) <= count_past(row, x2),
    decreases row.len(),
{
    if row.len() > 0 {
        lemma_count_past_monotone(row.drop_last(), x1, x2);
    }
}

/// Moving the cursor down never moves the gap back: the slot is
/// monotone in the row, whatever the layout.
pub proof fn lemma_slot_monotone_down(items: Seq<Rect>, i: int, x: int, y1: int, y2: int)
    requires
        0 <= i,
        y1 <= y2,
    ensures
        slot_from(items, i, x, y1) <= slot_from(items, i, x, y2),
    decreases items.len() - i,
{
    if i < items.len() {
        let (j, bottom) = row_from(items, i + 1, items[i].bottom_edge());
        lemma_row_from_advances(items, i + 1, items[i].bottom_edge());
        lemma_slot_in_range(items, i, x, y2);
        lemma_slot_in_range(items, j, x, y2);
        if j != i + 1 {
            lemma_count_past_bounds(items.subrange(i, j), x);
        }
        if y1 >= bottom {
            lemma_slot_monotone_down(items, j, x, y1, y2);
        }
    }
}

/// Moving the cursor right never moves the gap back.
pub proof fn lemma_slot_monotone_right(items: Seq<Rect>, i: int, x1: int, x2: int, y: int)
    requires
        0 <= i,
        x1 <= x2,
    ensures
        slot_from(items, i, x1, y) <= slot_from(items, i, x2, y),
    decreases items.len() - i,
{
    if i < items.len() {
        let (j, bottom) = row_from(items, i + 1, items[i].bottom_edge());
        lemma_row_from_advances(items, i + 1, items[i].bottom_edge());
        if j != i + 1 {
            lemma_count_past_monotone(items.subrange(i, j), x1, x2);
        }
        if y >= bottom {
            lemma_slot_monotone_right(items, j, x1, x2, y);
        }
    }
}

/// Each item starts at or below the bottom of every item before it: a
/// plain list, one item to a row.
pub open spec fn is_column(items: Seq<Rect>) -> bool {
    forall|j: int, k: int|
        0 <= j < k < items.len() ==> (#[trigger] items[j]).bottom_edge() <= (#[trigger] items[k]).y
}

/// Rows before `k` that all end at or above `y` are passed over.
proof fn lemma_column_skips_rows(items: Seq<Rect>, i: int, k: int, x: int, y: int)
    requires
        is_column(items),
        0 <= i <= k < items.len(),
        forall|m: int| 0 <= m < k ==> (#[trigger] items[m]).bottom_edge() <= y,
    ensures
        slot_from(items, i, x, y) == slot_from(items, k, x, y),
    decreases k - i,
{
    if i < k {
        assert(items[i].bottom_edge() <= y);
        assert(items[i].bottom_edge() <= items[i + 1].y);
        assert(row_from(items, i + 1, items[i].bottom_edge()) == (i + 1, items[i].bottom_edge()));
        lemma_column_skips_rows(items, i + 1, k, x, y);
    }
}

/// In a plain list, a cursor inside item `k` means the gap after it at or
/// below its vertical midline and the gap before it above that, whatever
/// the column.
pub proof fn lemma_column_slot_inside(items: Seq<Rect>, k: int, x: int, y: int)
    requires
        is_column(items),
        0 <= k < items.len(),
        items[k].y <= y < items[k].bottom_edge(),
    ensures
        slot_from(items, 0, x, y) == if y >= items[k].y + items[k].height / 2 {
            k + 1
        } else {
            k
        },
{
    assert forall|m: int| 0 <= m < k implies (#[trigger] items[m]).bottom_edge() <= y by {
        assert(items[m].bottom_edge() <= items[k].y);
    }
    lemma_column_skips_rows(items, 0, k, x, y);
    if k + 1 < items.len() {
        assert(items[k].bottom_edge() <= items[k + 1].y);
    }
    assert(row_from(items, k + 1, items[k].bottom_edge()) == (k + 1, items[k].bottom_edge()));
}

/// In a plain list, a cursor in the space between item `k - 1` and item
/// `k` means the gap between them.
pub proof fn lemma_column_slot_between(items: Seq<Rect>, k: int, x: int, y: int)
    requires
        is_column(items),
        0 < k < items.len(),
        items[k - 1].bottom_edge() <= y < items[k].y,
    ensures
        slot_from(items, 0, x, y) == k,
{
    assert forall|m: int| 0 <= m < k implies (#[trigger] items[m]).bottom_edge() <= y by {
        if m < k - 1 {
            assert(items[m].bottom_edge() <= items[k - 1].y);
        }
    }
    lemma_column_skips_rows(items, 0, k, x, y);
}

/// The midline test [`count_past`] counts: how many items of `row` have
/// their horizontal midline at or left of column `x`.
pub proof fn lemma_count_past_counts(row: Seq<Rect>, x: int)
    ensures
        count_past(row, x) == row.filter(|r: Rect| x >= r.x + r.width / 2).len(),
    decreases row.len(),
{
    reveal_with_fuel(Seq::<_>::filter, 1);
    if row.len() > 0 {
        lemma_count_past_counts(row.drop_last(), x);
    }
}

proof fn lemma_row_takes_all(items: Seq<Rect>, j: int, bottom: int, top_bottom: int)
    requires
        0 <= j <= items.len(),
        top_bottom <= bottom,
        forall|k: int| 0 <= k < items.len() ==> (#[trigger] items[k]).y < top_bottom,
    ensures
        row_from(items, j, bottom).0 == items.len(),
        row_from(items, j, bottom).1 >= bottom,
    decreases items.len() - j,
{
    if j < items.len() {
        lemma_row_takes_all(items, j + 1, max(bottom, items[j].bottom_edge()), top_bottom);
    }
}

/// In a strip of several items that all start above the first item's
/// bottom edge, a cursor on the first item's rows means the gap after
/// every item whose horizontal midline it has reached, whatever the order
/// the items were drawn in.
pub proof fn lemma_strip_slot(items: Seq<Rect>, x: int, y: int)
    requires
        items.len() >= 2,
        forall|k: int| 0 <= k < items.len() ==> (#[trigger] items[k]).y < items[0].bottom_edge(),
        items[0].y <= y < items[0].bottom_edge(),
    ensures
        slot_from(items, 0, x, y) == items.filter(|r: Rect| x >= r.x + r.width / 2).len(),
{
    lemma_row_takes_all(items, 1, items[0].bottom_edge(), items[0].bottom_edge());
    assert(items.subrange(0, items.len() as int) =~= items);
    lemma_count_past_counts(items, x);
}

/// Above the first item, a cursor means the gap before everything.
pub proof fn lemma_slot_above(items: Seq<Rect>, x: int, y: int)
    requires
        items.len() > 0,
        y < items[0].y,
    ensures
        slot_from(items, 0, x, y) == 0,
{
}

/// Below every item, a cursor means the gap after everything.
pub proof fn lemma_slot_below(items: Seq<Rect>, i: int, x: int, y: int)
    requires
        0 <= i,
        forall|k: int| 0 <= k < items.len() ==> (#[trigger] items[k]).bottom_edge() <= y,
    ensures
        slot_from(items, i, x, y) == items.len(),
    decreases items.len() - i,
{
    if i < items.len() {
        assert(items[i].bottom_edge() <= y);
        lemma_row_from_bottom(items, i + 1, items[i].bottom_edge(), y);
        lemma_row_from_advances(items, i + 1, items[i].bottom_edge());
        let j = row_from(items, i + 1, items[i].bottom_edge()).0;
        lemma_slot_below(items, j, x, y);
    }
}

/// A cell inside a rectangle is at distance 0 from it.
pub proof fn lemma_inside_is_nearest(r: Rect, x: int, y: int)
    requires
        r.wf(),
        r.holds(x, y),
    ensures
        distance_to(r, x, y) == 0,
{
}

/// [`nearest`] is the first of the areas at the least distance: a drop
/// lands in the container under the cell, or, off every container, the
/// nearest one, ties going to the one registered first.
pub proof fn lemma_nearest(areas: Seq<Rect>, x: int, y: int)
    requires
        areas.len() > 0,
    ensures
        0 <= nearest(areas, x, y) < areas.len(),
        forall|j: int|
            0 <= j < areas.len() ==> distance_to(areas[nearest(areas, x, y)], x, y) <= distance_to(
                #[trigger] areas[j],
                x,
                y,
            ),
        forall|j: int|
            0 <= j < nearest(areas, x, y) ==> distance_to(areas[nearest(areas, x, y)], x, y)
                < distance_to(#[trigger] areas[j], x, y),
    decreases areas.len(),
{
    if areas.len() > 1 {
        let rest = areas.drop_last();
        lemma_nearest(rest, x, y);
        assert(forall|j: int| 0 <= j < rest.len() ==> rest[j] == areas[j]);
    }
}

/// A cell outside a rectangle that covers at least one cell is at a
/// positive distance from it.
pub proof fn lemma_outside_is_far(r: Rect, x: int, y: int)
    requires
        r.wf(),
        r.width > 0,
        r.height > 0,
        !r.holds(x, y),
    ensures
        distance_to(r, x, y) > 0,
{
}

/// The distance counts both the columns and the rows between a cell and a
/// rectangle: it is the distance along the cell's row plus the distance
/// along its column, each measured from a cell of the rectangle.
pub proof fn lemma_distance_adds_up(r: Rect, x: int, y: int, cx: int, cy: int)
    requires
        r.wf(),
        r.holds(cx, cy),
    ensures
        distance_to(r, x, y) == distance_to(r, x, cy) + distance_to(r, cx, y),
        distance_to(r, x, y) >= 0,
{
}

/// A drop on a cell inside exactly one container's area lands in that
/// container, when every area covers at least one cell.
pub proof fn lemma_drop_inside_one_container<C, K>(lanes: Seq<Lane<C, K>>, c: int, x: int, y: int)
    requires
        0 <= c < lanes.len(),
        forall|d: int|
            0 <= d < lanes.len() ==> (#[trigger] lanes[d]).area.wf() && lanes[d].area.width > 0
                && lanes[d].area.height > 0,
        lanes[c].area.holds(x, y),
        forall|d: int| 0 <= d < lanes.len() && d != c ==> !(#[trigger] lanes[d]).area.holds(x, y),
    ensures
        nearest(areas_of(lanes), x, y) == c,
        place_of(lanes, x, y) matches Some((id, s)) && id == lanes[c].id && s == slot_from(
            rects_of(lanes[c].items),
            0,
            x,
            y,
        ),
{
    let areas = areas_of(lanes);
    lemma_nearest(areas, x, y);
    let n = nearest(areas, x, y);
    assert(areas[c] == lanes[c].area);
    lemma_inside_is_nearest(lanes[c].area, x, y);
    if n != c {
        assert(areas[n] == lanes[n].area);
        lemma_outside_is_far(lanes[n].area, x, y);
        assert(distance_to(areas[n], x, y) <= distance_to(areas[c], x, y));
    }
}

/// While the mouse holds something, the gap [`Sortable::over`] opens is
/// where a release at the cursor drops it.
pub proof fn lemma_gap_is_where_the_drop_lands<C, K>(
    s: State<K>,
    ev: MouseEvent,
    lanes: Seq<Lane<C, K>>,
)
    requires
        (s matches State::Moving { x, y, .. } && x == ev.column && y == ev.row),
        is_left_up(ev),
    ensures
        ({
            &&& s matches State::Moving { key, x, y, .. }
            &&& outcome(s, ev) == (Did::Drop { key, x, y })
            &&& place_of(lanes, ev.column as int, ev.row as int) == place_of(lanes, x as int, y as int)
        }),
{
}

/// Registering a container and then looking its id up finds it, at the
/// place it had, with the area and items just given: a refresh replaces
/// the picture of the last frame.
pub proof fn lemma_container_reads_back<C: PartialEq, K: Clone>(
    old: Seq<Lane<C, K>>,
    new: Seq<Lane<C, K>>,
    id: C,
    area: Rect,
    items: Seq<(K, Rect)>,
)
    requires
        refreshed(old, new, first_id(old, id), id, area, items),
        first_id(old, id) < old.len() || id.eq_spec(&id),
    ensures
        first_id(new, id) == first_id(old, id),
        new[first_id(new, id)].area == area,
        copies(items, new[first_id(new, id)].items),
        first_id(old, id) < old.len() ==> new.len() == old.len(),
{
    lemma_first_id(old, id);
    lemma_first_id(new, id);
    let i = first_id(old, id);
    assert(is_first_id(new, id, i)) by {
        assert forall|j: int| 0 <= j < i implies !(#[trigger] new[j]).id.eq_spec(&id) by {
            assert(new[j] == old[j]);
        }
    }
}

/// The whole of a sortable surface: any number of containers, each
/// holding items wherever the caller drew them.
///
/// Register every container each frame with [`container`](Self::container),
/// in the places things were actually drawn; hand every mouse event to
/// [`on_mouse`](Self::on_mouse); use [`lift`](Self::lift) /
/// [`shift`](Self::shift) / [`put`](Self::put) for the keyboard. While
/// anything is held, skip it when registering, and draw a gap where
/// [`over`](Self::over) says.
pub struct Sortable<C, K> {
    drag: Drag<K>,
    carry: Option<Carry<K>>,
    cons: Vec<Con<C, K>>,
}

impl<C, K> Sortable<C, K> {
    /// The containers, in the order they were first registered.
    pub closed spec fn lanes(&self) -> Seq<Lane<C, K>> {
        self.cons@.map_values(|c: Con<C, K>| Lane { id: c.id, area: c.area, items: c.items@ })
    }

    /// What the keyboard holds, and where.
    pub closed spec fn keyboard(&self) -> Option<Carry<K>> {
        self.carry
    }

    /// Where the mouse drag stands.
    pub closed spec fn mouse(&self) -> State<K> {
        self.drag@
    }

    /// Every registered rectangle lies on the `u16` plane, no list is
    /// longer than `isize::MAX`, and a keyboard carry sits in a known
    /// container at a slot no greater than `isize::MAX`.
    pub open spec fn wf(&self) -> bool {
        &&& self.lanes().len() <= isize::MAX
        &&& forall|i: int|
            0 <= i < self.lanes().len() ==> {
                &&& (#[trigger] self.lanes()[i]).area.wf()
                &&& self.lanes()[i].items.len() <= isize::MAX
                &&& forall|j: int|
                    0 <= j < self.lanes()[i].items.len() ==> (#[trigger] self.lanes()[i].items[j]).1.wf()
            }
        &&& self.keyboard() matches Some(c) ==> c.con < self.lanes().len() && c.slot <= isize::MAX
    }
}


/// How many cells, across plus down, a cell lies outside a rectangle.
fn distance(r: Rect, x: u16, y: u16) -> (d: u32)
    requires
        r.wf(),
    ensures
        d == distance_to(r, x as int, y as int),
{
    let dx: u16 = if x < r.x {
        r.x - x
    } else {
        let w1: u16 = if r.width > 0 { r.width - 1 } else { 0 };
        let edge: u16 = r.x + w1;
        if x > edge { x - edge } else { 0 }
    };
    let dy: u16 = if y < r.y {
        r.y - y
    } else {
        let h1: u16 = if r.height > 0 { r.height - 1 } else { 0 };
        let edge: u16 = r.y + h1;
        if y > edge { y - edge } else { 0 }
    };
    dx as u32 + dy as u32
}

/// The last of `items` whose rectangle holds the cell.
fn last_holding<K>(items: &Vec<(K, Rect)>, x: u16, y: u16) -> (r: Option<usize>)
    ensures
        match top_item(items@, x as int, y as int) {
            Some(i) => r matches Some(j) && j == i,
            None => r is None,
        },
{
    let mut i: usize = items.len();
    assert(items@.take(i as int) =~= items@);
    while i > 0
        invariant
            i <= items@.len(),
            top_item(items@, x as int, y as int) == top_item(items@.take(i as int), x as int, y as int),
        decreases i,
    {
        assert(items@.take(i as int).drop_last() =~= items@.take(i - 1));
        if items[i - 1].1.contains(x, y) {
            return Some(i - 1);
        }
        i = i - 1;
    }
    None
}

/// The first of `items` whose key equals `key`.
fn position<K: PartialEq>(items: &Vec<(K, Rect)>, key: &K) -> (r: Option<usize>)
    ensures
        match r {
            Some(i) => i < items@.len() && (K::obeys_eq_spec() ==> {
                &&& items@[i as int].0.eq_spec(key)
                &&& forall|j: int| 0 <= j < i ==> !(#[trigger] items@[j]).0.eq_spec(key)
            }),
            None => K::obeys_eq_spec() ==> forall|j: int|
                0 <= j < items@.len() ==> !(#[trigger] items@[j]).0.eq_spec(key),
        },
{
    let mut i: usize = 0;
    while i < items.len()
        invariant
            i <= items@.len(),
            K::obeys_eq_spec() ==> forall|j: int| 0 <= j < i ==> !(#[trigger] items@[j]).0.eq_spec(key),
        decreases items.len() - i,
    {
        if items[i].0.eq(key) {
            return Some(i);
        }
        i = i + 1;
    }
    None
}

impl<C: Clone + PartialEq, K: Clone + PartialEq> Sortable<C, K> {
    pub fn new() -> (s: Self)
        ensures
            s.wf(),
            s.lanes() == Seq::<Lane<C, K>>::empty(),
            s.keyboard() is None,
            s.mouse() == State::<K>::Idle,
    {
        let s = Sortable { drag: Drag::new(), carry: None, cons: Vec::new() };
        assert(s.lanes() =~= Seq::<Lane<C, K>>::empty());
        s
    }

    /// The index of the first container with this id, or the number of
    /// containers.
    fn find(&self, id: &C) -> (i: usize)
        ensures
            i <= self.lanes().len(),
            C::obeys_eq_spec() ==> i == first_id(self.lanes(), *id),
    {
        proof {
            lemma_first_id(self.lanes(), *id);
        }
        let mut i: usize = 0;
        while i < self.cons.len()
            invariant
                i <= self.cons@.len(),
                C::obeys_eq_spec() ==> forall|j: int|
                    0 <= j < i ==> !(#[trigger] self.lanes()[j]).id.eq_spec(id),
            decreases self.cons.len() - i,
        {
            if self.cons[i].id.eq(id) {
                proof {
                    lemma_first_id(self.lanes(), *id);
                }
                assert(C::obeys_eq_spec() ==> is_first_id(self.lanes(), *id, i as int));
                return i;
            }
            i = i + 1;
        }
        assert(C::obeys_eq_spec() ==> is_first_id(self.lanes(), *id, i as int));
        i
    }

    /// Say where a container and its items are this frame, in drawing
    /// order. A container already known is refreshed in place (keeping
    /// its place and its id), so the order containers were first
    /// registered in is the order the keyboard walks them in.
    pub fn container(&mut self, id: C, area: Rect, items: &[(K, Rect)])
        requires
            old(self).wf(),
            old(self).lanes().len() < isize::MAX,
            area.wf(),
            items@.len() <= isize::MAX,
            forall|j: int| 0 <= j < items@.len() ==> (#[trigger] items@[j]).1.wf(),
        ensures
            final(self).wf(),
            final(self).keyboard() == old(self).keyboard(),
            final(self).mouse() == old(self).mouse(),
            exists|i: int| refreshed(old(self).lanes(), final(self).lanes(), i, id, area, items@),
            C::obeys_eq_spec() ==> refreshed(
                old(self).lanes(),
                final(self).lanes(),
                first_id(old(self).lanes(), id),
                id,
                area,
                items@,
            ),
            exists|i: int|
                0 <= i < final(self).lanes().len() && (#[trigger] final(self).lanes()[i]).area == area
                    && copies(items@, final(self).lanes()[i].items),
            C::obeys_eq_spec() ==> ({
                let i = first_id(old(self).lanes(), id);
                let n = old(self).lanes().len();
                &&& final(self).lanes()[i].area == area
                &&& copies(items@, final(self).lanes()[i].items)
                &&& i < n ==> final(self).lanes().len() == n && final(self).lanes()[i].id == old(
                    self,
                ).lanes()[i].id
                &&& i == n ==> final(self).lanes().len() == n + 1 && final(self).lanes()[i].id == id
                &&& forall|j: int|
                    0 <= j < n && j != i ==> #[trigger] final(self).lanes()[j] == old(self).lanes()[j]
            }),
    {
        let mut copy: Vec<(K, Rect)> = Vec::new();
        let mut k: usize = 0;
        while k < items.len()
            invariant
                k <= items@.len(),
                copy@.len() == k,
                forall|m: int|
                    0 <= m < k ==> (#[trigger] copy@[m]).1 == items@[m].1 && cloned(
                        items@[m].0,
                        copy@[m].0,
                    ),
            decreases items.len() - k,
        {
            let (key, r) = &items[k];
            copy.push((key.clone(), *r));
            k = k + 1;
        }
        assert(copies(items@, copy@));
        let ghost old_lanes = self.lanes();
        let i = self.find(&id);
        if i < self.cons.len() {
            let mut tmp = Con { id, area, items: Vec::new() };
            self.cons.set_and_swap(i, &mut tmp);
            self.cons.set(i, Con { id: tmp.id, area, items: copy });
            assert(refreshed(old_lanes, self.lanes(), i as int, id, area, items@));
        } else {
            self.cons.push(Con { id, area, items: copy });
            assert(refreshed(old_lanes, self.lanes(), i as int, id, area, items@));
        }
    }

    /// Feed every mouse event through. A left press anywhere ends a
    /// keyboard carry; a drop comes back already resolved to the
    /// container and slot it means.
    pub fn on_mouse(&mut self, ev: MouseEvent) -> (act: Act<C, K>)
        requires
            old(self).wf(),
        ensures
            final(self).wf(),
            final(self).lanes() == old(self).lanes(),
            final(self).keyboard() == (if is_left_down(ev) {
                None
            } else {
                old(self).keyboard()
            }),
            is_left_down(ev) ==> match lane_hit(old(self).lanes(), ev.column as int, ev.row as int) {
                None => final(self).mouse() == State::<K>::Idle,
                Some((c, i)) => final(self).mouse() matches State::Armed { key, rect, x, y } && cloned(
                    old(self).lanes()[c].items[i].0,
                    key,
                ) && rect == old(self).lanes()[c].items[i].1 && x == ev.column && y == ev.row,
            },
            !is_left_down(ev) ==> final(self).mouse() == next_state(old(self).mouse(), ev, None),
            act_like(act, outcome(old(self).mouse(), ev), old(self).lanes()),
    {
        if let MouseEventKind::Down(MouseButton::Left) = ev.kind {
            self.carry = None;
        }
        let hit = self.hit(ev.column, ev.row);
        let did = self.drag.on_mouse(ev, hit);
        match did {
            Did::Nothing => Act::Nothing,
            Did::Click(k) => Act::Click(k),
            Did::Lift(k) => Act::Lift(k),
            Did::Move => Act::Move,
            Did::Drop { key, x, y } => match self.place(x, y) {
                Some((container, slot)) => Act::Drop { key, container, slot },
                None => Act::Nothing,
            },
        }
    }

    /// The container under this cell, or the nearest one — a drop just
    /// past a border should land, not evaporate.
    fn place(&self, x: u16, y: u16) -> (p: Option<(C, usize)>)
        requires
            self.wf(),
        ensures
            place_like(p, place_of(self.lanes(), x as int, y as int)),
    {
        if self.cons.len() == 0 {
            return None;
        }
        let ghost areas = areas_of(self.lanes());
        let mut best: usize = 0;
        assert(self.lanes()[0].area == self.cons@[0].area);
        let mut best_d: u32 = distance(self.cons[0].area, x, y);
        let mut i: usize = 1;
        while i < self.cons.len()
            invariant
                1 <= i <= self.cons@.len(),
                best < i,
                self.wf(),
                areas == areas_of(self.lanes()),
                best == nearest(areas.take(i as int), x as int, y as int),
                best_d == distance_to(areas[best as int], x as int, y as int),
            decreases self.cons.len() - i,
        {
            assert(areas.take(i + 1).drop_last() =~= areas.take(i as int));
            assert(self.lanes()[i as int].area == self.cons@[i as int].area);
            let d: u32 = distance(self.cons[i].area, x, y);
            if d < best_d {
                best = i;
                best_d = d;
            }
            i = i + 1;
        }
        assert(areas.take(i as int) =~= areas);
        let con = &self.cons[best];
        let ghost lane = self.lanes()[best as int];
        let mut rects: Vec<Rect> = Vec::new();
        let mut k: usize = 0;
        while k < con.items.len()
            invariant
                k <= con.items@.len(),
                lane.items == con.items@,
                rects@ == rects_of(con.items@).take(k as int),
                forall|j: int| 0 <= j < lane.items.len() ==> (#[trigger] lane.items[j]).1.wf(),
            decreases con.items.len() - k,
        {
            rects.push(con.items[k].1);
            k = k + 1;
            assert(rects@ =~= rects_of(con.items@).take(k as int));
        }
        assert(rects@ =~= rects_of(lane.items));
        let s = slot(rects.as_slice(), x, y);
        Some((con.id.clone(), s))
    }

    /// What a press at this cell picks up: the last item drawn there, in
    /// the last container registered with one.
    fn hit(&self, x: u16, y: u16) -> (h: Option<(K, Rect)>)
        ensures
            match lane_hit(self.lanes(), x as int, y as int) {
                None => h is None,
                Some((c, i)) => h matches Some((k, r)) && cloned(self.lanes()[c].items[i].0, k) && r
                    == self.lanes()[c].items[i].1,
            },
    {
        let ghost lanes = self.lanes();
        let mut c: usize = self.cons.len();
        assert(lanes.take(c as int) =~= lanes);
        while c > 0
            invariant
                c <= self.cons@.len(),
                lanes == self.lanes(),
                lane_hit(lanes, x as int, y as int) == lane_hit(lanes.take(c as int), x as int, y as int),
            decreases c,
        {
            assert(lanes.take(c as int).drop_last() =~= lanes.take(c - 1));
            let con = &self.cons[c - 1];
            assert(lanes.take(c as int).last() == lanes[c - 1]);
            assert(lanes[c - 1].items == con.items@);
            proof {
                lemma_top_item(con.items@, x as int, y as int);
            }
            match last_holding(&con.items, x, y) {
                Some(i) => {
                    assert(lane_hit(lanes.take(c as int), x as int, y as int) == Some(
                        ((c - 1) as int, i as int),
                    ));
                    let (k, r) = &con.items[i];
                    return Some((k.clone(), *r));
                },
                None => {},
            }
            c = c - 1;
        }
        None
    }

    /// Pick something up with the keyboard, from wherever it was last
    /// registered: the first item with this key, reading containers in
    /// order. Ignored while the mouse already holds something, and when
    /// no container has the key.
    pub fn lift(&mut self, key: K)
        requires
            old(self).wf(),
        ensures
            final(self).wf(),
            final(self).lanes() == old(self).lanes(),
            final(self).mouse() == old(self).mouse(),
            old(self).mouse() is Moving ==> final(self).keyboard() == old(self).keyboard(),
            !(old(self).mouse() is Moving) ==> {
                ||| final(self).keyboard() == old(self).keyboard()
                ||| final(self).keyboard() matches Some(c) && c.key == key && c.con
                    < old(self).lanes().len() && c.slot < old(self).lanes()[c.con as int].items.len()
            },
            !(old(self).mouse() is Moving) && K::obeys_eq_spec() ==> final(self).keyboard()
                == match first_key(old(self).lanes(), key) {
                Some((c, s)) => Some(Carry { key, con: c as usize, slot: s as usize }),
                None => old(self).keyboard(),
            },
    {
        proof {
            lemma_first_key(old(self).lanes(), key);
        }
        if self.drag.moving().is_some() {
            return;
        }
        let ghost lanes = self.lanes();
        let mut ci: usize = 0;
        while ci < self.cons.len()
            invariant
                ci <= self.cons@.len(),
                lanes == self.lanes(),
                lanes == old(self).lanes(),
                self.wf(),
                self.mouse() == old(self).mouse(),
                self.keyboard() == old(self).keyboard(),
                !(old(self).mouse() is Moving),
                K::obeys_eq_spec() ==> forall|d: int, i: int|
                    0 <= d < ci && 0 <= i < lanes[d].items.len() ==> !(#[trigger] lanes[d].items[i]).0.eq_spec(
                        &key,
                    ),
            decreases self.cons.len() - ci,
        {
            assert(lanes[ci as int].items == self.cons@[ci as int].items@);
            match position(&self.cons[ci].items, &key) {
                Some(i) => {
                    proof {
                        lemma_first_key(lanes, key);
                    }
                    assert(K::obeys_eq_spec() ==> is_first_key(lanes, key, ci as int, i as int));
                    self.carry = Some(Carry { key, con: ci, slot: i });
                    return;
                },
                None => {},
            }
            ci = ci + 1;
        }
    }


    /// Step a carried thing's slot within its container, held between 0
    /// and the container's length. The caller decides what a step means:
    /// -1/+1 walks a list, -columns/+columns walks a grid by rows.
    pub fn shift(&mut self, delta: isize)
        requires
            old(self).wf(),
            old(self).keyboard() matches Some(c) ==> isize::MIN <= c.slot + delta <= isize::MAX,
        ensures
            final(self).wf(),
            final(self).lanes() == old(self).lanes(),
            final(self).mouse() == old(self).mouse(),
            final(self).keyboard() == match old(self).keyboard() {
                None => None,
                Some(c) => Some(
                    Carry {
                        key: c.key,
                        con: c.con,
                        slot: clamp(
                            c.slot + delta,
                            0,
                            old(self).lanes()[c.con as int].items.len() as int,
                        ) as usize,
                    },
                ),
            },
    {
        match self.carry.take() {
            None => {},
            Some(c) => {
                let len: usize = if c.con < self.cons.len() {
                    self.cons[c.con].items.len()
                } else {
                    0
                };
                assert(len == self.lanes()[c.con as int].items.len());
                let v: isize = c.slot as isize + delta;
                let hi: isize = len as isize;
                let slot: usize = if v < 0 {
                    0
                } else if v > hi {
                    len
                } else {
                    v as usize
                };
                self.carry = Some(Carry { key: c.key, con: c.con, slot });
            },
        }
    }

    /// Step a carried thing to another container, held between the first
    /// and the last, keeping its slot where the new container is long
    /// enough for it and moving it to the end where it is not.
    pub fn shift_container(&mut self, delta: isize)
        requires
            old(self).wf(),
            old(self).keyboard() matches Some(c) ==> isize::MIN <= c.con + delta <= isize::MAX,
        ensures
            final(self).wf(),
            final(self).lanes() == old(self).lanes(),
            final(self).mouse() == old(self).mouse(),
            final(self).keyboard() == match old(self).keyboard() {
                None => None,
                Some(c) => {
                    let con = clamp(c.con + delta, 0, old(self).lanes().len() - 1);
                    let len = old(self).lanes()[con].items.len();
                    Some(
                        Carry {
                            key: c.key,
                            con: con as usize,
                            slot: (if c.slot <= len {
                                c.slot as int
                            } else {
                                len as int
                            }) as usize,
                        },
                    )
                },
            },
    {
        match self.carry.take() {
            None => {},
            Some(c) => {
                if self.cons.len() == 0 {
                    self.carry = Some(c);
                    return;
                }
                let v: isize = c.con as isize + delta;
                let hi: isize = self.cons.len() as isize - 1;
                let con: usize = if v < 0 {
                    0
                } else if v > hi {
                    hi as usize
                } else {
                    v as usize
                };
                let len: usize = self.cons[con].items.len();
                assert(len == self.lanes()[con as int].items.len());
                let slot: usize = if c.slot <= len { c.slot } else { len };
                self.carry = Some(Carry { key: c.key, con, slot });
            },
        }
    }

    /// Put a carried thing down where it is: the key, the container's id
    /// (a clone), and the slot. The caller moves its own data; clamp the
    /// slot on insert, since the registered picture is a frame old.
    pub fn put(&mut self) -> (p: Option<(K, C, usize)>)
        requires
            old(self).wf(),
        ensures
            final(self).wf(),
            final(self).lanes() == old(self).lanes(),
            final(self).mouse() == old(self).mouse(),
            final(self).keyboard() is None,
            match old(self).keyboard() {
                None => p is None,
                Some(c) => p matches Some((k, id, s)) && k == c.key && cloned(
                    old(self).lanes()[c.con as int].id,
                    id,
                ) && s == c.slot,
            },
    {
        match self.carry.take() {
            None => None,
            Some(c) => {
                if c.con < self.cons.len() {
                    let id = self.cons[c.con].id.clone();
                    Some((c.key, id, c.slot))
                } else {
                    None
                }
            },
        }
    }

    /// Let go of whatever is held — mouse or keyboard — without a drop.
    pub fn cancel(&mut self)
        requires
            old(self).wf(),
        ensures
            final(self).wf(),
            final(self).lanes() == old(self).lanes(),
            final(self).mouse() == State::<K>::Idle,
            final(self).keyboard() is None,
    {
        self.carry = None;
        self.drag.cancel();
    }

    /// What is held right now, by either hand; the mouse first.
    pub fn held(&self) -> (h: Option<&K>)
        ensures
            match self.mouse() {
                State::Moving { key, .. } => h == Some(&key),
                _ => match self.keyboard() {
                    Some(c) => h == Some(&c.key),
                    None => h is None,
                },
            },
    {
        match self.drag.moving() {
            Some(k) => Some(k),
            None => match &self.carry {
                Some(c) => Some(&c.key),
                None => None,
            },
        }
    }

    /// What the keyboard holds. A mouse drag has a ghost to draw; a carry
    /// has no cursor, so the held thing is drawn in the gap itself — this
    /// is how a renderer tells the two apart.
    pub fn carried(&self) -> (h: Option<&K>)
        ensures
            match self.keyboard() {
                Some(c) => h == Some(&c.key),
                None => h is None,
            },
    {
        match &self.carry {
            Some(c) => Some(&c.key),
            None => None,
        }
    }

    /// Where the gap should open this frame: the container and slot the
    /// held thing would land in, whether it hangs from the mouse or the
    /// keyboard. `None` when nothing is held.
    pub fn over(&self) -> (o: Option<(C, usize)>)
        requires
            self.wf(),
        ensures
            match self.mouse() {
                State::Moving { x, y, .. } => place_like(o, place_of(self.lanes(), x as int, y as int)),
                _ => match self.keyboard() {
                    None => o is None,
                    Some(c) => o matches Some((id, s)) && cloned(self.lanes()[c.con as int].id, id)
                        && s == c.slot,
                },
            },
    {
        match self.drag.cursor() {
            Some((x, y)) => {
                return self.place(x, y);
            },
            None => {},
        }
        match &self.carry {
            None => None,
            Some(c) => {
                if c.con < self.cons.len() {
                    Some((self.cons[c.con].id.clone(), c.slot))
                } else {
                    None
                }
            },
        }
    }

    /// Where to draw the mouse-held thing, hanging from its grab point.
    /// A keyboard carry has no cursor and no ghost: the gap is where it
    /// is.
    pub fn ghost(&self, within: Rect) -> (g: Option<Rect>)
        requires
            self.mouse() is Moving ==> within.wf(),
        ensures
            g == ghost_of(self.mouse(), within),
    {
        self.drag.ghost(within)
    }

}

impl<C: Clone + PartialEq, K: Clone + PartialEq> Default for Sortable<C, K> {
    fn default() -> (s: Self)
        ensures
            s.wf(),
            s.lanes() == Seq::<Lane<C, K>>::empty(),
            s.keyboard() is None,
            s.mouse() == State::<K>::Idle,
    {
        Self::new()
    }
}


} // verus!
