//! The ground floor: pointing at things and holding them.
//!
//! A terminal gives you a stream of cell coordinates and nothing more.
//! This module adds the two parts every interaction needs on top of that:
//! a state machine that turns raw mouse events into click / lift / move /
//! drop, and a per-frame map from screen cells back to the things drawn
//! on them. Nothing here knows about sorting.

use vstd::prelude::*;

use crate::geom::{max, min, sat_sub, MouseButton, MouseEvent, MouseEventKind, Rect};

verus! {

/// What a mouse event meant, once the state machine has seen it.
#[derive(Debug, PartialEq)]
pub enum Did<K> {
    Nothing,
    /// Pressed and released without moving.
    Click(K),
    /// The press has become a drag: time to take the thing out of the flow.
    Lift(K),
    /// The cursor moved while holding something.
    Move,
    /// Released while holding something, at this cell.
    Drop { key: K, x: u16, y: u16 },
}

/// Where a drag stands between events.
pub enum State<K> {
    Idle,
    /// Pressed on something but not yet moved: could still be a click,
    /// so nothing is lifted until the cursor leaves the press cell.
    Armed { key: K, rect: Rect, x: u16, y: u16 },
    /// Holding it. `dx`/`dy` is where inside the thing it was grabbed, so
    /// a ghost can hang from the same point instead of snapping to its
    /// corner; `x`/`y` is the cursor.
    Moving { key: K, rect: Rect, dx: u16, dy: u16, x: u16, y: u16 },
}

pub open spec fn is_left_down(ev: MouseEvent) -> bool {
    ev.kind == MouseEventKind::Down(MouseButton::Left)
}

pub open spec fn is_left_drag(ev: MouseEvent) -> bool {
    ev.kind == MouseEventKind::Drag(MouseButton::Left)
}

pub open spec fn is_left_up(ev: MouseEvent) -> bool {
    ev.kind == MouseEventKind::Up(MouseButton::Left)
}

/// The state a drag is in after `ev`, where `hit` is what a left press
/// at the event's cell picks up.
pub open spec fn next_state<K>(s: State<K>, ev: MouseEvent, hit: Option<(K, Rect)>) -> State<K> {
    if is_left_down(ev) {
        match hit {
            Some((key, rect)) => State::Armed { key, rect, x: ev.column, y: ev.row },
            None => State::Idle,
        }
    } else if is_left_drag(ev) {
        match s {
            State::Armed { key, rect, x, y } => {
                if ev.column == x && ev.row == y {
                    s
                } else {
                    State::Moving {
                        key,
                        rect,
                        dx: sat_sub(x as int, rect.x as int) as u16,
                        dy: sat_sub(y as int, rect.y as int) as u16,
                        x: ev.column,
                        y: ev.row,
                    }
                }
            },
            State::Moving { key, rect, dx, dy, .. } => State::Moving {
                key,
                rect,
                dx,
                dy,
                x: ev.column,
                y: ev.row,
            },
            State::Idle => State::Idle,
        }
    } else if is_left_up(ev) {
        State::Idle
    } else {
        s
    }
}

/// What `ev` amounts to in state `s`.
pub open spec fn outcome<K>(s: State<K>, ev: MouseEvent) -> Did<K> {
    if is_left_drag(ev) {
        match s {
            State::Armed { key, x, y, .. } => {
                if ev.column == x && ev.row == y {
                    Did::Nothing
                } else {
                    Did::Lift(key)
                }
            },
            State::Moving { .. } => Did::Move,
            State::Idle => Did::Nothing,
        }
    } else if is_left_up(ev) {
        match s {
            State::Armed { key, .. } => Did::Click(key),
            State::Moving { key, .. } => Did::Drop { key, x: ev.column, y: ev.row },
            State::Idle => Did::Nothing,
        }
    } else {
        Did::Nothing
    }
}

/// `got` is `want`, except that a lifted key is a clone of the held one.
pub open spec fn did_like<K: Clone>(got: Did<K>, want: Did<K>) -> bool {
    match want {
        Did::Lift(a) => got matches Did::Lift(b) && cloned(a, b),
        _ => got == want,
    }
}

/// Where a ghost of the held thing is drawn inside `within`: its own size
/// (cut down to fit), hanging from the grab point, pushed back inside
/// where it would cross an edge.
pub open spec fn ghost_of<K>(s: State<K>, within: Rect) -> Option<Rect> {
    match s {
        State::Moving { rect, dx, dy, x, y, .. } => {
            let w: int = min(rect.width as int, within.width as int);
            let h: int = min(rect.height as int, within.height as int);
            let gx: int = min(
                max(sat_sub(x as int, dx as int), within.x as int),
                within.x + within.width - w,
            );
            let gy: int = min(
                max(sat_sub(y as int, dy as int), within.y as int),
                within.y + within.height - h,
            );
            Some(Rect { x: gx as u16, y: gy as u16, width: w as u16, height: h as u16 })
        },
        _ => None,
    }
}

/// A left press always resets the drag: whatever was going on, the press
/// means nothing by itself, and afterwards the drag holds exactly what the
/// press picked up, armed at the press cell, or nothing.
pub proof fn lemma_press_resets<K>(s: State<K>, ev: MouseEvent, hit: Option<(K, Rect)>)
    requires
        is_left_down(ev),
    ensures
        outcome(s, ev) == Did::<K>::Nothing,
        next_state(s, ev, hit) == match hit {
            Some((key, rect)) => State::Armed { key, rect, x: ev.column, y: ev.row },
            None => State::<K>::Idle,
        },
{
}

/// What lies under the cursor matters only on a press; afterwards the
/// drag keeps what it grabbed.
pub proof fn lemma_hit_only_on_press<K>(
    s: State<K>,
    ev: MouseEvent,
    h1: Option<(K, Rect)>,
    h2: Option<(K, Rect)>,
)
    requires
        !is_left_down(ev),
    ensures
        next_state(s, ev, h1) == next_state(s, ev, h2),
{
}

/// A release ends every drag.
pub proof fn lemma_release_ends<K>(s: State<K>, ev: MouseEvent, hit: Option<(K, Rect)>)
    requires
        is_left_up(ev),
    ensures
        next_state(s, ev, hit) == State::<K>::Idle,
{
}

/// With nothing pressed, nothing happens until the next left press.
pub proof fn lemma_idle_until_press<K>(ev: MouseEvent, hit: Option<(K, Rect)>)
    requires
        !is_left_down(ev),
    ensures
        outcome(State::<K>::Idle, ev) == Did::<K>::Nothing,
        next_state(State::<K>::Idle, ev, hit) == State::<K>::Idle,
{
}

/// A press on something, any wobble that stays on the press cell, and a
/// release is a click on what was pressed.
pub proof fn lemma_press_and_release_is_a_click<K>(
    s: State<K>,
    key: K,
    rect: Rect,
    down: MouseEvent,
    wobble: MouseEvent,
    up: MouseEvent,
    hit: Option<(K, Rect)>,
)
    requires
        is_left_down(down),
        is_left_drag(wobble),
        wobble.column == down.column,
        wobble.row == down.row,
        is_left_up(up),
    ensures
        ({
            let armed = next_state(s, down, Some((key, rect)));
            &&& outcome(armed, wobble) == Did::<K>::Nothing
            &&& next_state(armed, wobble, hit) == armed
            &&& outcome(armed, up) == Did::Click(key)
            &&& next_state(armed, up, hit) == State::<K>::Idle
        }),
{
}

/// Leaving the press cell lifts what was pressed; later drags move it,
/// keeping where it was grabbed; the release drops it at the release cell.
pub proof fn lemma_lift_move_drop<K>(
    s: State<K>,
    key: K,
    rect: Rect,
    down: MouseEvent,
    leave: MouseEvent,
    drag: MouseEvent,
    up: MouseEvent,
    hit: Option<(K, Rect)>,
)
    requires
        is_left_down(down),
        is_left_drag(leave),
        leave.column != down.column || leave.row != down.row,
        is_left_drag(drag),
        is_left_up(up),
    ensures
        ({
            let armed = next_state(s, down, Some((key, rect)));
            let lifted = next_state(armed, leave, hit);
            let moved = next_state(lifted, drag, hit);
            &&& outcome(armed, leave) == Did::Lift(key)
            &&& lifted matches State::Moving { key: k, rect: r, dx, dy, x, y } && k == key && r == rect
                && dx == sat_sub(down.column as int, rect.x as int) && dy == sat_sub(
                down.row as int,
                rect.y as int,
            ) && x == leave.column && y == leave.row
            &&& outcome(lifted, drag) == Did::<K>::Move
            &&& moved matches State::Moving { key: k, rect: r, dx, dy, x, y } && k == key && r == rect
                && x == drag.column && y == drag.row
            &&& outcome(moved, up) == Did::Drop { key, x: up.column, y: up.row }
            &&& next_state(moved, up, hit) == State::<K>::Idle
        }),
{
}

/// The ghost is the held thing's own size, cut down to fit, and never
/// crosses an edge of the area it is drawn within; where there is room,
/// it hangs from the grab point.
pub proof fn lemma_ghost_stays_inside<K>(s: State<K>, within: Rect)
    requires
        within.wf(),
    ensures
        match s {
            State::Moving { rect, dx, dy, x, y, .. } => ghost_of(s, within) matches Some(g) && {
                &&& g.wf()
                &&& g.width == min(rect.width as int, within.width as int)
                &&& g.height == min(rect.height as int, within.height as int)
                &&& within.x <= g.x && g.x + g.width <= within.x + within.width
                &&& within.y <= g.y && g.y + g.height <= within.y + within.height
                &&& (dx <= x && within.x <= x - dx && x - dx + g.width <= within.x + within.width)
                    ==> g.x == x - dx
                &&& (dy <= y && within.y <= y - dy && y - dy + g.height <= within.y + within.height)
                    ==> g.y == y - dy
            },
            _ => ghost_of(s, within) is None,
        },
{
}

/// Wheel turns, bare motion and other buttons change nothing: in every
/// state the drag stays exactly as it was and the event means nothing.
pub proof fn lemma_other_events_change_nothing<K>(s: State<K>, ev: MouseEvent, hit: Option<(K, Rect)>)
    requires
        !is_left_down(ev),
        !is_left_drag(ev),
        !is_left_up(ev),
    ensures
        next_state(s, ev, hit) == s,
        outcome(s, ev) == Did::<K>::Nothing,
{
}

/// A drag survives any event other than a left press, drag or release:
/// the following left release still drops what is held, at the release
/// cell.
pub proof fn lemma_drag_survives_other_events<K>(
    s: State<K>,
    other: MouseEvent,
    up: MouseEvent,
    hit: Option<(K, Rect)>,
)
    requires
        s is Moving,
        !is_left_down(other),
        !is_left_drag(other),
        !is_left_up(other),
        is_left_up(up),
    ensures
        s matches State::Moving { key, .. } && outcome(next_state(s, other, hit), up) == (Did::Drop {
            key,
            x: up.column,
            y: up.row,
        }),
{
}

/// Where the cursor is left of the grab offset, the ghost sits at the
/// frame's left edge (and likewise at the top edge).
pub proof fn lemma_ghost_at_edge_when_cursor_before_grab<K>(s: State<K>, within: Rect)
    requires
        within.wf(),
        s is Moving,
    ensures
        s matches State::Moving { dx, x, .. } && x <= dx ==> (ghost_of(s, within) matches Some(g)
            && g.x == within.x),
        s matches State::Moving { dy, y, .. } && y <= dy ==> (ghost_of(s, within) matches Some(g)
            && g.y == within.y),
{
}

/// The ghost follows the cursor: moving the cursor left (or up) never
/// moves the ghost right (or down).
pub proof fn lemma_ghost_follows_cursor<K>(
    key: K,
    rect: Rect,
    dx: u16,
    dy: u16,
    x1: u16,
    y1: u16,
    x2: u16,
    y2: u16,
    within: Rect,
)
    requires
        within.wf(),
        x1 <= x2,
        y1 <= y2,
    ensures
        ({
            let a = ghost_of(State::Moving { key, rect, dx, dy, x: x1, y: y1 }, within);
            let b = ghost_of(State::Moving { key, rect, dx, dy, x: x2, y: y2 }, within);
            &&& a matches Some(g1)
            &&& b matches Some(g2)
            &&& g1.x <= g2.x
            &&& g1.y <= g2.y
            &&& g1.width == g2.width
            &&& g1.height == g2.height
        }),
{
}

/// Where [`top_hit`] finds a spot, its rectangle holds the cell and no
/// later spot's does — whatever was drawn later is drawn on top; where it
/// finds none, no spot's does.
pub proof fn lemma_top_hit<K>(spots: Seq<(Rect, K)>, x: int, y: int)
    ensures
        match top_hit(spots, x, y) {
            Some(i) => {
                &&& 0 <= i < spots.len()
                &&& spots[i].0.holds(x, y)
                &&& forall|j: int| i < j < spots.len() ==> !(#[trigger] spots[j]).0.holds(x, y)
            },
            None => forall|j: int| 0 <= j < spots.len() ==> !(#[trigger] spots[j]).0.holds(x, y),
        },
    decreases spots.len(),
{
    if spots.len() > 0 {
        lemma_top_hit(spots.drop_last(), x, y);
        assert(forall|j: int| 0 <= j < spots.len() - 1 ==> spots.drop_last()[j] == spots[j]);
    }
}

/// The spot put last wins every cell it covers.
pub proof fn lemma_put_then_at<K>(spots: Seq<(Rect, K)>, area: Rect, key: K, x: int, y: int)
    requires
        area.holds(x, y),
    ensures
        top_hit(spots.push((area, key)), x, y) == Some(spots.len() as int),
{
    assert(spots.push((area, key)).last() == (area, key));
}

/// The drag itself: feed it every mouse event plus what was under the
/// cursor, and it says what the event amounted to.
pub struct Drag<K> {
    state: State<K>,
}

impl<K> View for Drag<K> {
    type V = State<K>;

    closed spec fn view(&self) -> State<K> {
        self.state
    }
}

impl<K: Clone> Drag<K> {
    pub fn new() -> (d: Self)
        ensures
            d@ == State::<K>::Idle,
    {
        Drag { state: State::Idle }
    }

    /// `hit` is what a left press at this cell would pick up, with the
    /// rectangle it was drawn in. It is only looked at on the press;
    /// afterwards the drag keeps what it grabbed. A press always resets,
    /// so a drag whose release was lost ends at the next press.
    pub fn on_mouse(&mut self, ev: MouseEvent, hit: Option<(K, Rect)>) -> (did: Did<K>)
        ensures
            final(self)@ == next_state(old(self)@, ev, hit),
            did_like(did, outcome(old(self)@, ev)),
    {
        match ev.kind {
            MouseEventKind::Down(MouseButton::Left) => {
                self.state = match hit {
                    Some((key, rect)) => State::Armed { key, rect, x: ev.column, y: ev.row },
                    None => State::Idle,
                };
                Did::Nothing
            },
            MouseEventKind::Drag(MouseButton::Left) => {
                let mut taken: State<K> = State::Idle;
                std::mem::swap(&mut taken, &mut self.state);
                match taken {
                    State::Armed { key, rect, x, y } => {
                        if ev.column == x && ev.row == y {
                            self.state = State::Armed { key, rect, x, y };
                            Did::Nothing
                        } else {
                            let lifted: K = key.clone();
                            let dx: u16 = if x > rect.x { x - rect.x } else { 0 };
                            let dy: u16 = if y > rect.y { y - rect.y } else { 0 };
                            self.state = State::Moving { key, rect, dx, dy, x: ev.column, y: ev.row };
                            Did::Lift(lifted)
                        }
                    },
                    State::Moving { key, rect, dx, dy, .. } => {
                        self.state = State::Moving { key, rect, dx, dy, x: ev.column, y: ev.row };
                        Did::Move
                    },
                    State::Idle => Did::Nothing,
                }
            },
            MouseEventKind::Up(MouseButton::Left) => {
                let mut taken: State<K> = State::Idle;
                std::mem::swap(&mut taken, &mut self.state);
                match taken {
                    State::Armed { key, .. } => Did::Click(key),
                    State::Moving { key, .. } => Did::Drop { key, x: ev.column, y: ev.row },
                    State::Idle => Did::Nothing,
                }
            },
            _ => Did::Nothing,
        }
    }

    /// Let go of whatever is held without dropping it anywhere.
    pub fn cancel(&mut self)
        ensures
            final(self)@ == State::<K>::Idle,
    {
        self.state = State::Idle;
    }

    /// What is being held, if a drag is underway.
    pub fn moving(&self) -> (m: Option<&K>)
        ensures
            match self@ {
                State::Moving { key, .. } => m == Some(&key),
                _ => m is None,
            },
    {
        match &self.state {
            State::Moving { key, .. } => Some(key),
            _ => None,
        }
    }

    /// Where the cursor is, while a drag is underway.
    pub fn cursor(&self) -> (c: Option<(u16, u16)>)
        ensures
            match self@ {
                State::Moving { x, y, .. } => c == Some((x, y)),
                _ => c is None,
            },
    {
        match &self.state {
            State::Moving { x, y, .. } => Some((*x, *y)),
            _ => None,
        }
    }

    /// Where to draw the held thing: its own size, hanging from the grab
    /// point, and never past the edges of `within`.
    pub fn ghost(&self, within: Rect) -> (g: Option<Rect>)
        requires
            self@ is Moving ==> within.wf(),
        ensures
            g == ghost_of(self@, within),
    {
        match &self.state {
            State::Moving { rect, dx, dy, x, y, .. } => {
                let w: u16 = if rect.width <= within.width { rect.width } else { within.width };
                let h: u16 = if rect.height <= within.height { rect.height } else { within.height };
                let sx: u16 = if *x > *dx { *x - *dx } else { 0 };
                let sy: u16 = if *y > *dy { *y - *dy } else { 0 };
                let gx0: u16 = if sx >= within.x { sx } else { within.x };
                let gy0: u16 = if sy >= within.y { sy } else { within.y };
                let lx: u16 = within.x + within.width - w;
                let ly: u16 = within.y + within.height - h;
                let gx: u16 = if gx0 <= lx { gx0 } else { lx };
                let gy: u16 = if gy0 <= ly { gy0 } else { ly };
                Some(Rect::new(gx, gy, w, h))
            },
            _ => None,
        }
    }
}

impl<K: Clone> Default for Drag<K> {
    fn default() -> (d: Self)
        ensures
            d@ == State::<K>::Idle,
    {
        Self::new()
    }
}

/// The last of `spots` whose rectangle holds the cell, if any.
pub open spec fn top_hit<K>(spots: Seq<(Rect, K)>, x: int, y: int) -> Option<int>
    decreases spots.len(),
{
    if spots.len() == 0 {
        None
    } else if spots.last().0.holds(x, y) {
        Some(spots.len() - 1)
    } else {
        top_hit(spots.drop_last(), x, y)
    }
}

/// A map from screen cells back to the things drawn on them, rebuilt
/// every frame while rendering.
pub struct Hits<K> {
    spots: Vec<(Rect, K)>,
}

impl<K> View for Hits<K> {
    type V = Seq<(Rect, K)>;

    closed spec fn view(&self) -> Seq<(Rect, K)> {
        self.spots@
    }
}

impl<K: Clone> Hits<K> {
    pub fn new() -> (h: Self)
        ensures
            h@ == Seq::<(Rect, K)>::empty(),
    {
        Hits { spots: Vec::new() }
    }

    pub fn clear(&mut self)
        ensures
            final(self)@ == Seq::<(Rect, K)>::empty(),
    {
        self.spots.clear();
    }

    pub fn put(&mut self, area: Rect, key: K)
        ensures
            final(self)@ == old(self)@.push((area, key)),
    {
        self.spots.push((area, key));
    }

    /// What a press at this cell touches. Later entries win, because
    /// whatever was drawn later is drawn on top.
    pub fn at(&self, x: u16, y: u16) -> (found: Option<(K, Rect)>)
        ensures
            match top_hit(self@, x as int, y as int) {
                Some(i) => found matches Some((k, r)) && r == self@[i].0 && cloned(self@[i].1, k),
                None => found is None,
            },
    {
        let mut i: usize = self.spots.len();
        assert(self@.take(i as int) =~= self@);
        while i > 0
            invariant
                i <= self.spots@.len(),
                top_hit(self@, x as int, y as int) == top_hit(
                    self@.take(i as int),
                    x as int,
                    y as int,
                ),
            decreases i,
        {
            let ghost s = self@.take(i as int);
            assert(s.drop_last() =~= self@.take(i - 1));
            let (r, k) = &self.spots[i - 1];
            if r.contains(x, y) {
                return Some((k.clone(), *r));
            }
            i = i - 1;
        }
        None
    }
}

impl<K: Clone> Default for Hits<K> {
    fn default() -> (h: Self)
        ensures
            h@ == Seq::<(Rect, K)>::empty(),
    {
        Self::new()
    }
}

} // verus!
