//! Snake on a 30 x 15 field: the snake moves one cell per tick, grows by
//! eating food and dies on hitting a wall or itself.
use vstd::prelude::*;
use std::collections::VecDeque;

use crate::input::Key;
use crate::input::KeyInput;
use crate::input::KeyKind;

verus! {

/// Milliseconds between two moves.
pub const TICK_MS: u64 = 100;

/// Nanoseconds between two moves.
pub const TICK_NANOS: u128 = 100_000_000;

pub const INITIAL_LEN: usize = 4;

pub const FIELD_W: i32 = 30;

pub const FIELD_H: i32 = 15;

/// How many random cells are tried when placing food.
pub const FOOD_TRIES: u32 = 200;

/// Points for each piece of food.
pub const FOOD_SCORE: u32 = 10;

#[derive(Clone, Copy, PartialEq, Eq, Debug, Structural)]
pub enum Dir {
    Up,
    Down,
    Left,
    Right,
}

pub open spec fn opposite_of(d: Dir) -> Dir {
    match d {
        Dir::Up => Dir::Down,
        Dir::Down => Dir::Up,
        Dir::Left => Dir::Right,
        Dir::Right => Dir::Left,
    }
}

/// The (row, column) step of a direction.
pub open spec fn delta_of(d: Dir) -> (int, int) {
    match d {
        Dir::Up => (-1, 0),
        Dir::Down => (1, 0),
        Dir::Left => (0, -1),
        Dir::Right => (0, 1),
    }
}

/// Each direction steps exactly one cell, no two directions step alike, and
/// the opposite of a direction is the one whose step undoes it: so no
/// direction is its own opposite, and the opposite of the opposite is the
/// direction itself.
pub proof fn lemma_opposite_undoes(d: Dir, e: Dir)
    ensures
        delta_of(d).0 * delta_of(d).0 + delta_of(d).1 * delta_of(d).1 == 1,
        delta_of(d) == delta_of(e) ==> d == e,
        e == opposite_of(d) <==> (delta_of(e).0 == -delta_of(d).0 && delta_of(e).1
            == -delta_of(d).1),
        opposite_of(d) != d,
        opposite_of(opposite_of(d)) == d,
{
}

impl Dir {
    pub fn opposite(self) -> (o: Self)
        ensures
            o == opposite_of(self),
    {
        match self {
            Dir::Up => Dir::Down,
            Dir::Down => Dir::Up,
            Dir::Left => Dir::Right,
            Dir::Right => Dir::Left,
        }
    }

    pub fn delta(self) -> (dd: (i32, i32))
        ensures
            dd.0 == delta_of(self).0,
            dd.1 == delta_of(self).1,
    {
        match self {
            Dir::Up => (-1, 0),
            Dir::Down => (1, 0),
            Dir::Left => (0, -1),
            Dir::Right => (0, 1),
        }
    }
}

pub open spec fn in_field(p: (i32, i32)) -> bool {
    0 <= p.0 < FIELD_H && 0 <= p.1 < FIELD_W
}

/// The starting snake: four cells in row 7 from column 7 rightwards, the
/// tail first and the head last.
pub open spec fn initial_body() -> Seq<(i32, i32)> {
    seq![(7i32, 7i32), (7i32, 8i32), (7i32, 9i32), (7i32, 10i32)]
}

/// Where food goes: the generator draws a row, then a column; the first cell
/// not on the body is taken, giving up with (0, 0) after `tries` draws.
/// Returns the generator state afterwards and the cell.
pub open spec fn food_search(counter: u32, body: Seq<(i32, i32)>, tries: nat) -> (u32, (i32, i32))
    decreases tries,
{
    if tries == 0 {
        (counter, (0, 0))
    } else {
        let c1 = crate::rng::lcg_next_state(counter);
        let r = (crate::rng::lcg_output(c1) % 15) as i32;
        let c2 = crate::rng::lcg_next_state(c1);
        let c = (crate::rng::lcg_output(c2) % 30) as i32;
        if !body.contains((r, c)) {
            (c2, (r, c))
        } else {
            food_search(c2, body, (tries - 1) as nat)
        }
    }
}

proof fn lemma_food_in_field(counter: u32, body: Seq<(i32, i32)>, tries: nat)
    ensures
        in_field(food_search(counter, body, tries).1),
    decreases tries,
{
    if tries > 0 {
        let c1 = crate::rng::lcg_next_state(counter);
        let c2 = crate::rng::lcg_next_state(c1);
        lemma_food_in_field(c2, body, (tries - 1) as nat);
    }
}

/// A body that stays on the field without overlapping itself has at most as
/// many cells as the field.
pub proof fn lemma_body_fits(body: Seq<(i32, i32)>)
    requires
        body.no_duplicates(),
        forall|i: int| 0 <= i < body.len() ==> in_field(#[trigger] body[i]),
    ensures
        body.len() <= 450,
{
    let f = |p: (i32, i32)| (p.0 as int) * 30 + p.1 as int;
    let m = body.map_values(f);
    assert forall|i: int, j: int| 0 <= i < m.len() && 0 <= j < m.len() && i != j implies m[i]
        != m[j] by {
        assert(body[i] != body[j]);
        assert(in_field(body[i]) && in_field(body[j]));
    }
    assert(m.no_duplicates());
    m.unique_seq_to_set();
    vstd::set_lib::lemma_int_range(0, 450);
    assert forall|x: int| m.to_set().contains(x) implies vstd::set_lib::set_int_range(
        0,
        450,
    ).contains(x) by {
        let i = choose|i: int| 0 <= i < m.len() && m[i] == x;
        assert(in_field(body[i]));
    }
    vstd::set_lib::lemma_len_subset(m.to_set(), vstd::set_lib::set_int_range(0, 450));
}

/// What a game tick did.
#[derive(Clone, Copy, PartialEq, Eq, Debug, Structural)]
pub enum TickAction {
    /// The game is over: nothing to do.
    Idle,
    /// Too early to move: ask for another frame.
    Wait,
    /// The snake moved: restart the tick clock and ask for another frame.
    Moved,
}

pub struct SnakeGame {
    /// Front is the tail and back is the head.
    body: VecDeque<(i32, i32)>,
    dir: Dir,
    queued_dir: Option<Dir>,
    food: (i32, i32),
    score: u32,
    game_over: bool,
    field_w: i32,
    field_h: i32,
    spawn_counter: u32,
}

impl SnakeGame {
    pub closed spec fn body_view(&self) -> Seq<(i32, i32)> {
        self.body@
    }

    pub closed spec fn dir_view(&self) -> Dir {
        self.dir
    }

    pub closed spec fn queued_view(&self) -> Option<Dir> {
        self.queued_dir
    }

    pub closed spec fn food_view(&self) -> (i32, i32) {
        self.food
    }

    pub closed spec fn score_view(&self) -> nat {
        self.score as nat
    }

    pub closed spec fn over_view(&self) -> bool {
        self.game_over
    }

    pub closed spec fn counter_view(&self) -> u32 {
        self.spawn_counter
    }

    /// The field's width and height.
    pub closed spec fn field_view(&self) -> (i32, i32) {
        (self.field_w, self.field_h)
    }

    /// Everything but the generator state is the same in both games.
    pub open spec fn same_but_counter(&self, other: SnakeGame) -> bool {
        &&& self.body_view() == other.body_view()
        &&& self.dir_view() == other.dir_view()
        &&& self.queued_view() == other.queued_view()
        &&& self.food_view() == other.food_view()
        &&& self.score_view() == other.score_view()
        &&& self.over_view() == other.over_view()
        &&& self.field_view() == other.field_view()
    }

    /// The snake lies on the field without overlapping itself, has at least
    /// its starting length, and has scored ten points per cell it grew; the
    /// food is on the field.
    pub open spec fn wf(&self) -> bool {
        &&& self.field_view() == (FIELD_W, FIELD_H)
        &&& self.body_view().len() >= INITIAL_LEN
        &&& self.body_view().no_duplicates()
        &&& forall|i: int|
            0 <= i < self.body_view().len() ==> in_field(#[trigger] self.body_view()[i])
        &&& self.score_view() == 10 * (self.body_view().len() - INITIAL_LEN)
        &&& in_field(self.food_view())
    }

    /// A new game: the snake heads right from the left part of the field and
    /// food is placed with the generator seeded at 7.
    pub fn new() -> (g: Self)
        ensures
            g.wf(),
            g.body_view() == initial_body(),
            g.dir_view() == Dir::Right,
            g.queued_view() is None,
            g.score_view() == 0,
            !g.over_view(),
            (g.counter_view(), g.food_view()) == food_search(7, initial_body(), FOOD_TRIES as nat),
    {
        let mut game = SnakeGame {
            body: VecDeque::new(),
            dir: Dir::Right,
            queued_dir: None,
            food: (0, 0),
            score: 0,
            game_over: false,
            field_w: FIELD_W,
            field_h: FIELD_H,
            spawn_counter: 7,
        };
        game.init_snake();
        game.place_food();
        game
    }

    fn init_snake(&mut self)
        requires
            old(self).field_w == FIELD_W,
            old(self).field_h == FIELD_H,
        ensures
            final(self).body@ == initial_body(),
            final(self).dir == old(self).dir,
            final(self).queued_dir == old(self).queued_dir,
            final(self).food == old(self).food,
            final(self).score == old(self).score,
            final(self).game_over == old(self).game_over,
            final(self).field_w == old(self).field_w,
            final(self).field_h == old(self).field_h,
            final(self).spawn_counter == old(self).spawn_counter,
    {
        self.body.clear();
        let start_r = self.field_h / 2;
        let start_c = self.field_w / 4;
        let mut i: i32 = 0;
        while i < INITIAL_LEN as i32
            invariant
                0 <= i <= 4,
                start_r == 7,
                start_c == 7,
                self.body@ == initial_body().take(i as int),
                self.dir == old(self).dir,
                self.queued_dir == old(self).queued_dir,
                self.food == old(self).food,
                self.score == old(self).score,
                self.game_over == old(self).game_over,
                self.field_w == old(self).field_w,
                self.field_h == old(self).field_h,
                self.spawn_counter == old(self).spawn_counter,
            decreases 4 - i,
        {
            // Front is the tail and back is the head.
            self.body.push_back((start_r, start_c + i));
            assert(initial_body().take(i + 1) =~= initial_body().take(i as int).push(
                (start_r, (start_c + i) as i32),
            ));
            i = i + 1;
        }
        assert(initial_body().take(4) =~= initial_body());
    }

    /// Advances the generator and returns its next 15-bit value.
    pub fn pseudo_rand(&mut self) -> (v: u32)
        ensures
            final(self).counter_view() == crate::rng::lcg_next_state(old(self).counter_view()),
            v == crate::rng::lcg_output(final(self).counter_view()),
            v < 0x8000,
            final(self).same_but_counter(*old(self)),
    {
        self.spawn_counter = crate::rng::lcg_step(self.spawn_counter);
        crate::rng::lcg_value(self.spawn_counter)
    }

    /// Puts the food on a random free cell (see `food_search`).
    fn place_food(&mut self)
        requires
            old(self).field_w == FIELD_W,
            old(self).field_h == FIELD_H,
        ensures
            (final(self).spawn_counter, final(self).food) == food_search(
                old(self).spawn_counter,
                old(self).body@,
                FOOD_TRIES as nat,
            ),
            in_field(final(self).food),
            final(self).body == old(self).body,
            final(self).dir == old(self).dir,
            final(self).queued_dir == old(self).queued_dir,
            final(self).score == old(self).score,
            final(self).game_over == old(self).game_over,
            final(self).field_w == old(self).field_w,
            final(self).field_h == old(self).field_h,
    {
        proof {
            lemma_food_in_field(self.spawn_counter, self.body@, FOOD_TRIES as nat);
        }
        let mut t: u32 = 0;
        while t < FOOD_TRIES
            invariant
                0 <= t <= FOOD_TRIES,
                self.field_w == FIELD_W,
                self.field_h == FIELD_H,
                food_search(self.spawn_counter, self.body@, (FOOD_TRIES - t) as nat) == food_search(
                    old(self).spawn_counter,
                    old(self).body@,
                    FOOD_TRIES as nat,
                ),
                self.body == old(self).body,
                self.dir == old(self).dir,
                self.queued_dir == old(self).queued_dir,
                self.score == old(self).score,
                self.game_over == old(self).game_over,
                self.field_w == old(self).field_w,
                self.field_h == old(self).field_h,
            decreases FOOD_TRIES - t,
        {
            self.spawn_counter = crate::rng::lcg_step(self.spawn_counter);
            let r = (crate::rng::lcg_value(self.spawn_counter) as i32) % self.field_h;
            self.spawn_counter = crate::rng::lcg_step(self.spawn_counter);
            let c = (crate::rng::lcg_value(self.spawn_counter) as i32) % self.field_w;
            if !self.body_contains(r, c) {
                self.food = (r, c);
                return;
            }
            t = t + 1;
        }
        // Fallback: just pick something
        self.food = (0, 0);
    }

    /// Whether the cell (r, c) is part of the snake.
    pub fn body_contains(&self, r: i32, c: i32) -> (b: bool)
        ensures
            b == self.body_view().contains((r, c)),
    {
        let mut i: usize = 0;
        while i < self.body.len()
            invariant
                0 <= i <= self.body@.len(),
                forall|j: int| 0 <= j < i ==> self.body@[j] != (r, c),
            decreases self.body@.len() - i,
        {
            let (br, bc) = self.body[i];
            if br == r && bc == c {
                assert(self.body@[i as int] == (r, c));
                return true;
            }
            i = i + 1;
        }
        false
    }
}

/// The direction the snake moves in on its next step.
pub open spec fn next_dir(g: SnakeGame) -> Dir {
    match g.queued_view() {
        Some(d) => d,
        None => g.dir_view(),
    }
}

/// The cell the head moves to on the next step.
pub open spec fn next_head(g: SnakeGame) -> (int, int) {
    let h = g.body_view().last();
    (h.0 + delta_of(next_dir(g)).0, h.1 + delta_of(next_dir(g)).1)
}

/// Moving to `p` runs into the snake: any body cell but the tail, which
/// moves away unless the snake grows.
pub open spec fn bites(body: Seq<(i32, i32)>, p: (int, int), grows: bool) -> bool {
    exists|i: int|
        0 <= i < body.len() && (#[trigger] body[i]).0 == p.0 && body[i].1 == p.1 && !(i == 0
            && !grows)
}

/// `post` is `pre` after one step of the snake.
pub open spec fn stepped(pre: SnakeGame, post: SnakeGame) -> bool {
    let p = next_head(pre);
    let cell = (p.0 as i32, p.1 as i32);
    let grows = cell == pre.food_view();
    &&& post.dir_view() == next_dir(pre)
    &&& post.queued_view() is None
    &&& if !(0 <= p.0 < FIELD_H && 0 <= p.1 < FIELD_W) || bites(pre.body_view(), p, grows) {
        // Crash into a wall or into itself.
        &&& post.over_view()
        &&& post.body_view() == pre.body_view()
        &&& post.food_view() == pre.food_view()
        &&& post.score_view() == pre.score_view()
        &&& post.counter_view() == pre.counter_view()
    } else if grows {
        // Eat: grow by one cell and place new food.
        &&& post.over_view() == pre.over_view()
        &&& post.body_view() == pre.body_view().push(cell)
        &&& post.score_view() == pre.score_view() + FOOD_SCORE
        &&& (post.counter_view(), post.food_view()) == food_search(
            pre.counter_view(),
            pre.body_view().push(cell),
            FOOD_TRIES as nat,
        )
    } else {
        // Plain move: the head advances, the tail follows.
        &&& post.over_view() == pre.over_view()
        &&& post.body_view() == pre.body_view().push(cell).drop_first()
        &&& post.food_view() == pre.food_view()
        &&& post.score_view() == pre.score_view()
        &&& post.counter_view() == pre.counter_view()
    }
}

/// The state of a new round, given the generator state before it.
pub open spec fn is_restarted(post: SnakeGame, counter: u32) -> bool {
    &&& post.wf()
    &&& post.body_view() == initial_body()
    &&& post.dir_view() == Dir::Right
    &&& post.queued_view() is None
    &&& post.score_view() == 0
    &&& !post.over_view()
    &&& (post.counter_view(), post.food_view()) == food_search(
        counter,
        initial_body(),
        FOOD_TRIES as nat,
    )
}

pub open spec fn key_dir(k: Key) -> Option<Dir> {
    match k {
        Key::Up => Some(Dir::Up),
        Key::Down => Some(Dir::Down),
        Key::Left => Some(Dir::Left),
        Key::Right => Some(Dir::Right),
        _ => None,
    }
}

/// `post` is `pre` with `q` as the queued turn and nothing else changed.
pub open spec fn queued_set(pre: SnakeGame, q: Option<Dir>, post: SnakeGame) -> bool {
    &&& post.body_view() == pre.body_view()
    &&& post.dir_view() == pre.dir_view()
    &&& post.queued_view() == q
    &&& post.food_view() == pre.food_view()
    &&& post.score_view() == pre.score_view()
    &&& post.over_view() == pre.over_view()
    &&& post.counter_view() == pre.counter_view()
    &&& post.field_view() == pre.field_view()
}

impl SnakeGame {
    /// Moves the snake one cell in its (possibly just turned) direction,
    /// ending the game on a crash and growing when it reaches the food.
    pub fn step(&mut self)
        requires
            old(self).wf(),
        ensures
            final(self).wf(),
            stepped(*old(self), *final(self)),
    {
        let ghost pre = *self;
        if let Some(d) = self.queued_dir {
            self.dir = d;
            self.queued_dir = None;
        }
        let n = self.body.len();
        if n == 0 {
            self.game_over = true;
            return;
        }
        let (hr, hc) = self.body[n - 1];
        assert(in_field(self.body@[n - 1]));
        let (dr, dc) = self.dir.delta();
        let nr = hr + dr;
        let nc = hc + dc;

        // Wall collision
        if nr < 0 || nr >= self.field_h || nc < 0 || nc >= self.field_w {
            self.game_over = true;
            return;
        }

        // Self collision (skip tail since it will move unless we grow)
        let will_grow = nr == self.food.0 && nc == self.food.1;
        let ghost mid = *self;
        let mut i: usize = 0;
        #[verifier::loop_isolation(false)]
        while i < self.body.len()
            invariant
                0 <= i <= self.body@.len(),
                self.body == pre.body,
                *self == mid,
                forall|j: int|
                    0 <= j < i ==> !((#[trigger] self.body@[j]).0 == nr && self.body@[j].1 == nc
                        && !(j == 0 && !will_grow)),
            decreases self.body@.len() - i,
        {
            let (br, bc) = self.body[i];
            if br == nr && bc == nc {
                // If it's the very tail and we won't grow, it will move out
                if !(i == 0 && !will_grow) {
                    assert(bites(pre.body@, (nr as int, nc as int), will_grow));
                    self.game_over = true;
                    return;
                }
            }
            i = i + 1;
        }
        assert(!bites(pre.body@, (nr as int, nc as int), will_grow));
        let ghost old_body = self.body@;
        self.body.push_back((nr, nc));
        if will_grow {
            proof {
                let b = self.body@;
                assert(b == old_body.push((nr, nc)));
                assert forall|x: int, y: int| 0 <= x < b.len() && 0 <= y < b.len() && x != y implies b[x]
                    != b[y] by {
                    if y == b.len() - 1 {
                        assert(!(old_body[x].0 == nr && old_body[x].1 == nc && !(x == 0 && !will_grow)));
                    } else if x == b.len() - 1 {
                        assert(!(old_body[y].0 == nr && old_body[y].1 == nc && !(y == 0 && !will_grow)));
                    }
                }
                assert(b.no_duplicates());
                assert(forall|k: int| 0 <= k < b.len() ==> in_field(#[trigger] b[k]));
                lemma_body_fits(b);
            }
            self.score = self.score + FOOD_SCORE;
            self.place_food();
        } else {
            self.body.pop_front();
            proof {
                let b = self.body@;
                assert(b =~= old_body.push((nr, nc)).drop_first());
                assert forall|x: int, y: int| 0 <= x < b.len() && 0 <= y < b.len() && x != y implies b[x]
                    != b[y] by {
                    if y == b.len() - 1 {
                        assert(b[x] == old_body[x + 1]);
                        assert(!(old_body[x + 1].0 == nr && old_body[x + 1].1 == nc && !(x + 1 == 0
                            && !will_grow)));
                    } else if x == b.len() - 1 {
                        assert(b[y] == old_body[y + 1]);
                        assert(!(old_body[y + 1].0 == nr && old_body[y + 1].1 == nc && !(y + 1 == 0
                            && !will_grow)));
                    } else {
                        assert(b[x] == old_body[x + 1]);
                        assert(b[y] == old_body[y + 1]);
                    }
                }
                assert(forall|k: int| 0 <= k < b.len() ==> in_field(#[trigger] b[k])) by {
                    assert forall|k: int| 0 <= k < b.len() implies in_field(#[trigger] b[k]) by {
                        if k < b.len() - 1 {
                            assert(b[k] == old_body[k + 1]);
                        }
                    }
                }
            }
        }
    }

    /// Starts a new round (the food generator keeps its state).
    pub fn reset(&mut self)
        requires
            old(self).wf(),
        ensures
            is_restarted(*final(self), old(self).counter_view()),
    {
        self.dir = Dir::Right;
        self.queued_dir = None;
        self.score = 0;
        self.game_over = false;
        self.init_snake();
        self.place_food();
        proof {
            assert(self.body@.no_duplicates());
        }
    }

    /// Handles a key: arrows queue a turn (a reversal onto the snake itself
    /// is ignored); once the game is over Enter/Space restart. Returns
    /// whether the key was used.
    pub fn handle_key_event(&mut self, key: KeyInput) -> (consumed: bool)
        requires
            old(self).wf(),
        ensures
            final(self).wf(),
            key.kind != KeyKind::Press ==> !consumed && *final(self) == *old(self),
            key.kind == KeyKind::Press && old(self).over_view() ==> if crate::input::is_restart_key(
                key.key,
            ) {
                consumed && is_restarted(*final(self), old(self).counter_view())
            } else {
                !consumed && *final(self) == *old(self)
            },
            key.kind == KeyKind::Press && !old(self).over_view() ==> match key_dir(key.key) {
                Some(d) => consumed && if d != opposite_of(next_dir(*old(self))) {
                    queued_set(*old(self), Some(d), *final(self))
                } else {
                    *final(self) == *old(self)
                },
                None => !consumed && *final(self) == *old(self),
            },
            !old(self).over_view() ==> !(delta_of(next_dir(*final(self))).0 == -delta_of(
                next_dir(*old(self)),
            ).0 && delta_of(next_dir(*final(self))).1 == -delta_of(next_dir(*old(self))).1),
    {
        proof {
            lemma_opposite_undoes(next_dir(*old(self)), next_dir(*old(self)));
            assert forall|e: Dir| e != opposite_of(next_dir(*old(self))) implies !(#[trigger] delta_of(e).0
                == -delta_of(next_dir(*old(self))).0 && delta_of(e).1 == -delta_of(
                next_dir(*old(self)),
            ).1) by {
                lemma_opposite_undoes(next_dir(*old(self)), e);
            }
        }
        if key.kind != KeyKind::Press {
            return false;
        }

        if self.game_over {
            if crate::input::restart_key(key.key) {
                self.reset();
                return true;
            }
            return false;
        }

        let new_dir = match key.key {
            Key::Up => Some(Dir::Up),
            Key::Down => Some(Dir::Down),
            Key::Left => Some(Dir::Left),
            Key::Right => Some(Dir::Right),
            _ => None,
        };

        if let Some(d) = new_dir {
            let current = match self.queued_dir {
                Some(q) => q,
                None => self.dir,
            };
            if d != current.opposite() {
                self.queued_dir = Some(d);
            }
            return true;
        }

        false
    }

    /// Advances the game clock by `elapsed_nanos` since the last move: the
    /// snake moves once a full tick has passed.
    pub fn tick(&mut self, elapsed_nanos: u128) -> (action: TickAction)
        requires
            old(self).wf(),
        ensures
            final(self).wf(),
            old(self).over_view() ==> action == TickAction::Idle && *final(self) == *old(self),
            !old(self).over_view() && elapsed_nanos < TICK_NANOS ==> action == TickAction::Wait
                && *final(self) == *old(self),
            !old(self).over_view() && elapsed_nanos >= TICK_NANOS ==> action == TickAction::Moved
                && stepped(*old(self), *final(self)),
    {
        if self.game_over {
            return TickAction::Idle;
        }
        if elapsed_nanos < TICK_NANOS {
            return TickAction::Wait;
        }
        self.step();
        TickAction::Moved
    }

    pub fn is_game_over(&self) -> (b: bool)
        ensures
            b == self.over_view(),
    {
        self.game_over
    }

    /// The cells of the snake, tail first, head last.
    pub fn body(&self) -> (b: &VecDeque<(i32, i32)>)
        ensures
            b@ == self.body_view(),
    {
        &self.body
    }

    /// The head of the snake.
    pub fn head(&self) -> (h: Option<(i32, i32)>)
        ensures
            h == (if self.body_view().len() > 0 {
                Some(self.body_view().last())
            } else {
                None
            }),
    {
        let n = self.body.len();
        if n == 0 {
            None
        } else {
            Some(self.body[n - 1])
        }
    }

    pub fn food(&self) -> (f: (i32, i32))
        ensures
            f == self.food_view(),
    {
        self.food
    }

    pub fn score(&self) -> (s: u32)
        ensures
            s == self.score_view(),
    {
        self.score
    }

    pub fn field_w(&self) -> (w: i32)
        requires
            self.wf(),
        ensures
            w == FIELD_W,
    {
        self.field_w
    }

    pub fn field_h(&self) -> (h: i32)
        requires
            self.wf(),
        ensures
            h == FIELD_H,
    {
        self.field_h
    }
}

impl SnakeGame {
    /// In a well-formed game the snake lies on the field without crossing
    /// itself, is at most as long as the field is big, and has scored ten
    /// points for each cell it grew.
    pub proof fn lemma_snake_fits(self)
        requires
            self.wf(),
        ensures
            self.body_view().no_duplicates(),
            forall|i: int| 0 <= i < self.body_view().len() ==> in_field(#[trigger] self.body_view()[i]),
            INITIAL_LEN <= self.body_view().len() <= 450,
            self.score_view() == FOOD_SCORE * (self.body_view().len() - INITIAL_LEN),
            in_field(self.food_view()),
    {
        lemma_body_fits(self.body@);
    }
}

/// What a field cell shows.
#[derive(Clone, Copy, PartialEq, Eq, Debug, Structural)]
pub enum Tile {
    Head,
    Body,
    Food,
    Empty,
}

impl SnakeGame {
    /// What the field cell (row, col) shows: the head over the rest of the
    /// body over the food.
    pub fn tile_at(&self, row: i32, col: i32) -> (t: Tile)
        ensures
            t == (if self.body_view().len() > 0 && self.body_view().last() == (row, col) {
                Tile::Head
            } else if self.body_view().contains((row, col)) {
                Tile::Body
            } else if self.food_view() == (row, col) {
                Tile::Food
            } else {
                Tile::Empty
            }),
    {
        let is_head = match self.head() {
            Some((hr, hc)) => hr == row && hc == col,
            None => false,
        };
        if is_head {
            Tile::Head
        } else if self.body_contains(row, col) {
            Tile::Body
        } else if self.food.0 == row && self.food.1 == col {
            Tile::Food
        } else {
            Tile::Empty
        }
    }
}

/// Two cells are side by side, in a row or a column.
pub open spec fn adjacent(a: (i32, i32), b: (i32, i32)) -> bool {
    ||| a.0 == b.0 && (a.1 - b.1 == 1 || b.1 - a.1 == 1)
    ||| a.1 == b.1 && (a.0 - b.0 == 1 || b.0 - a.0 == 1)
}

/// Each cell of the body is next to the one before it.
pub open spec fn is_path(body: Seq<(i32, i32)>) -> bool {
    forall|i: int| 0 <= i < body.len() - 1 ==> adjacent(#[trigger] body[i], body[i + 1])
}

/// The snake starts as a straight connected path.
pub proof fn lemma_initial_path()
    ensures
        is_path(initial_body()),
{
    let b = initial_body();
    assert forall|i: int| 0 <= i < b.len() - 1 implies adjacent(#[trigger] b[i], b[i + 1]) by {
        if i == 0 {
        } else if i == 1 {
        } else {
            assert(i == 2);
        }
    }
}

/// Adding a cell next to the last one keeps a path a path, and so does
/// then dropping the first cell.
proof fn lemma_path_extend(b: Seq<(i32, i32)>, cell: (i32, i32))
    requires
        b.len() > 0,
        is_path(b),
        adjacent(b.last(), cell),
    ensures
        is_path(b.push(cell)),
        is_path(b.push(cell).drop_first()),
{
    let ext = b.push(cell);
    assert forall|i: int| 0 <= i < ext.len() - 1 implies adjacent(#[trigger] ext[i], ext[i + 1]) by {
        if i < b.len() - 1 {
            assert(ext[i] == b[i] && ext[i + 1] == b[i + 1]);
        } else {
            assert(ext[i] == b.last() && ext[i + 1] == cell);
        }
    }
    let d = ext.drop_first();
    assert forall|i: int| 0 <= i < d.len() - 1 implies adjacent(#[trigger] d[i], d[i + 1]) by {
        assert(d[i] == ext[i + 1] && d[i + 1] == ext[i + 2]);
    }
}

/// A step keeps the snake a connected path: the new head is next to the
/// old one and at most the tail is dropped. The snake keeps its length, or
/// grows by one exactly when its head reached the food, scoring ten.
pub proof fn lemma_step_keeps_path(pre: SnakeGame, post: SnakeGame)
    requires
        pre.body_view().len() > 0,
        !pre.over_view(),
        stepped(pre, post),
        is_path(pre.body_view()),
    ensures
        is_path(post.body_view()),
        post.body_view().len() == pre.body_view().len() || post.body_view().len()
            == pre.body_view().len() + 1,
        post.body_view().len() == pre.body_view().len() + 1 <==> (!post.over_view()
            && post.body_view().last() == pre.food_view()),
        post.body_view().len() == pre.body_view().len() + 1 ==> post.score_view()
            == pre.score_view() + 10,
{
    let b = pre.body_view();
    let p = next_head(pre);
    let cell = (p.0 as i32, p.1 as i32);
    let grows = cell == pre.food_view();
    if !(0 <= p.0 < FIELD_H && 0 <= p.1 < FIELD_W) || bites(b, p, grows) {
    } else {
        assert(adjacent(b.last(), cell));
        lemma_path_extend(b, cell);
        if !grows {
            assert(b.push(cell).drop_first().last() == cell);
        }
    }
}

/// How many columns and rows of the field a drawing area of `width` by
/// `height` character cells shows: each field cell is two characters wide,
/// and two columns and four rows go to the border, header and status line.
pub open spec fn shown_field(width: int, height: int) -> (int, int) {
    let w = if width >= 4 {
        (width - 4) / 2
    } else {
        0
    };
    let h = if height >= 4 {
        height - 4
    } else {
        0
    };
    (if w < FIELD_W {
        w
    } else {
        FIELD_W as int
    }, if h < FIELD_H {
        h
    } else {
        FIELD_H as int
    })
}

/// The part of the field shown in an area of `width` by `height` cells.
pub fn visible_field(width: u16, height: u16) -> (f: (i32, i32))
    ensures
        f.0 == shown_field(width as int, height as int).0,
        f.1 == shown_field(width as int, height as int).1,
{
    let w = (width.saturating_sub(4) / 2) as i32;
    let h = height.saturating_sub(4) as i32;
    (if w < FIELD_W {
        w
    } else {
        FIELD_W
    }, if h < FIELD_H {
        h
    } else {
        FIELD_H
    })
}

} // verus!
