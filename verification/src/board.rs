//! The executable board and its operations, each specified against the
//! transition functions of `model`.

use vstd::map::*;
use vstd::prelude::*;
use vstd::seq_lib::*;
use vstd::set_lib::{lemma_int_range, lemma_len_subset, set_int_range};

use crate::model::{
    adjacent, capture_opponents, capture_step, cleared, connected, group_has_liberty, group_of,
    has_empty_neighbor, lemma_closed_seq_covers, lemma_connected_step, lemma_group_member,
    lemma_neighbors_seq_props, model_ok, neighbors_seq, on_board, opposite, placed, play_step,
    with_move_number, BoardModel, StoneColor,
};

verus! {

/// A stone together with the point it stands on.
#[derive(Copy, Clone, Debug, PartialEq, Eq, Structural)]
pub struct Stone {
    pub x: u8,
    pub y: u8,
    pub color: StoneColor,
}

impl Stone {
    pub fn new(x: u8, y: u8, color: StoneColor) -> (r: Stone)
        ensures
            r == (Stone { x, y, color }),
    {
        Stone { x, y, color }
    }
}

/// The one failure an operation can report: a placement on an occupied or
/// off-board point.
#[derive(Copy, Clone, Debug, PartialEq, Eq, Structural)]
pub enum GobanError {
    InvalidMoveError,
}

/// A Go board: fixed dimensions, the stones on it, the move counter and the
/// per-color capture tallies.
pub struct Goban {
    size: (u8, u8),
    grid: Vec<Option<StoneColor>>,
    move_number: u64,
    black_captures: u64,
    white_captures: u64,
}

/// The index of an on-board point in the board's row-major grid.
pub(crate) open spec fn pt_idx(size: (u8, u8), p: (u8, u8)) -> int {
    p.1 as int * size.0 as int + p.0 as int
}

/// The area of any board fits comfortably in every machine size.
pub(crate) proof fn lemma_area_bound(size: (u8, u8))
    ensures
        0 <= size.0 as int * size.1 as int,
        size.0 as int * size.1 as int <= 65025,
{
    assert(0 <= size.0 as int * size.1 as int && size.0 as int * size.1 as int <= 65025)
        by (nonlinear_arith)
        requires
            size.0 <= 255,
            size.1 <= 255,
    ;
}

pub(crate) proof fn lemma_pt_idx_bounds(size: (u8, u8), p: (u8, u8))
    requires
        on_board(size, p),
    ensures
        0 <= pt_idx(size, p),
        pt_idx(size, p) < size.0 as int * size.1 as int,
        size.0 as int * size.1 as int <= 65025,
{
    lemma_area_bound(size);
    assert(0 <= p.1 as int * size.0 as int + p.0 as int
        && (p.1 as int * size.0 as int + p.0 as int) < size.0 as int * size.1 as int)
        by (nonlinear_arith)
        requires
            p.0 < size.0,
            p.1 < size.1,
    ;
}

pub(crate) proof fn lemma_pt_idx_injective(size: (u8, u8), p: (u8, u8), q: (u8, u8))
    requires
        on_board(size, p),
        on_board(size, q),
        pt_idx(size, p) == pt_idx(size, q),
    ensures
        p == q,
{
    assert(p.0 == q.0 && p.1 == q.1) by (nonlinear_arith)
        requires
            p.0 < size.0,
            q.0 < size.0,
            p.1 as int * size.0 as int + p.0 as int == q.1 as int * size.0 as int + q.0 as int,
    ;
}

impl Goban {
    /// The grid holds one cell for each point of the board.
    pub closed spec fn wf(self) -> bool {
        self.grid@.len() == self.size.0 as int * self.size.1 as int
    }

    pub closed spec fn stones_map(self) -> Map<(u8, u8), StoneColor> {
        Map::new(
            |p: (u8, u8)| on_board(self.size, p) && self.grid@[pt_idx(self.size, p)].is_some(),
            |p: (u8, u8)| self.grid@[pt_idx(self.size, p)].unwrap(),
        )
    }
}

impl View for Goban {
    type V = BoardModel;

    closed spec fn view(&self) -> BoardModel {
        BoardModel {
            size: self.size,
            stones: self.stones_map(),
            move_number: self.move_number as nat,
            black_captures: self.black_captures as nat,
            white_captures: self.white_captures as nat,
        }
    }
}

impl Goban {
    /// An empty board of the given dimensions.
    pub fn new(board_size: (u8, u8)) -> (r: Goban)
        ensures
            r.wf(),
            r@ == (BoardModel {
                size: board_size,
                stones: Map::<(u8, u8), StoneColor>::empty(),
                move_number: 0nat,
                black_captures: 0nat,
                white_captures: 0nat,
            }),
    {
        proof {
            lemma_area_bound(board_size);
        }
        let cells: usize = (board_size.0 as usize) * (board_size.1 as usize);
        let mut grid: Vec<Option<StoneColor>> = Vec::new();
        let mut i: usize = 0;
        while i < cells
            invariant
                i <= cells,
                grid@.len() == i,
                forall|k: int| 0 <= k < i ==> grid@[k] is None,
            decreases cells - i,
        {
            grid.push(None);
            i += 1;
        }
        let r = Goban { size: board_size, grid, move_number: 0, black_captures: 0, white_captures: 0 };
        proof {
            assert forall|p: (u8, u8)| !r.stones_map().dom().contains(p) by {
                if on_board(r.size, p) {
                    lemma_pt_idx_bounds(r.size, p);
                }
            }
            assert(r.stones_map() =~= Map::<(u8, u8), StoneColor>::empty());
        }
        r
    }

    /// The board's dimensions.
    pub fn size(&self) -> (r: (u8, u8))
        ensures
            r == self@.size,
    {
        self.size
    }

    /// The current move counter.
    pub fn move_number(&self) -> (r: u64)
        ensures
            r == self@.move_number,
    {
        self.move_number
    }

    /// How many Black stones have been removed from the board.
    pub fn black_captures(&self) -> (r: u64)
        ensures
            r == self@.black_captures,
    {
        self.black_captures
    }

    /// How many White stones have been removed from the board.
    pub fn white_captures(&self) -> (r: u64)
        ensures
            r == self@.white_captures,
    {
        self.white_captures
    }

    /// The color at `point`, or `None` if the point is empty or off the
    /// board.
    pub fn occupant(&self, point: (u8, u8)) -> (r: Option<StoneColor>)
        requires
            self.wf(),
        ensures
            r == (if self@.stones.dom().contains(point) {
                Some(self@.stones[point])
            } else {
                None::<StoneColor>
            }),
    {
        if point.0 < self.size.0 && point.1 < self.size.1 {
            proof {
                lemma_pt_idx_bounds(self.size, point);
            }
            let i: usize = (point.1 as usize) * (self.size.0 as usize) + (point.0 as usize);
            self.grid[i]
        } else {
            None
        }
    }

    /// Put a stone on the board if its point is on the board and empty; a
    /// setup stone: no capture resolution, no move-counter change.
    pub fn add_stone(&mut self, stone: Stone) -> (r: Result<(), GobanError>)
        requires
            old(self).wf(),
        ensures
            final(self).wf(),
            r == Ok::<(), GobanError>(()) <==> (on_board(old(self)@.size, (stone.x, stone.y))
                && !old(self)@.stones.dom().contains((stone.x, stone.y))),
            r == Ok::<(), GobanError>(()) ==> final(self)@ == placed(
                old(self)@,
                (stone.x, stone.y),
                stone.color,
            ),
            r != Ok::<(), GobanError>(()) ==> *final(self) == *old(self) && r == Err::<
                (),
                GobanError,
            >(GobanError::InvalidMoveError),
    {
        if stone.x >= self.size.0 || stone.y >= self.size.1 {
            return Err(GobanError::InvalidMoveError);
        }
        let key = (stone.x, stone.y);
        proof {
            lemma_pt_idx_bounds(self.size, key);
        }
        let i: usize = (stone.y as usize) * (self.size.0 as usize) + (stone.x as usize);
        if self.grid[i].is_some() {
            return Err(GobanError::InvalidMoveError);
        }
        self.grid[i] = Some(stone.color);
        proof {
            assert(i as int == pt_idx(self.size, key));
            assert_maps_equal!(
                self.stones_map(),
                old(self).stones_map().insert(key, stone.color),
                q => {
                    if on_board(self.size, q) {
                        lemma_pt_idx_bounds(self.size, q);
                        if q != key && pt_idx(self.size, q) == pt_idx(self.size, key) {
                            lemma_pt_idx_injective(self.size, q, key);
                        }
                    }
                }
            );
            assert(self@ =~= placed(old(self)@, key, stone.color));
        }
        Ok(())
    }

    /// Remove any stone at `point`; a no-op if the point is empty or off the
    /// board. Never fails, never runs capture resolution, never touches the
    /// counters.
    pub fn clear_point(&mut self, point: (u8, u8))
        requires
            old(self).wf(),
        ensures
            final(self).wf(),
            final(self)@ == cleared(old(self)@, point),
            !old(self)@.stones.dom().contains(point) ==> *final(self) == *old(self),
    {
        if point.0 < self.size.0 && point.1 < self.size.1 {
            proof {
                lemma_pt_idx_bounds(self.size, point);
            }
            let i: usize = (point.1 as usize) * (self.size.0 as usize) + (point.0 as usize);
            if self.grid[i].is_some() {
                self.grid[i] = None;
                proof {
                    assert(i as int == pt_idx(self.size, point));
                    assert_maps_equal!(
                        self.stones_map(),
                        old(self).stones_map().remove(point),
                        q => {
                            if on_board(self.size, q) {
                                lemma_pt_idx_bounds(self.size, q);
                                if q != point && pt_idx(self.size, q) == pt_idx(self.size, point) {
                                    lemma_pt_idx_injective(self.size, q, point);
                                }
                            }
                        }
                    );
                    assert(self@ =~= cleared(old(self)@, point));
                }
                return;
            }
        }
        proof {
            assert_maps_equal!(self.stones_map(), old(self).stones_map().remove(point), q => {});
            assert(self@ =~= cleared(old(self)@, point));
        }
    }

    /// Overwrite the move counter; nothing else changes.
    pub fn set_move_number(&mut self, num: u64)
        requires
            old(self).wf(),
        ensures
            final(self).wf(),
            final(self)@ == with_move_number(old(self)@, num as nat),
    {
        self.move_number = num;
        proof {
            assert_maps_equal!(self.stones_map(), old(self).stones_map(), q => {});
            assert(self@ =~= with_move_number(old(self)@, num as nat));
        }
    }

    /// The on-board orthogonal neighbors of `point`: right, left, up, down.
    fn neighbors(&self, point: (u8, u8)) -> (r: Vec<(u8, u8)>)
        requires
            self.wf(),
            on_board(self@.size, point),
        ensures
            r@ == neighbors_seq(self@.size, point),
    {
        let (x, y) = point;
        let mut v: Vec<(u8, u8)> = Vec::new();
        if (x as usize) + 1 < self.size.0 as usize {
            v.push((x + 1, y));
        }
        if x > 0 {
            v.push((x - 1, y));
        }
        if (y as usize) + 1 < self.size.1 as usize {
            v.push((x, y + 1));
        }
        if y > 0 {
            v.push((x, y - 1));
        }
        proof {
            assert(v@ =~= neighbors_seq(self@.size, point));
        }
        v
    }

    /// Capture resolution at `start_point`, as `capture_step` describes: a
    /// group without liberties is removed whole, and the removed color's
    /// tally grows by the group's stone count.
    #[verifier::loop_isolation(false)]
    fn process_captures(&mut self, start_point: (u8, u8))
        requires
            old(self).wf(),
            old(self)@.black_captures + old(self)@.size.0 as int * old(self)@.size.1 as int
                <= u64::MAX,
            old(self)@.white_captures + old(self)@.size.0 as int * old(self)@.size.1 as int
                <= u64::MAX,
        ensures
            final(self).wf(),
            final(self)@ == capture_step(old(self)@, start_point),
            final(self)@.black_captures <= old(self)@.black_captures + old(self)@.size.0 as int
                * old(self)@.size.1 as int,
            final(self)@.white_captures <= old(self)@.white_captures + old(self)@.size.0 as int
                * old(self)@.size.1 as int,
    {
        let ghost m = old(self)@;
        proof {
            lemma_goban_model_ok(*self);
        }
        let color = match self.occupant(start_point) {
            Some(c) => c,
            None => {
                return;
            },
        };
        let ghost area = m.size.0 as int * m.size.1 as int;
        let mut group: Vec<(u8, u8)> = Vec::new();
        group.push(start_point);
        proof {
            assert(group@[0] == start_point);
            crate::model::lemma_connected_refl(m.stones, start_point);
            lemma_distinct_points_len(group@, m.size);
        }
        let mut i: usize = 0;
        while i < group.len()
            invariant
                i <= group@.len(),
                group@.len() <= area,
                group@.no_duplicates(),
                group@.contains(start_point),
                forall|k: int|
                    0 <= k < group@.len() ==> m.stones.dom().contains(#[trigger] group@[k])
                        && m.stones[group@[k]] == color,
                forall|k: int|
                    0 <= k < group@.len() ==> connected(
                        m.stones,
                        color,
                        start_point,
                        #[trigger] group@[k],
                    ),
                forall|k: int, q: (u8, u8)|
                    #![trigger group@[k], adjacent(group@[k], q)]
                    (0 <= k < i && adjacent(group@[k], q) && on_board(m.size, q)) ==> (
                    m.stones.dom().contains(q) && (m.stones[q] == color ==> group@.contains(q))),
            decreases area - i,
        {
            let p = group[i];
            let nbrs = self.neighbors(p);
            proof {
                lemma_neighbors_seq_props(m.size, p);
            }
            let mut j: usize = 0;
            while j < nbrs.len()
                invariant
                    j <= nbrs@.len(),
                    i < group@.len(),
                    p == group@[i as int],
                    group@.len() <= area,
                    group@.no_duplicates(),
                    group@.contains(start_point),
                    forall|k: int|
                        0 <= k < group@.len() ==> m.stones.dom().contains(#[trigger] group@[k])
                            && m.stones[group@[k]] == color,
                    forall|k: int|
                        0 <= k < group@.len() ==> connected(
                            m.stones,
                            color,
                            start_point,
                            #[trigger] group@[k],
                        ),
                    forall|k: int, q: (u8, u8)|
                        #![trigger group@[k], adjacent(group@[k], q)]
                        (0 <= k < i && adjacent(group@[k], q) && on_board(m.size, q)) ==> (
                        m.stones.dom().contains(q) && (m.stones[q] == color
                            ==> group@.contains(q))),
                    forall|jj: int|
                        0 <= jj < j ==> (m.stones.dom().contains(#[trigger] nbrs@[jj]) && (
                        m.stones[nbrs@[jj]] == color ==> group@.contains(nbrs@[jj]))),
                decreases nbrs@.len() - j,
            {
                let n = nbrs[j];
                if contains_point(&group, n) {
                    proof {
                        let t = choose|t: int| 0 <= t < group@.len() && group@[t] == n;
                        assert(m.stones.dom().contains(group@[t]));
                    }
                } else {
                    match self.occupant(n) {
                        None => {
                            proof {
                                assert(group_of(m.stones, start_point).contains(p));
                                assert(adjacent(p, n) && on_board(m.size, n)
                                    && !m.stones.dom().contains(n));
                                assert(has_empty_neighbor(m, p));
                                assert(group_has_liberty(m, start_point));
                            }
                            return;
                        },
                        Some(c2) => {
                            if c2 == color {
                                let ghost before = group@;
                                group.push(n);
                                proof {
                                    assert(group@[group@.len() - 1] == n);
                                    assert(group@.contains(n));
                                    assert forall|y: (u8, u8)| before.contains(y)
                                        implies group@.contains(y) by {
                                        let t = choose|t: int|
                                            0 <= t < before.len() && before[t] == y;
                                        assert(group@[t] == y);
                                    }
                                    assert(group@.no_duplicates()) by {
                                        assert forall|t1: int, t2: int|
                                            0 <= t1 < group@.len() && 0 <= t2 < group@.len() && t1
                                                != t2 implies group@[t1] != group@[t2] by {
                                            if t1 < before.len() && t2 < before.len() {
                                                assert(before[t1] != before[t2]);
                                            } else if t1 < before.len() {
                                                if before[t1] == n {
                                                    assert(before.contains(n));
                                                }
                                            } else if t2 < before.len() {
                                                if before[t2] == n {
                                                    assert(before.contains(n));
                                                }
                                            }
                                        }
                                    }
                                    lemma_connected_step(m.stones, color, start_point, p, n);
                                    lemma_distinct_points_len(group@, m.size);
                                }
                            }
                        },
                    }
                }
                j += 1;
            }
            proof {
                assert forall|q: (u8, u8)| adjacent(group@[i as int], q) && on_board(m.size, q)
                    implies (m.stones.dom().contains(q) && (m.stones[q] == color
                    ==> group@.contains(q))) by {
                    assert(nbrs@.contains(q));
                    let jj = choose|jj: int| 0 <= jj < nbrs@.len() && nbrs@[jj] == q;
                }
            }
            i += 1;
        }
        // The whole group has been collected and no liberty was found.
        let ghost gset = group_of(m.stones, start_point);
        proof {
            assert forall|a: (u8, u8), q: (u8, u8)|
                #![trigger group@.contains(a), adjacent(a, q)]
                group@.contains(a) && adjacent(a, q) && m.stones.dom().contains(q) && m.stones[q]
                    == color implies group@.contains(q) by {
                let k = choose|k: int| 0 <= k < group@.len() && group@[k] == a;
                assert(adjacent(group@[k], q));
                assert(on_board(m.size, q));
            }
            assert forall|x: (u8, u8)| gset.contains(x) implies group@.contains(x) by {
                lemma_group_member(m.stones, start_point, x);
                lemma_closed_seq_covers(m.stones, color, group@, start_point, x);
            }
            assert forall|x: (u8, u8)| group@.contains(x) implies gset.contains(x) by {
                let k = choose|k: int| 0 <= k < group@.len() && group@[k] == x;
                assert(connected(m.stones, color, start_point, group@[k]));
            }
            assert(group@.to_set() =~= gset);
            assert(!group_has_liberty(m, start_point)) by {
                if group_has_liberty(m, start_point) {
                    let q = choose|q: (u8, u8)|
                        #[trigger] group_of(m.stones, start_point).contains(q)
                            && has_empty_neighbor(m, q);
                    let n = choose|n: (u8, u8)|
                        #[trigger] adjacent(q, n) && on_board(m.size, n)
                            && !m.stones.dom().contains(n);
                    let k = choose|k: int| 0 <= k < group@.len() && group@[k] == q;
                    assert(adjacent(group@[k], n));
                    assert(false);
                }
            }
            group@.unique_seq_to_set();
        }
        let glen: usize = group.len();
        let mut k: usize = 0;
        while k < glen
            invariant
                k <= glen,
                glen == group@.len(),
                self.wf(),
                self.size == old(self).size,
                self@.move_number == m.move_number,
                self@.black_captures == m.black_captures,
                self@.white_captures == m.white_captures,
                forall|q: (u8, u8)|
                    #[trigger] self@.stones.dom().contains(q) <==> (m.stones.dom().contains(q)
                        && !group@.take(k as int).contains(q)),
                forall|q: (u8, u8)|
                    self@.stones.dom().contains(q) ==> #[trigger] self@.stones[q] == m.stones[q],
            decreases glen - k,
        {
            let p = group[k];
            proof {
                lemma_pt_idx_bounds(self.size, p);
            }
            let idx: usize = (p.1 as usize) * (self.size.0 as usize) + (p.0 as usize);
            let ghost before_g = *self;
            let ghost taken = group@.take(k as int);
            self.grid[idx] = None;
            k += 1;
            proof {
                assert(idx as int == pt_idx(m.size, p));
                assert(self.grid@ == before_g.grid@.update(idx as int, None::<StoneColor>));
                let new_taken = group@.take(k as int);
                assert(new_taken =~= taken.push(p));
                assert forall|q: (u8, u8)| new_taken.contains(q) <==> (taken.contains(q) || q
                    == p) by {
                    if taken.contains(q) {
                        let t = choose|t: int| 0 <= t < taken.len() && taken[t] == q;
                        assert(new_taken[t] == q);
                    }
                    if q == p {
                        assert(new_taken[k - 1] == q);
                    }
                    if new_taken.contains(q) && q != p {
                        let t = choose|t: int| 0 <= t < new_taken.len() && new_taken[t] == q;
                        assert(t < taken.len());
                        assert(taken[t] == q);
                    }
                }
                assert forall|q: (u8, u8)| #[trigger] self@.stones.dom().contains(q) <==> (
                    m.stones.dom().contains(q) && !group@.take(k as int).contains(q)) by {
                    assert(before_g@.stones.dom().contains(q) <==> (m.stones.dom().contains(q)
                        && !taken.contains(q)));
                    if on_board(m.size, q) {
                        lemma_pt_idx_bounds(m.size, q);
                        if q == p {
                            assert(self.grid@[pt_idx(m.size, q)] is None);
                        } else {
                            if pt_idx(m.size, q) == pt_idx(m.size, p) {
                                lemma_pt_idx_injective(m.size, q, p);
                            }
                            assert(self.grid@[pt_idx(m.size, q)] == before_g.grid@[pt_idx(
                                m.size,
                                q,
                            )]);
                        }
                    } else {
                        assert(!m.stones.dom().contains(q));
                    }
                }
                assert forall|q: (u8, u8)| self@.stones.dom().contains(q)
                    implies #[trigger] self@.stones[q] == m.stones[q] by {
                    assert(before_g@.stones.dom().contains(q) ==> before_g@.stones[q]
                        == m.stones[q]);
                    lemma_pt_idx_bounds(m.size, q);
                    if pt_idx(m.size, q) == pt_idx(m.size, p) {
                        lemma_pt_idx_injective(m.size, q, p);
                    }
                    assert(q != p);
                    assert(self.grid@[pt_idx(m.size, q)] == before_g.grid@[pt_idx(m.size, q)]);
                }
            }
        }
        proof {
            assert(group@.take(glen as int) =~= group@);
        }
        let ghost gsnap = *self;
        let captured: u64 = glen as u64;
        match color {
            StoneColor::Black => {
                self.black_captures = self.black_captures + captured;
            },
            StoneColor::White => {
                self.white_captures = self.white_captures + captured;
            },
        }
        proof {
            assert_maps_equal!(self.stones_map(), gsnap.stones_map(), q => {});
            assert_maps_equal!(
                self@.stones,
                m.stones.remove_keys(gset),
                q => {
                    assert(gsnap@.stones.dom().contains(q) <==> (m.stones.dom().contains(q)
                        && !group@.contains(q)));
                }
            );
            assert(self@ =~= capture_step(old(self)@, start_point));
        }
    }
    /// A played move: place the stone, capture opposing neighbor groups left
    /// without liberties (opponents first), then resolve the played stone's
    /// own group, then advance the move counter by one. Fails, changing
    /// nothing, when the point is off the board or occupied.
    #[verifier::loop_isolation(false)]
    pub fn play_stone(&mut self, stone: Stone) -> (r: Result<(), GobanError>)
        requires
            old(self).wf(),
            old(self)@.move_number + 1 <= u64::MAX,
            old(self)@.black_captures + 5 * (old(self)@.size.0 as int * old(self)@.size.1 as int)
                <= u64::MAX,
            old(self)@.white_captures + 5 * (old(self)@.size.0 as int * old(self)@.size.1 as int)
                <= u64::MAX,
        ensures
            final(self).wf(),
            r == Ok::<(), GobanError>(()) <==> (on_board(old(self)@.size, (stone.x, stone.y))
                && !old(self)@.stones.dom().contains((stone.x, stone.y))),
            r == Ok::<(), GobanError>(()) ==> final(self)@ == play_step(
                old(self)@,
                (stone.x, stone.y),
                stone.color,
            ),
            r != Ok::<(), GobanError>(()) ==> *final(self) == *old(self) && r == Err::<
                (),
                GobanError,
            >(GobanError::InvalidMoveError),
    {
        let ghost m0 = old(self)@;
        match self.add_stone(stone) {
            Ok(()) => {},
            Err(e) => {
                return Err(e);
            },
        }
        let key = (stone.x, stone.y);
        let ghost m1 = self@;
        let opponent_color = match stone.color {
            StoneColor::Black => StoneColor::White,
            StoneColor::White => StoneColor::Black,
        };
        let ghost area = m0.size.0 as int * m0.size.1 as int;
        let nbrs = self.neighbors(key);
        let ghost ns = nbrs@;
        proof {
            lemma_neighbors_seq_props(m0.size, key);
            lemma_area_bound(m0.size);
            assert(0 * area == 0) by (nonlinear_arith);
            assert(ns.skip(0) =~= ns);
        }
        let mut j: usize = 0;
        while j < nbrs.len()
            invariant
                j <= ns.len(),
                self.wf(),
                self@.size == m0.size,
                self@.move_number == m1.move_number,
                self@.black_captures <= m1.black_captures + j as int * area,
                self@.white_captures <= m1.white_captures + j as int * area,
                capture_opponents(m1, ns, opponent_color) == capture_opponents(
                    self@,
                    ns.skip(j as int),
                    opponent_color,
                ),
            decreases ns.len() - j,
        {
            let ghost cur = self@;
            proof {
                assert(j as int * area <= 3 * area) by (nonlinear_arith)
                    requires
                        0 <= j <= 3,
                        0 <= area,
                ;
            }
            let n = nbrs[j];
            match self.occupant(n) {
                Some(c2) => {
                    if c2 == opponent_color {
                        self.process_captures(n);
                    }
                },
                None => {},
            }
            j += 1;
            proof {
                let jo = j as int - 1;
                assert((jo + 1) * area == jo * area + area) by (nonlinear_arith);
                assert(ns.skip(jo)[0] == ns[jo]);
                assert(ns.skip(jo).drop_first() =~= ns.skip(jo + 1));
                if cur.stones.dom().contains(n) && cur.stones[n] == opponent_color {
                    assert(self@ == capture_step(cur, n));
                } else {
                    assert(self@ == cur);
                }
                assert(capture_opponents(cur, ns.skip(jo), opponent_color) == capture_opponents(
                    self@,
                    ns.skip(jo + 1),
                    opponent_color,
                ));
            }
        }
        proof {
            assert(j as int * area <= 4 * area) by (nonlinear_arith)
                requires
                    0 <= j <= 4,
                    0 <= area,
            ;
            assert(ns.skip(j as int).len() == 0);
            assert(capture_opponents(self@, ns.skip(j as int), opponent_color) == self@);
        }
        let ghost m2 = self@;
        self.process_captures(key);
        let ghost m3 = self@;
        let ghost gsnap = *self;
        self.move_number = self.move_number + 1;
        proof {
            assert_maps_equal!(self.stones_map(), gsnap.stones_map(), q => {});
            assert(m1 == placed(m0, key, stone.color));
            assert(opposite(stone.color) == opponent_color);
            assert(m2 == capture_opponents(m1, neighbors_seq(m0.size, key), opponent_color));
            assert(m3 == capture_step(m2, key));
            assert(self@ =~= play_step(m0, key, stone.color));
        }
        Ok(())
    }
    /// Every stone on the board, one entry per occupied point, in an order
    /// that is not part of the contract.
    pub fn stones(&self) -> (r: Vec<Stone>)
        requires
            self.wf(),
        ensures
            forall|k: int|
                0 <= k < r@.len() ==> self@.stones.dom().contains(stone_key(#[trigger] r@[k]))
                    && self@.stones[stone_key(r@[k])] == r@[k].color,
            forall|p: (u8, u8)|
                #[trigger] self@.stones.dom().contains(p) ==> exists|k: int|
                    0 <= k < r@.len() && stone_key(r@[k]) == p,
            forall|k1: int, k2: int|
                0 <= k1 < r@.len() && 0 <= k2 < r@.len() && k1 != k2 ==> stone_key(r@[k1])
                    != stone_key(r@[k2]),
    {
        let w: usize = self.size.0 as usize;
        let cells: usize = self.grid.len();
        let mut r: Vec<Stone> = Vec::new();
        let mut i: usize = 0;
        while i < cells
            invariant
                i <= cells,
                cells == self.grid@.len(),
                w == self.size.0 as usize,
                self.wf(),
                forall|k: int|
                    0 <= k < r@.len() ==> (on_board(self@.size, stone_key(#[trigger] r@[k]))
                        && pt_idx(self@.size, stone_key(r@[k])) < i
                        && self@.stones.dom().contains(stone_key(r@[k]))
                        && self@.stones[stone_key(r@[k])] == r@[k].color),
                forall|p: (u8, u8)|
                    #[trigger] self@.stones.dom().contains(p) && pt_idx(self@.size, p) < i
                        ==> exists|k: int| 0 <= k < r@.len() && stone_key(r@[k]) == p,
                forall|k1: int, k2: int|
                    0 <= k1 < r@.len() && 0 <= k2 < r@.len() && k1 != k2 ==> stone_key(r@[k1])
                        != stone_key(r@[k2]),
            decreases cells - i,
        {
            proof {
                assert(w != 0) by (nonlinear_arith)
                    requires
                        i < cells,
                        0 <= i,
                        cells == w * (self.size.1 as usize),
                ;
                assert((i / w) < self.size.1 as usize) by (nonlinear_arith)
                    requires
                        i < w * (self.size.1 as usize),
                        0 <= i,
                        0 < w,
                ;
                vstd::arithmetic::div_mod::lemma_fundamental_div_mod(i as int, w as int);
            }
            let x: u8 = (i % w) as u8;
            let y: u8 = (i / w) as u8;
            let ghost p = (x, y);
            proof {
                assert(pt_idx(self@.size, p) == i) by (nonlinear_arith)
                    requires
                        i as int == w as int * (i as int / w as int) + i as int % w as int,
                        0 < w,
                        x == i as int % w as int,
                        y == i as int / w as int,
                        w == self@.size.0 as int,
                        pt_idx(self@.size, p) == y as int * self@.size.0 as int + x as int,
                ;
            }
            match self.grid[i] {
                Some(c) => {
                    let ghost prev = r@;
                    r.push(Stone { x, y, color: c });
                    proof {
                        assert(stone_key(r@[r@.len() - 1]) == p);
                        assert forall|q: (u8, u8)|
                            #[trigger] self@.stones.dom().contains(q) && pt_idx(self@.size, q) < i
                                + 1 implies exists|k: int|
                            0 <= k < r@.len() && stone_key(r@[k]) == q by {
                            if pt_idx(self@.size, q) == i as int {
                                lemma_pt_idx_injective(self@.size, q, p);
                                assert(stone_key(r@[r@.len() - 1]) == q);
                            } else {
                                let k = choose|k: int|
                                    0 <= k < prev.len() && stone_key(prev[k]) == q;
                                assert(stone_key(r@[k]) == q);
                            }
                        }
                    }
                },
                None => {
                    proof {
                        assert forall|q: (u8, u8)|
                            #[trigger] self@.stones.dom().contains(q) && pt_idx(self@.size, q) < i
                                + 1 implies exists|k: int|
                            0 <= k < r@.len() && stone_key(r@[k]) == q by {
                            if pt_idx(self@.size, q) == i as int {
                                lemma_pt_idx_injective(self@.size, q, p);
                            }
                        }
                    }
                },
            }
            i += 1;
        }
        proof {
            assert forall|p2: (u8, u8)| #[trigger] self@.stones.dom().contains(p2) implies pt_idx(
                self@.size,
                p2,
            ) < cells by {
                lemma_pt_idx_bounds(self@.size, p2);
            }
        }
        r
    }

    /// The conventional star points for the board's size; empty for sizes
    /// without a convention.
    pub fn hoshi_points(&self) -> (r: Vec<(u8, u8)>)
        ensures
            r@ == hoshi_spec(self@.size),
    {
        let mut v: Vec<(u8, u8)> = Vec::new();
        if self.size.0 == 9 && self.size.1 == 9 {
            v.push((2, 2));
            v.push((2, 6));
            v.push((6, 2));
            v.push((6, 6));
        } else if self.size.0 == 13 && self.size.1 == 13 {
            v.push((3, 3));
            v.push((3, 9));
            v.push((6, 6));
            v.push((9, 3));
            v.push((9, 9));
        } else if self.size.0 == 19 && self.size.1 == 19 {
            v.push((3, 3));
            v.push((3, 9));
            v.push((3, 15));
            v.push((9, 3));
            v.push((9, 9));
            v.push((9, 15));
            v.push((15, 3));
            v.push((15, 9));
            v.push((15, 15));
        }
        proof {
            assert(v@ =~= hoshi_spec(self@.size));
        }
        v
    }

    /// The record convention that writes a pass as the off-board point
    /// (19, 19) on boards smaller than 20 in either dimension.
    pub fn is_tt_pass(&self, x: u8, y: u8) -> (r: bool)
        ensures
            r == (x == 19 && y == 19 && self@.size.0 < 20 && self@.size.1 < 20),
    {
        x == 19 && y == 19 && self.size.0 < 20 && self.size.1 < 20
    }
}

/// The point a stone stands on.
pub open spec fn stone_key(s: Stone) -> (u8, u8) {
    (s.x, s.y)
}

/// The conventional star points of each standard board size.
pub open spec fn hoshi_spec(size: (u8, u8)) -> Seq<(u8, u8)> {
    if size.0 == 9 && size.1 == 9 {
        seq![(2u8, 2u8), (2u8, 6u8), (6u8, 2u8), (6u8, 6u8)]
    } else if size.0 == 13 && size.1 == 13 {
        seq![(3u8, 3u8), (3u8, 9u8), (6u8, 6u8), (9u8, 3u8), (9u8, 9u8)]
    } else if size.0 == 19 && size.1 == 19 {
        seq![
            (3u8, 3u8),
            (3u8, 9u8),
            (3u8, 15u8),
            (9u8, 3u8),
            (9u8, 9u8),
            (9u8, 15u8),
            (15u8, 3u8),
            (15u8, 9u8),
            (15u8, 15u8),
        ]
    } else {
        Seq::<(u8, u8)>::empty()
    }
}

/// Whether the vector holds the point.
fn contains_point(v: &Vec<(u8, u8)>, p: (u8, u8)) -> (r: bool)
    ensures
        r == v@.contains(p),
{
    let mut k: usize = 0;
    while k < v.len()
        invariant
            k <= v@.len(),
            forall|t: int| 0 <= t < k ==> v@[t] != p,
        decreases v@.len() - k,
    {
        if v[k].0 == p.0 && v[k].1 == p.1 {
            proof {
                assert(v@[k as int] == p);
            }
            return true;
        }
        k += 1;
    }
    false
}

/// Every stone of a board stands on the board.
pub proof fn lemma_goban_model_ok(g: Goban)
    ensures
        model_ok(g@),
{
}

/// Distinct on-board points are no more numerous than the board's area.
pub(crate) proof fn lemma_distinct_points_len(s: Seq<(u8, u8)>, size: (u8, u8))
    requires
        s.no_duplicates(),
        forall|k: int| 0 <= k < s.len() ==> on_board(size, #[trigger] s[k]),
    ensures
        s.len() <= size.0 as int * size.1 as int,
{
    let f = |p: (u8, u8)| pt_idx(size, p);
    let t = s.map_values(f);
    let area = size.0 as int * size.1 as int;
    assert(t.no_duplicates()) by {
        assert forall|i: int, j: int|
            0 <= i < t.len() && 0 <= j < t.len() && i != j implies t[i] != t[j] by {
            if pt_idx(size, s[i]) == pt_idx(size, s[j]) {
                lemma_pt_idx_injective(size, s[i], s[j]);
            }
        }
    }
    assert(t.to_set().subset_of(set_int_range(0, area))) by {
        assert forall|x: int| t.to_set().contains(x) implies set_int_range(0, area).contains(
            x,
        ) by {
            let i = choose|i: int| 0 <= i < t.len() && t[i] == x;
            lemma_pt_idx_bounds(size, s[i]);
        }
    }
    lemma_int_range(0, area);
    lemma_len_subset(t.to_set(), set_int_range(0, area));
    t.unique_seq_to_set();
}

} // verus!
