//! Mathematical model of a Go board and of the capture rules.
//!
//! The executable board in `board` is specified against the transition
//! functions defined here: every operation on a board corresponds to one of
//! `placed`, `cleared`, `with_move_number`, `capture_step` or `play_step` on
//! its abstract `BoardModel`.

use vstd::prelude::*;

verus! {

/// The color of a stone. A point holds at most one stone.
#[derive(Copy, Clone, Debug, PartialEq, Eq, PartialOrd, Ord, Structural)]
pub enum StoneColor {
    Black,
    White,
}

/// The abstract state of a board: dimensions, the occupied points, the move
/// counter and the two capture tallies. `black_captures` counts Black stones
/// that have been removed from the board (not captures credited to Black),
/// and likewise for `white_captures`.
#[verifier::ext_equal]
pub struct BoardModel {
    pub size: (u8, u8),
    pub stones: Map<(u8, u8), StoneColor>,
    pub move_number: nat,
    pub black_captures: nat,
    pub white_captures: nat,
}

/// The color of the opposing side.
pub open spec fn opposite(c: StoneColor) -> StoneColor {
    match c {
        StoneColor::Black => StoneColor::White,
        StoneColor::White => StoneColor::Black,
    }
}

/// A point lies within the board's dimensions.
pub open spec fn on_board(size: (u8, u8), p: (u8, u8)) -> bool {
    p.0 < size.0 && p.1 < size.1
}

/// Orthogonal adjacency of two points.
pub open spec fn adjacent(p: (u8, u8), q: (u8, u8)) -> bool {
    ||| p.0 == q.0 && p.1 + 1 == q.1
    ||| p.0 == q.0 && q.1 + 1 == p.1
    ||| p.1 == q.1 && p.0 + 1 == q.0
    ||| p.1 == q.1 && q.0 + 1 == p.0
}

/// Every occupied point lies on the board.
pub open spec fn model_ok(m: BoardModel) -> bool {
    forall|p: (u8, u8)| #[trigger] m.stones.dom().contains(p) ==> on_board(m.size, p)
}

/// A nonempty sequence of points, all occupied by color `c`, each consecutive
/// pair orthogonally adjacent.
pub open spec fn is_path(
    stones: Map<(u8, u8), StoneColor>,
    c: StoneColor,
    path: Seq<(u8, u8)>,
) -> bool {
    &&& (forall|i: int|
        0 <= i < path.len() ==> stones.dom().contains(#[trigger] path[i]) && stones[path[i]] == c)
    &&& (forall|i: int| 0 <= i < path.len() - 1 ==> adjacent(#[trigger] path[i], path[i + 1]))
}

/// `q` is reachable from `p` through stones of color `c`.
pub open spec fn connected(
    stones: Map<(u8, u8), StoneColor>,
    c: StoneColor,
    p: (u8, u8),
    q: (u8, u8),
) -> bool {
    exists|path: Seq<(u8, u8)>|
        #[trigger] is_path(stones, c, path) && path.len() > 0 && path[0] == p && path.last() == q
}

/// The maximal connected same-color group containing `p`; empty if `p` is
/// unoccupied.
pub open spec fn group_of(stones: Map<(u8, u8), StoneColor>, p: (u8, u8)) -> Set<(u8, u8)> {
    if stones.dom().contains(p) {
        Set::new(|q: (u8, u8)| connected(stones, stones[p], p, q))
    } else {
        Set::empty()
    }
}

/// `q` has an empty on-board neighbor (a liberty of its group).
pub open spec fn has_empty_neighbor(m: BoardModel, q: (u8, u8)) -> bool {
    exists|n: (u8, u8)|
        #[trigger] adjacent(q, n) && on_board(m.size, n) && !m.stones.dom().contains(n)
}

/// The group containing `p` has at least one liberty.
pub open spec fn group_has_liberty(m: BoardModel, p: (u8, u8)) -> bool {
    exists|q: (u8, u8)| #[trigger] group_of(m.stones, p).contains(q) && has_empty_neighbor(m, q)
}

/// The model after a stone of color `c` is put at `p` with no further checks.
pub open spec fn placed(m: BoardModel, p: (u8, u8), c: StoneColor) -> BoardModel {
    BoardModel {
        size: m.size,
        stones: m.stones.insert(p, c),
        move_number: m.move_number,
        black_captures: m.black_captures,
        white_captures: m.white_captures,
    }
}

/// The model after any stone at `p` is removed.
pub open spec fn cleared(m: BoardModel, p: (u8, u8)) -> BoardModel {
    BoardModel {
        size: m.size,
        stones: m.stones.remove(p),
        move_number: m.move_number,
        black_captures: m.black_captures,
        white_captures: m.white_captures,
    }
}

/// The model after the move counter is overwritten.
pub open spec fn with_move_number(m: BoardModel, n: nat) -> BoardModel {
    BoardModel {
        size: m.size,
        stones: m.stones,
        move_number: n,
        black_captures: m.black_captures,
        white_captures: m.white_captures,
    }
}

/// Capture resolution at `p`: if `p` is occupied and its group has no
/// liberty, the whole group is removed and the tally of the removed color
/// grows by the group's stone count; otherwise nothing changes.
pub open spec fn capture_step(m: BoardModel, p: (u8, u8)) -> BoardModel {
    if m.stones.dom().contains(p) && !group_has_liberty(m, p) {
        let g = group_of(m.stones, p);
        BoardModel {
            size: m.size,
            stones: m.stones.remove_keys(g),
            move_number: m.move_number,
            black_captures: if m.stones[p] == StoneColor::Black {
                m.black_captures + g.len()
            } else {
                m.black_captures
            },
            white_captures: if m.stones[p] == StoneColor::White {
                m.white_captures + g.len()
            } else {
                m.white_captures
            },
        }
    } else {
        m
    }
}

/// The on-board orthogonal neighbors of `p`, in the order the board visits
/// them: right, left, up, down.
pub open spec fn neighbors_seq(size: (u8, u8), p: (u8, u8)) -> Seq<(u8, u8)> {
    let e = Seq::<(u8, u8)>::empty();
    (if p.0 + 1 < size.0 {
        seq![(((p.0 + 1) as u8), p.1)]
    } else {
        e
    }) + (if p.0 > 0 {
        seq![(((p.0 - 1) as u8), p.1)]
    } else {
        e
    }) + (if p.1 + 1 < size.1 {
        seq![(p.0, ((p.1 + 1) as u8))]
    } else {
        e
    }) + (if p.1 > 0 {
        seq![(p.0, ((p.1 - 1) as u8))]
    } else {
        e
    })
}

/// Capture resolution run in turn on each point of `ns` that holds a stone
/// of color `opp`.
pub open spec fn capture_opponents(
    m: BoardModel,
    ns: Seq<(u8, u8)>,
    opp: StoneColor,
) -> BoardModel
    decreases ns.len(),
{
    if ns.len() == 0 {
        m
    } else {
        let m1 = if m.stones.dom().contains(ns[0]) && m.stones[ns[0]] == opp {
            capture_step(m, ns[0])
        } else {
            m
        };
        capture_opponents(m1, ns.drop_first(), opp)
    }
}

/// A played move at `p` with color `c`: place the stone, resolve captures on
/// every opposing neighbor, then on the played stone itself, then advance
/// the move counter. The placement itself must already have been checked.
pub open spec fn play_step(m: BoardModel, p: (u8, u8), c: StoneColor) -> BoardModel {
    let m1 = placed(m, p, c);
    let m2 = capture_opponents(m1, neighbors_seq(m.size, p), opposite(c));
    let m3 = capture_step(m2, p);
    BoardModel {
        size: m3.size,
        stones: m3.stones,
        move_number: m.move_number + 1,
        black_captures: m3.black_captures,
        white_captures: m3.white_captures,
    }
}

pub proof fn lemma_connected_refl(stones: Map<(u8, u8), StoneColor>, p: (u8, u8))
    requires
        stones.dom().contains(p),
    ensures
        connected(stones, stones[p], p, p),
{
    let path = seq![p];
    assert(is_path(stones, stones[p], path));
    assert(path.last() == p);
}

/// A group member's neighbor of the same color joins the connection.
pub proof fn lemma_connected_step(
    stones: Map<(u8, u8), StoneColor>,
    c: StoneColor,
    p: (u8, u8),
    q: (u8, u8),
    r: (u8, u8),
)
    requires
        connected(stones, c, p, q),
        adjacent(q, r),
        stones.dom().contains(r),
        stones[r] == c,
    ensures
        connected(stones, c, p, r),
{
    let path = choose|path: Seq<(u8, u8)>|
        #[trigger] is_path(stones, c, path) && path.len() > 0 && path[0] == p && path.last() == q;
    let path2 = path.push(r);
    assert(is_path(stones, c, path2)) by {
        assert forall|i: int| 0 <= i < path2.len() implies stones.dom().contains(
            #[trigger] path2[i],
        ) && stones[path2[i]] == c by {
            if i < path.len() {
                assert(path2[i] == path[i]);
            } else {
                assert(path2[i] == r);
            }
        }
        assert forall|i: int| 0 <= i < path2.len() - 1 implies adjacent(
            #[trigger] path2[i],
            path2[i + 1],
        ) by {
            if i < path.len() - 1 {
                assert(path2[i] == path[i] && path2[i + 1] == path[i + 1]);
            } else {
                assert(path2[i] == path.last() && path2[i + 1] == r);
            }
        }
    }
    assert(path2[0] == p && path2.last() == r);
}

/// Every point of a path is connected to the path's head.
pub proof fn lemma_path_points_connected(
    stones: Map<(u8, u8), StoneColor>,
    c: StoneColor,
    path: Seq<(u8, u8)>,
    i: int,
)
    requires
        is_path(stones, c, path),
        0 <= i < path.len(),
    ensures
        connected(stones, c, path[0], path[i]),
{
    let pre = path.subrange(0, i + 1);
    assert(is_path(stones, c, pre)) by {
        assert forall|j: int| 0 <= j < pre.len() implies stones.dom().contains(#[trigger] pre[j])
            && stones[pre[j]] == c by {
            assert(pre[j] == path[j]);
        }
        assert forall|j: int| 0 <= j < pre.len() - 1 implies adjacent(
            #[trigger] pre[j],
            pre[j + 1],
        ) by {
            assert(pre[j] == path[j] && pre[j + 1] == path[j + 1]);
        }
    }
    assert(pre[0] == path[0] && pre.last() == path[i]);
}

/// A path starting at a point connected to `p` ends at a point connected to
/// `p`.
pub proof fn lemma_path_connects(
    stones: Map<(u8, u8), StoneColor>,
    c: StoneColor,
    p: (u8, u8),
    path: Seq<(u8, u8)>,
)
    requires
        is_path(stones, c, path),
        path.len() > 0,
        connected(stones, c, p, path[0]),
    ensures
        connected(stones, c, p, path.last()),
    decreases path.len(),
{
    if path.len() == 1 {
    } else {
        lemma_connected_step(stones, c, p, path[0], path[1]);
        let rest = path.drop_first();
        assert(is_path(stones, c, rest)) by {
            assert forall|j: int| 0 <= j < rest.len() implies stones.dom().contains(
                #[trigger] rest[j],
            ) && stones[rest[j]] == c by {
                assert(rest[j] == path[j + 1]);
            }
            assert forall|j: int| 0 <= j < rest.len() - 1 implies adjacent(
                #[trigger] rest[j],
                rest[j + 1],
            ) by {
                assert(rest[j] == path[j + 1] && rest[j + 1] == path[j + 2]);
            }
        }
        assert(rest[0] == path[1]);
        lemma_path_connects(stones, c, p, rest);
        assert(rest.last() == path.last());
    }
}

pub proof fn lemma_connected_trans(
    stones: Map<(u8, u8), StoneColor>,
    c: StoneColor,
    p: (u8, u8),
    q: (u8, u8),
    r: (u8, u8),
)
    requires
        connected(stones, c, p, q),
        connected(stones, c, q, r),
    ensures
        connected(stones, c, p, r),
{
    let path = choose|path: Seq<(u8, u8)>|
        #[trigger] is_path(stones, c, path) && path.len() > 0 && path[0] == q && path.last() == r;
    lemma_path_connects(stones, c, p, path);
}

pub proof fn lemma_connected_sym(
    stones: Map<(u8, u8), StoneColor>,
    c: StoneColor,
    p: (u8, u8),
    q: (u8, u8),
)
    requires
        connected(stones, c, p, q),
    ensures
        connected(stones, c, q, p),
{
    let path = choose|path: Seq<(u8, u8)>|
        #[trigger] is_path(stones, c, path) && path.len() > 0 && path[0] == p && path.last() == q;
    let n = path.len();
    let rev = Seq::new(n, |i: int| path[n - 1 - i]);
    assert(is_path(stones, c, rev)) by {
        assert forall|i: int| 0 <= i < rev.len() implies stones.dom().contains(#[trigger] rev[i])
            && stones[rev[i]] == c by {
            assert(rev[i] == path[n - 1 - i]);
        }
        assert forall|i: int| 0 <= i < rev.len() - 1 implies adjacent(
            #[trigger] rev[i],
            rev[i + 1],
        ) by {
            assert(rev[i] == path[n - 1 - i] && rev[i + 1] == path[n - 2 - i]);
            assert(adjacent(path[n - 2 - i], path[n - 1 - i]));
        }
    }
    assert(rev[0] == q && rev.last() == p);
}

/// What membership in a group gives: occupancy, the group's color, and a
/// connection to its anchor.
pub proof fn lemma_group_member(stones: Map<(u8, u8), StoneColor>, p: (u8, u8), q: (u8, u8))
    requires
        group_of(stones, p).contains(q),
    ensures
        stones.dom().contains(p),
        stones.dom().contains(q),
        stones[q] == stones[p],
        connected(stones, stones[p], p, q),
{
    let c = stones[p];
    let path = choose|path: Seq<(u8, u8)>|
        #[trigger] is_path(stones, c, path) && path.len() > 0 && path[0] == p && path.last() == q;
    assert(stones.dom().contains(path.last()) && stones[path.last()] == c);
}

pub proof fn lemma_own_group(stones: Map<(u8, u8), StoneColor>, p: (u8, u8))
    requires
        stones.dom().contains(p),
    ensures
        group_of(stones, p).contains(p),
{
    lemma_connected_refl(stones, p);
}

/// Two connected occupied points of one color have the same group.
pub proof fn lemma_group_eq(stones: Map<(u8, u8), StoneColor>, p: (u8, u8), q: (u8, u8))
    requires
        stones.dom().contains(p),
        stones.dom().contains(q),
        stones[q] == stones[p],
        connected(stones, stones[p], p, q),
    ensures
        group_of(stones, q) == group_of(stones, p),
{
    let c = stones[p];
    assert forall|x: (u8, u8)| group_of(stones, q).contains(x) implies group_of(
        stones,
        p,
    ).contains(x) by {
        lemma_connected_trans(stones, c, p, q, x);
    }
    assert forall|x: (u8, u8)| group_of(stones, p).contains(x) implies group_of(
        stones,
        q,
    ).contains(x) by {
        lemma_connected_sym(stones, c, p, q);
        lemma_connected_trans(stones, c, q, p, x);
    }
    assert(group_of(stones, q) =~= group_of(stones, p));
}

/// Groups sharing a member are the same group.
pub proof fn lemma_group_overlap(
    stones: Map<(u8, u8), StoneColor>,
    p: (u8, u8),
    q: (u8, u8),
    x: (u8, u8),
)
    requires
        group_of(stones, p).contains(x),
        group_of(stones, q).contains(x),
    ensures
        group_of(stones, p) == group_of(stones, q),
{
    lemma_group_member(stones, p, x);
    lemma_group_member(stones, q, x);
    lemma_group_eq(stones, p, x);
    lemma_group_eq(stones, q, x);
}

/// A same-colored point adjacent to a group member is itself a member.
pub proof fn lemma_adjacent_extends_group(
    stones: Map<(u8, u8), StoneColor>,
    p: (u8, u8),
    g: (u8, u8),
    h: (u8, u8),
)
    requires
        group_of(stones, p).contains(g),
        adjacent(g, h),
        stones.dom().contains(h),
        stones[h] == stones[p],
    ensures
        group_of(stones, p).contains(h),
{
    lemma_group_member(stones, p, g);
    lemma_connected_step(stones, stones[p], p, g, h);
}

/// Removing points outside a group leaves the group unchanged.
pub proof fn lemma_group_remove_keys(
    stones: Map<(u8, u8), StoneColor>,
    rem: Set<(u8, u8)>,
    p: (u8, u8),
)
    requires
        stones.dom().contains(p),
        forall|x: (u8, u8)| rem.contains(x) ==> !(#[trigger] group_of(stones, p).contains(x)),
    ensures
        group_of(stones.remove_keys(rem), p) == group_of(stones, p),
{
    let st2 = stones.remove_keys(rem);
    lemma_own_group(stones, p);
    assert(!rem.contains(p));
    assert(st2.dom().contains(p) && st2[p] == stones[p]);
    let c = stones[p];
    assert forall|x: (u8, u8)| group_of(st2, p).contains(x) implies group_of(
        stones,
        p,
    ).contains(x) by {
        let path = choose|path: Seq<(u8, u8)>|
            #[trigger] is_path(st2, c, path) && path.len() > 0 && path[0] == p && path.last() == x;
        assert(is_path(stones, c, path)) by {
            assert forall|i: int| 0 <= i < path.len() implies stones.dom().contains(
                #[trigger] path[i],
            ) && stones[path[i]] == c by {
                assert(st2.dom().contains(path[i]));
            }
        }
        assert(connected(stones, c, p, x));
    }
    assert forall|x: (u8, u8)| group_of(stones, p).contains(x) implies group_of(
        st2,
        p,
    ).contains(x) by {
        let path = choose|path: Seq<(u8, u8)>|
            #[trigger] is_path(stones, c, path) && path.len() > 0 && path[0] == p && path.last()
                == x;
        assert forall|i: int| 0 <= i < path.len() implies st2.dom().contains(#[trigger] path[i])
            && st2[path[i]] == c by {
            lemma_path_points_connected(stones, c, path, i);
            assert(group_of(stones, p).contains(path[i]));
            assert(!rem.contains(path[i]));
        }
        assert(is_path(st2, c, path));
        assert(connected(st2, c, p, x));
    }
    assert(group_of(st2, p) =~= group_of(stones, p));
}

/// A group with a liberty keeps it when points outside the group are
/// removed.
pub proof fn lemma_liberty_after_removal(
    m: BoardModel,
    m2: BoardModel,
    rem: Set<(u8, u8)>,
    p: (u8, u8),
)
    requires
        m2.size == m.size,
        m2.stones == m.stones.remove_keys(rem),
        m.stones.dom().contains(p),
        forall|x: (u8, u8)| rem.contains(x) ==> !(#[trigger] group_of(m.stones, p).contains(x)),
        group_has_liberty(m, p),
    ensures
        group_has_liberty(m2, p),
{
    lemma_group_remove_keys(m.stones, rem, p);
    let q = choose|q: (u8, u8)|
        #[trigger] group_of(m.stones, p).contains(q) && has_empty_neighbor(m, q);
    let n = choose|n: (u8, u8)|
        #[trigger] adjacent(q, n) && on_board(m.size, n) && !m.stones.dom().contains(n);
    assert(!m2.stones.dom().contains(n));
    assert(has_empty_neighbor(m2, q));
    assert(group_of(m2.stones, p).contains(q));
}

/// A group without liberties stays dead when points outside it and not
/// adjacent to it are removed.
pub proof fn lemma_dead_after_removal(
    m: BoardModel,
    m2: BoardModel,
    rem: Set<(u8, u8)>,
    p: (u8, u8),
)
    requires
        m2.size == m.size,
        m2.stones == m.stones.remove_keys(rem),
        m.stones.dom().contains(p),
        forall|x: (u8, u8)| rem.contains(x) ==> !(#[trigger] group_of(m.stones, p).contains(x)),
        forall|x: (u8, u8), g: (u8, u8)|
            #![trigger rem.contains(x), group_of(m.stones, p).contains(g)]
            rem.contains(x) && group_of(m.stones, p).contains(g) ==> !adjacent(g, x),
        !group_has_liberty(m, p),
    ensures
        !group_has_liberty(m2, p),
{
    lemma_group_remove_keys(m.stones, rem, p);
    if group_has_liberty(m2, p) {
        let q = choose|q: (u8, u8)|
            #[trigger] group_of(m2.stones, p).contains(q) && has_empty_neighbor(m2, q);
        let n = choose|n: (u8, u8)|
            #[trigger] adjacent(q, n) && on_board(m2.size, n) && !m2.stones.dom().contains(n);
        assert(group_of(m.stones, p).contains(q));
        if m.stones.dom().contains(n) {
            assert(rem.contains(n));
            assert(false);
        } else {
            assert(has_empty_neighbor(m, q));
            assert(false);
        }
    }
}

/// Anything connected to a point of a set closed under same-color adjacency
/// lies in the set.
pub proof fn lemma_closed_path_covers(
    stones: Map<(u8, u8), StoneColor>,
    c: StoneColor,
    members: Seq<(u8, u8)>,
    path: Seq<(u8, u8)>,
)
    requires
        forall|a: (u8, u8), q: (u8, u8)|
            #![trigger members.contains(a), adjacent(a, q)]
            members.contains(a) && adjacent(a, q) && stones.dom().contains(q) && stones[q] == c
                ==> members.contains(q),
        is_path(stones, c, path),
        path.len() > 0,
        members.contains(path[0]),
    ensures
        members.contains(path.last()),
    decreases path.len(),
{
    if path.len() == 1 {
    } else {
        assert(adjacent(path[0], path[1]));
        assert(members.contains(path[1]));
        let rest = path.drop_first();
        assert(is_path(stones, c, rest)) by {
            assert forall|j: int| 0 <= j < rest.len() implies stones.dom().contains(
                #[trigger] rest[j],
            ) && stones[rest[j]] == c by {
                assert(rest[j] == path[j + 1]);
            }
            assert forall|j: int| 0 <= j < rest.len() - 1 implies adjacent(
                #[trigger] rest[j],
                rest[j + 1],
            ) by {
                assert(rest[j] == path[j + 1] && rest[j + 1] == path[j + 2]);
            }
        }
        assert(rest[0] == path[1]);
        lemma_closed_path_covers(stones, c, members, rest);
        assert(rest.last() == path.last());
    }
}

pub proof fn lemma_closed_seq_covers(
    stones: Map<(u8, u8), StoneColor>,
    c: StoneColor,
    members: Seq<(u8, u8)>,
    start: (u8, u8),
    x: (u8, u8),
)
    requires
        forall|a: (u8, u8), q: (u8, u8)|
            #![trigger members.contains(a), adjacent(a, q)]
            members.contains(a) && adjacent(a, q) && stones.dom().contains(q) && stones[q] == c
                ==> members.contains(q),
        members.contains(start),
        connected(stones, c, start, x),
    ensures
        members.contains(x),
{
    let path = choose|path: Seq<(u8, u8)>|
        #[trigger] is_path(stones, c, path) && path.len() > 0 && path[0] == start && path.last()
            == x;
    lemma_closed_path_covers(stones, c, members, path);
}

/// The neighbor sequence holds exactly the on-board orthogonal neighbors.
pub proof fn lemma_neighbors_seq_props(size: (u8, u8), p: (u8, u8))
    requires
        on_board(size, p),
    ensures
        forall|k: int|
            0 <= k < neighbors_seq(size, p).len() ==> on_board(
                size,
                #[trigger] neighbors_seq(size, p)[k],
            ) && adjacent(p, neighbors_seq(size, p)[k]),
        forall|q: (u8, u8)| adjacent(p, q) && on_board(size, q) ==> neighbors_seq(
            size,
            p,
        ).contains(q),
        neighbors_seq(size, p).len() <= 4,
{
    let e = Seq::<(u8, u8)>::empty();
    let a = if p.0 + 1 < size.0 {
        seq![(((p.0 + 1) as u8), p.1)]
    } else {
        e
    };
    let b = if p.0 > 0 {
        seq![(((p.0 - 1) as u8), p.1)]
    } else {
        e
    };
    let c = if p.1 + 1 < size.1 {
        seq![(p.0, ((p.1 + 1) as u8))]
    } else {
        e
    };
    let d = if p.1 > 0 {
        seq![(p.0, ((p.1 - 1) as u8))]
    } else {
        e
    };
    let ns = neighbors_seq(size, p);
    assert(ns == a + b + c + d);
    assert forall|k: int| 0 <= k < ns.len() implies on_board(size, #[trigger] ns[k]) && adjacent(
        p,
        ns[k],
    ) by {
        if k < a.len() {
            assert(ns[k] == a[0]);
        } else if k < a.len() + b.len() {
            assert(ns[k] == b[0]);
        } else if k < a.len() + b.len() + c.len() {
            assert(ns[k] == c[0]);
        } else {
            assert(ns[k] == d[0]);
        }
    }
    assert forall|q: (u8, u8)| adjacent(p, q) && on_board(size, q) implies ns.contains(q) by {
        if p.1 == q.1 && p.0 + 1 == q.0 {
            assert(ns[0] == q);
        } else if p.1 == q.1 && q.0 + 1 == p.0 {
            assert(ns[a.len() as int] == q);
        } else if p.0 == q.0 && p.1 + 1 == q.1 {
            assert(ns[a.len() as int + b.len() as int] == q);
        } else {
            assert(ns[a.len() as int + b.len() as int + c.len() as int] == q);
        }
    }
}

} // verus!
