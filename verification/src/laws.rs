//! The capture rules' general properties, stated over the model's
//! transition functions and proved once for every board.

use vstd::prelude::*;

use crate::model::{
    adjacent, capture_opponents, capture_step, group_has_liberty, group_of,
    has_empty_neighbor, lemma_adjacent_extends_group, lemma_dead_after_removal, lemma_group_eq,
    lemma_group_member, lemma_group_overlap, lemma_group_remove_keys, lemma_liberty_after_removal,
    lemma_neighbors_seq_props, lemma_own_group, model_ok, neighbors_seq, on_board, opposite,
    placed, play_step, BoardModel, StoneColor,
};

verus! {

/// Capture resolution over points whose groups all have liberties changes
/// nothing.
proof fn lemma_capture_opponents_noop(m: BoardModel, ns: Seq<(u8, u8)>, opp: StoneColor)
    requires
        forall|k: int|
            0 <= k < ns.len() && m.stones.dom().contains(#[trigger] ns[k]) && m.stones[ns[k]]
                == opp ==> group_has_liberty(m, ns[k]),
    ensures
        capture_opponents(m, ns, opp) == m,
    decreases ns.len(),
{
    if ns.len() == 0 {
    } else {
        assert(if m.stones.dom().contains(ns[0]) && m.stones[ns[0]] == opp {
            capture_step(m, ns[0]) == m
        } else {
            true
        });
        let rest = ns.drop_first();
        assert forall|k: int|
            0 <= k < rest.len() && m.stones.dom().contains(#[trigger] rest[k]) && m.stones[rest[k]]
                == opp implies group_has_liberty(m, rest[k]) by {
            assert(rest[k] == ns[k + 1]);
        }
        lemma_capture_opponents_noop(m, rest, opp);
    }
}

/// Counter independence: setup placements and clears never move the move
/// counter or the tallies; a played move advances the counter by exactly
/// one.
pub proof fn lemma_counter_independence(m: BoardModel, p: (u8, u8), c: StoneColor)
    ensures
        placed(m, p, c).move_number == m.move_number,
        placed(m, p, c).black_captures == m.black_captures,
        placed(m, p, c).white_captures == m.white_captures,
        crate::model::cleared(m, p).move_number == m.move_number,
        crate::model::cleared(m, p).black_captures == m.black_captures,
        crate::model::cleared(m, p).white_captures == m.white_captures,
        play_step(m, p, c).move_number == m.move_number + 1,
{
}

/// Liberty carries over to a state with stones removed outside the group.
proof fn lemma_liberty_transfer(cur: BoardModel, n: (u8, u8), q: (u8, u8))
    requires
        group_of(cur.stones, n) == group_of(cur.stones, q),
        group_has_liberty(cur, n),
    ensures
        group_has_liberty(cur, q),
{
    let x = choose|x: (u8, u8)|
        #[trigger] group_of(cur.stones, n).contains(x) && has_empty_neighbor(cur, x);
    assert(group_of(cur.stones, q).contains(x));
}

/// Running capture resolution over a sequence of on-board points removes
/// the dead group of `q` once some member of it is visited, removes only
/// opposing stones, and never invents or recolors a stone.
proof fn lemma_fold_removes_group(
    m1: BoardModel,
    cur: BoardModel,
    ns: Seq<(u8, u8)>,
    c: StoneColor,
    q: (u8, u8),
)
    requires
        model_ok(m1),
        cur.size == m1.size,
        m1.stones.dom().contains(q),
        m1.stones[q] == opposite(c),
        cur.stones.submap_of(m1.stones),
        forall|x: (u8, u8)|
            m1.stones.dom().contains(x) && !(#[trigger] cur.stones.dom().contains(x))
                ==> m1.stones[x] == opposite(c),
        (cur.stones.dom().contains(q) && group_of(cur.stones, q) == group_of(m1.stones, q)
            && !group_has_liberty(cur, q)) || (forall|x: (u8, u8)|
            #[trigger] group_of(m1.stones, q).contains(x) ==> !cur.stones.dom().contains(x)),
        cur.stones.dom().contains(q) ==> (exists|k: int|
            0 <= k < ns.len() && group_of(m1.stones, q).contains(#[trigger] ns[k])),
    ensures
        ({
            let res = capture_opponents(cur, ns, opposite(c));
            &&& res.size == m1.size
            &&& res.stones.submap_of(m1.stones)
            &&& (forall|x: (u8, u8)|
                m1.stones.dom().contains(x) && !(#[trigger] res.stones.dom().contains(x))
                    ==> m1.stones[x] == opposite(c))
            &&& (forall|x: (u8, u8)|
                #[trigger] group_of(m1.stones, q).contains(x) ==> !res.stones.dom().contains(x))
        }),
    decreases ns.len(),
{
    let opp = opposite(c);
    let g = group_of(m1.stones, q);
    lemma_own_group(m1.stones, q);
    if ns.len() == 0 {
        if cur.stones.dom().contains(q) {
            assert(false);
        }
    } else {
        let n = ns[0];
        let fires = cur.stones.dom().contains(n) && cur.stones[n] == opp;
        let cur1 = if fires {
            capture_step(cur, n)
        } else {
            cur
        };
        if fires && !group_has_liberty(cur, n) {
            let h = group_of(cur.stones, n);
            assert(cur1.stones == cur.stones.remove_keys(h));
            assert forall|x: (u8, u8)| h.contains(x) implies cur.stones.dom().contains(x)
                && cur.stones[x] == opp by {
                lemma_group_member(cur.stones, n, x);
            }
            assert forall|x: (u8, u8)| #[trigger] cur1.stones.dom().contains(x)
                implies m1.stones.dom().contains(x) && cur1.stones[x] == m1.stones[x] by {
                assert(cur.stones.dom().contains(x));
            }
            assert forall|x: (u8, u8)|
                m1.stones.dom().contains(x) && !(#[trigger] cur1.stones.dom().contains(x))
                implies m1.stones[x] == opp by {
                if cur.stones.dom().contains(x) {
                    assert(h.contains(x));
                }
            }
            if cur.stones.dom().contains(q) && group_of(cur.stones, q) == g
                && !group_has_liberty(cur, q) {
                let gq = group_of(cur.stones, q);
                if exists|x: (u8, u8)| #[trigger] h.contains(x) && gq.contains(x) {
                    let x = choose|x: (u8, u8)| #[trigger] h.contains(x) && gq.contains(x);
                    lemma_group_overlap(cur.stones, n, q, x);
                    assert(h == gq);
                    assert forall|y: (u8, u8)| #[trigger] g.contains(y)
                        implies !cur1.stones.dom().contains(y) by {}
                } else {
                    assert forall|x: (u8, u8)| h.contains(x) implies !(
                    #[trigger] gq.contains(x)) by {}
                    lemma_group_remove_keys(cur.stones, h, q);
                    assert forall|x: (u8, u8), gg: (u8, u8)|
                        #![trigger h.contains(x), gq.contains(gg)]
                        h.contains(x) && gq.contains(gg) implies !adjacent(gg, x) by {
                        if adjacent(gg, x) {
                            lemma_group_member(cur.stones, q, gg);
                            lemma_adjacent_extends_group(cur.stones, q, gg, x);
                        }
                    }
                    lemma_dead_after_removal(cur, cur1, h, q);
                    assert(group_of(cur1.stones, q) == g);
                    assert(cur1.stones.dom().contains(q));
                }
            }
        } else {
            assert(cur1 == cur);
        }
        let rest = ns.drop_first();
        if cur1.stones.dom().contains(q) {
            assert(cur.stones.dom().contains(q));
            assert(group_of(cur.stones, q) == g && !group_has_liberty(cur, q));
            let k = choose|k: int| 0 <= k < ns.len() && g.contains(#[trigger] ns[k]);
            if k == 0 {
                // The visited point lies in the still-intact group, so this
                // very step captured it, and q cannot have survived.
                assert(group_of(cur.stones, q).contains(n));
                lemma_group_member(cur.stones, q, n);
                lemma_own_group(cur.stones, n);
                lemma_group_overlap(cur.stones, n, q, n);
                if group_has_liberty(cur, n) {
                    lemma_liberty_transfer(cur, n, q);
                }
                assert(cur.stones.dom().contains(n) && cur.stones[n] == opp);
                assert(!cur1.stones.dom().contains(q));
                assert(false);
            } else {
                assert(rest[k - 1] == ns[k]);
                assert(exists|kk: int|
                    0 <= kk < rest.len() && group_of(m1.stones, q).contains(#[trigger] rest[kk]));
            }
        }
        lemma_fold_removes_group(m1, cur1, rest, c, q);
        assert(capture_opponents(cur, ns, opp) == capture_opponents(cur1, rest, opp));
    }
}

/// True suicide: a played stone whose group ends with no liberty, while
/// every opposing neighbor group keeps one, is removed together with its
/// whole group, and its own color's tally grows by that group's size.
pub proof fn lemma_true_suicide(m: BoardModel, p: (u8, u8), c: StoneColor)
    requires
        model_ok(m),
        on_board(m.size, p),
        !m.stones.dom().contains(p),
        !group_has_liberty(placed(m, p, c), p),
        forall|q: (u8, u8)|
            #[trigger] adjacent(p, q) && on_board(m.size, q) && placed(
                m,
                p,
                c,
            ).stones.dom().contains(q) && placed(m, p, c).stones[q] == opposite(c)
                ==> group_has_liberty(placed(m, p, c), q),
    ensures
        ({
            let g = group_of(placed(m, p, c).stones, p);
            let r = play_step(m, p, c);
            &&& r.stones == m.stones.remove_keys(g)
            &&& !r.stones.dom().contains(p)
            &&& r.size == m.size
            &&& r.move_number == m.move_number + 1
            &&& (c == StoneColor::Black ==> r.black_captures == m.black_captures + g.len()
                && r.white_captures == m.white_captures)
            &&& (c == StoneColor::White ==> r.white_captures == m.white_captures + g.len()
                && r.black_captures == m.black_captures)
        }),
{
    let m1 = placed(m, p, c);
    let ns = neighbors_seq(m.size, p);
    let opp = opposite(c);
    let g = group_of(m1.stones, p);
    lemma_neighbors_seq_props(m.size, p);
    lemma_capture_opponents_noop(m1, ns, opp);
    let m2 = capture_opponents(m1, ns, opp);
    assert(m2 == m1);
    assert(m1.stones.dom().contains(p) && m1.stones[p] == c);
    let m3 = capture_step(m1, p);
    assert(m3.stones == m1.stones.remove_keys(g));
    lemma_own_group(m1.stones, p);
    assert(g.contains(p));
    assert(!m3.stones.dom().contains(p));
    assert(m3.stones =~= m.stones.remove_keys(g));
    let r = play_step(m, p, c);
    assert(r.stones == m3.stones);
}

/// Self-capture ordering: a played stone whose placement leaves an adjacent
/// opposing group without liberties removes that group and itself survives,
/// because opposing groups are resolved before the played stone's own.
pub proof fn lemma_self_capture_ordering(m: BoardModel, p: (u8, u8), c: StoneColor, q: (u8, u8))
    requires
        model_ok(m),
        on_board(m.size, p),
        !m.stones.dom().contains(p),
        adjacent(p, q),
        placed(m, p, c).stones.dom().contains(q),
        placed(m, p, c).stones[q] == opposite(c),
        !group_has_liberty(placed(m, p, c), q),
    ensures
        play_step(m, p, c).stones.dom().contains(p),
        play_step(m, p, c).stones[p] == c,
        forall|x: (u8, u8)|
            #[trigger] group_of(placed(m, p, c).stones, q).contains(x) ==> !play_step(
                m,
                p,
                c,
            ).stones.dom().contains(x),
{
    let m1 = placed(m, p, c);
    let opp = opposite(c);
    let ns = neighbors_seq(m.size, p);
    let g = group_of(m1.stones, q);
    lemma_neighbors_seq_props(m.size, p);
    assert(model_ok(m1)) by {
        assert forall|x: (u8, u8)| #[trigger] m1.stones.dom().contains(x) implies on_board(
            m1.size,
            x,
        ) by {
            if x != p {
                assert(m.stones.dom().contains(x));
            }
        }
    }
    lemma_own_group(m1.stones, q);
    assert(on_board(m.size, q));
    assert(ns.contains(q));
    let k0 = choose|k: int| 0 <= k < ns.len() && ns[k] == q;
    assert(g.contains(ns[k0]));
    lemma_fold_removes_group(m1, m1, ns, c, q);
    let m2 = capture_opponents(m1, ns, opp);
    assert(c != opp);
    assert(m1.stones.dom().contains(p) && m1.stones[p] == c);
    assert(m2.stones.dom().contains(p)) by {
        if !m2.stones.dom().contains(p) {
            assert(m1.stones[p] == opp);
        }
    }
    assert(m2.stones.submap_of(m1.stones));
    assert(m2.stones[p] == m1.stones[p]);
    assert(m2.stones[p] == c);
    assert(!m2.stones.dom().contains(q));
    lemma_own_group(m2.stones, p);
    assert(has_empty_neighbor(m2, p)) by {
        assert(adjacent(p, q) && on_board(m2.size, q) && !m2.stones.dom().contains(q));
    }
    assert(group_has_liberty(m2, p)) by {
        assert(group_of(m2.stones, p).contains(p) && has_empty_neighbor(m2, p));
    }
    let m3 = capture_step(m2, p);
    assert(m3 == m2);
}

/// One fold step at a member of the dead group captures exactly that group;
/// at an opposing point of another, living, group it changes nothing.
proof fn lemma_fold_capture_exact(
    m1: BoardModel,
    cur: BoardModel,
    ns: Seq<(u8, u8)>,
    c: StoneColor,
    q: (u8, u8),
    removed: bool,
)
    requires
        model_ok(m1),
        m1.stones.dom().contains(q),
        m1.stones[q] == opposite(c),
        !group_has_liberty(m1, q),
        forall|k: int| 0 <= k < ns.len() ==> on_board(m1.size, #[trigger] ns[k]),
        forall|k: int|
            0 <= k < ns.len() && m1.stones.dom().contains(#[trigger] ns[k]) && m1.stones[ns[k]]
                == opposite(c) && !group_of(m1.stones, q).contains(ns[k]) ==> group_has_liberty(
                m1,
                ns[k],
            ),
        removed ==> cur == capture_step(m1, q),
        !removed ==> cur == m1,
        !removed ==> (exists|k: int|
            0 <= k < ns.len() && group_of(m1.stones, q).contains(#[trigger] ns[k])),
    ensures
        capture_opponents(cur, ns, opposite(c)) == capture_step(m1, q),
    decreases ns.len(),
{
    let opp = opposite(c);
    let g = group_of(m1.stones, q);
    lemma_own_group(m1.stones, q);
    if ns.len() == 0 {
        assert(removed);
    } else {
        let n = ns[0];
        let rest = ns.drop_first();
        assert forall|k: int| 0 <= k < rest.len() implies on_board(
            m1.size,
            #[trigger] rest[k],
        ) by {
            assert(rest[k] == ns[k + 1]);
        }
        assert forall|k: int|
            0 <= k < rest.len() && m1.stones.dom().contains(#[trigger] rest[k])
                && m1.stones[rest[k]] == opp && !g.contains(rest[k]) implies group_has_liberty(
            m1,
            rest[k],
        ) by {
            assert(rest[k] == ns[k + 1]);
        }
        if removed {
            let cs = capture_step(m1, q);
            assert(cs.stones == m1.stones.remove_keys(g));
            if cs.stones.dom().contains(n) && cs.stones[n] == opp {
                assert(m1.stones.dom().contains(n) && m1.stones[n] == opp);
                assert(!g.contains(n));
                assert(group_has_liberty(m1, n));
                assert forall|x: (u8, u8)| g.contains(x) implies !(
                #[trigger] group_of(m1.stones, n).contains(x)) by {
                    if group_of(m1.stones, n).contains(x) {
                        lemma_group_overlap(m1.stones, n, q, x);
                        lemma_own_group(m1.stones, n);
                    }
                }
                lemma_liberty_after_removal(m1, cs, g, n);
                assert(capture_step(cs, n) == cs);
            }
            lemma_fold_capture_exact(m1, cur, rest, c, q, true);
        } else {
            if g.contains(n) {
                lemma_group_member(m1.stones, q, n);
                lemma_group_eq(m1.stones, q, n);
                assert(group_of(m1.stones, n) == g);
                if group_has_liberty(m1, n) {
                    lemma_liberty_transfer(m1, n, q);
                }
                assert(!group_has_liberty(m1, n));
                let cs_n = capture_step(m1, n);
                assert(cs_n =~= capture_step(m1, q));
                lemma_fold_capture_exact(m1, capture_step(m1, q), rest, c, q, true);
            } else {
                if m1.stones.dom().contains(n) && m1.stones[n] == opp {
                    assert(group_has_liberty(m1, n));
                    assert(capture_step(m1, n) == m1);
                }
                let k = choose|k: int| 0 <= k < ns.len() && g.contains(#[trigger] ns[k]);
                assert(k != 0);
                assert(rest[k - 1] == ns[k]);
                assert(exists|kk: int| 0 <= kk < rest.len() && g.contains(#[trigger] rest[kk]));
                lemma_fold_capture_exact(m1, cur, rest, c, q, false);
            }
        }
    }
}

/// Capture symmetry: when the played stone removes the last liberty of an
/// adjacent opposing group, and every other opposing neighbor group keeps a
/// liberty, exactly that group leaves the board, the played stone survives,
/// and the removed color's tally grows by exactly the group's stone count.
pub proof fn lemma_capture_symmetry(m: BoardModel, p: (u8, u8), c: StoneColor, q: (u8, u8))
    requires
        model_ok(m),
        on_board(m.size, p),
        !m.stones.dom().contains(p),
        adjacent(p, q),
        placed(m, p, c).stones.dom().contains(q),
        placed(m, p, c).stones[q] == opposite(c),
        !group_has_liberty(placed(m, p, c), q),
        forall|n: (u8, u8)|
            #[trigger] adjacent(p, n) && on_board(m.size, n) && placed(
                m,
                p,
                c,
            ).stones.dom().contains(n) && placed(m, p, c).stones[n] == opposite(c) && !group_of(
                placed(m, p, c).stones,
                q,
            ).contains(n) ==> group_has_liberty(placed(m, p, c), n),
    ensures
        ({
            let g = group_of(placed(m, p, c).stones, q);
            let r = play_step(m, p, c);
            &&& r.stones == placed(m, p, c).stones.remove_keys(g)
            &&& r.stones.dom().contains(p)
            &&& (forall|x: (u8, u8)| #[trigger] g.contains(x) ==> !r.stones.dom().contains(x))
            &&& r.size == m.size
            &&& r.move_number == m.move_number + 1
            &&& (opposite(c) == StoneColor::Black ==> r.black_captures == m.black_captures
                + g.len() && r.white_captures == m.white_captures)
            &&& (opposite(c) == StoneColor::White ==> r.white_captures == m.white_captures
                + g.len() && r.black_captures == m.black_captures)
        }),
{
    let m1 = placed(m, p, c);
    let opp = opposite(c);
    let ns = neighbors_seq(m.size, p);
    let g = group_of(m1.stones, q);
    lemma_neighbors_seq_props(m.size, p);
    assert(model_ok(m1)) by {
        assert forall|x: (u8, u8)| #[trigger] m1.stones.dom().contains(x) implies on_board(
            m1.size,
            x,
        ) by {
            if x != p {
                assert(m.stones.dom().contains(x));
            }
        }
    }
    lemma_own_group(m1.stones, q);
    assert(on_board(m.size, q));
    assert(ns.contains(q));
    let k0 = choose|k: int| 0 <= k < ns.len() && ns[k] == q;
    assert(g.contains(ns[k0]));
    assert forall|k: int|
        0 <= k < ns.len() && m1.stones.dom().contains(#[trigger] ns[k]) && m1.stones[ns[k]] == opp
            && !g.contains(ns[k]) implies group_has_liberty(m1, ns[k]) by {
        assert(adjacent(p, ns[k]) && on_board(m.size, ns[k]));
    }
    lemma_fold_capture_exact(m1, m1, ns, c, q, false);
    let m2 = capture_opponents(m1, ns, opp);
    assert(m2 == capture_step(m1, q));
    assert(m2.stones == m1.stones.remove_keys(g));
    assert(c != opp);
    assert forall|x: (u8, u8)| g.contains(x) implies m1.stones.dom().contains(x)
        && m1.stones[x] == opp by {
        lemma_group_member(m1.stones, q, x);
    }
    assert(!g.contains(p));
    assert(m1.stones.dom().contains(p) && m1.stones[p] == c);
    assert(m2.stones.dom().contains(p) && m2.stones[p] == c);
    assert(g.contains(q));
    assert(!m2.stones.dom().contains(q));
    lemma_own_group(m2.stones, p);
    assert(has_empty_neighbor(m2, p)) by {
        assert(adjacent(p, q) && on_board(m2.size, q) && !m2.stones.dom().contains(q));
    }
    assert(group_has_liberty(m2, p)) by {
        assert(group_of(m2.stones, p).contains(p) && has_empty_neighbor(m2, p));
    }
    let m3 = capture_step(m2, p);
    assert(m3 == m2);
}

} // verus!
