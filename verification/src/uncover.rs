//! The uncover protocol: external triggers and cascade steps turn covered
//! tiles into per-tile reveal outcomes.
//!
//! Each tile moves `Covered -> PendingUncover -> Uncovered`, never
//! backwards. A scheduling step ([`uncover_tiles`]) processes every tile
//! pending at its start exactly once: the tile's entry is removed from the
//! covered mapping (idempotently, so duplicate pending marks collapse),
//! its content is reported, and an empty reveal schedules the tile's
//! still-covered neighbors for the next step. Within one step, removals
//! made by earlier entries are visible to later ones; duplicates are
//! harmless by idempotence. [`resolve_pending`] runs steps until no tile
//! is pending, resolving a whole cascade synchronously.

use vstd::prelude::*;
use crate::board::Board;
use crate::components::{Bomb, BombNeighbor, Coordinates};
use crate::tile::Tile;
use crate::tile_map::{flat_index, lemma_flat_index_bound, lemma_flat_index_injective,
    safe_neighbors};

verus! {

/// An external trigger naming a coordinate to uncover: a click already
/// resolved to a grid coordinate.
#[derive(Debug, Clone, Copy, PartialEq, Eq, Structural)]
pub struct TileTriggerEvent(pub Coordinates);

/// One per-tile reveal: the coordinate, the removed cover's handle, and
/// the tile's markers. A mine reveal carries `bomb`, a counted reveal
/// carries `bomb_neighbor`, an empty reveal carries neither.
#[derive(Debug, Clone, Copy, PartialEq, Eq, Structural)]
pub struct RevealOutcome {
    pub coordinates: Coordinates,
    pub handle: u64,
    pub bomb: Option<Bomb>,
    pub bomb_neighbor: Option<BombNeighbor>,
}

/// The outcome a reveal of `c` on board `b` reports.
pub open spec fn outcome_for(b: Board, c: Coordinates, handle: u64) -> RevealOutcome {
    RevealOutcome {
        coordinates: c,
        handle,
        bomb: if b.tile_map.tile_at(c) is Bomb {
            Some(Bomb)
        } else {
            Option::<Bomb>::None
        },
        bomb_neighbor: match b.tile_map.tile_at(c) {
            Tile::BombNeighbor(n) => Some(BombNeighbor { count: n }),
            _ => Option::<BombNeighbor>::None,
        },
    }
}

/// Whether an outcome reports an empty reveal, the cascade source.
pub open spec fn is_empty_reveal(o: RevealOutcome) -> bool {
    o.bomb is None && o.bomb_neighbor is None
}

/// The coordinates of the listed triggers that are currently covered, in
/// order: exactly the tiles a trigger drain marks pending.
pub open spec fn covered_triggers(b: Board, evs: Seq<TileTriggerEvent>) -> Seq<Coordinates>
    decreases evs.len(),
{
    if evs.len() == 0 {
        Seq::empty()
    } else {
        let rest = covered_triggers(b, evs.drop_last());
        if b.is_covered(evs.last().0) {
            rest.push(evs.last().0)
        } else {
            rest
        }
    }
}

/// No covered tile is stranded beside a revealed empty area: every
/// neighbor of an uncovered `Empty` tile is either uncovered as well or
/// scheduled in `pending`.
pub open spec fn settled_except(b: Board, pending: Seq<Coordinates>) -> bool {
    forall|c: Coordinates, k: int|
        b.valid_coord(c) && !b.is_covered(c) && b.tile_map.tile_at(c) is Empty && 0 <= k
            < safe_neighbors(b.tile_map.spec_width(), b.tile_map.spec_height(), c).len()
            && b.is_covered(
            #[trigger] safe_neighbors(b.tile_map.spec_width(), b.tile_map.spec_height(), c)[k],
        ) ==> pending.contains(
            safe_neighbors(b.tile_map.spec_width(), b.tile_map.spec_height(), c)[k],
        )
}

/// With nothing pending: every neighbor of an uncovered `Empty` tile is
/// uncovered — the state a fully resolved cascade leaves behind.
pub open spec fn settled(b: Board) -> bool {
    settled_except(b, Seq::<Coordinates>::empty())
}

/// Drain external trigger events into pending marks: each trigger whose
/// coordinate is currently covered is appended to `pending`, all others
/// are ignored as no-ops.
pub fn trigger_event_handler(
    board: &Board,
    events: &Vec<TileTriggerEvent>,
    pending: &mut Vec<Coordinates>,
)
    requires
        board.wf(),
    ensures
        final(pending)@ == old(pending)@ + covered_triggers(*board, events@),
{
    let ghost p0 = pending@;
    let mut i: usize = 0;
    proof {
        assert(events@.subrange(0, 0) =~= Seq::<TileTriggerEvent>::empty());
        assert(pending@ =~= p0 + covered_triggers(*board, events@.subrange(0, 0)));
    }
    while i < events.len()
        invariant
            board.wf(),
            i <= events@.len(),
            pending@ == p0 + covered_triggers(*board, events@.subrange(0, i as int)),
        decreases events@.len() - i,
    {
        let ev = events[i];
        proof {
            assert(events@.subrange(0, i + 1).drop_last() =~= events@.subrange(0, i as int));
            assert(events@.subrange(0, i + 1).last() == events@[i as int]);
        }
        if board.tile_to_uncover(&ev.0).is_some() {
            pending.push(ev.0);
        }
        i = i + 1;
    }
    proof {
        assert(events@.subrange(0, events@.len() as int) =~= events@);
    }
}

/// Whether some reveal in `outcomes` is of coordinate `c`.
pub open spec fn has_reveal(outcomes: Seq<RevealOutcome>, c: Coordinates) -> bool {
    exists|t: int| 0 <= t < outcomes.len() && (#[trigger] outcomes[t]).coordinates == c
}

/// Whether `d` is a legitimate next-step mark on the board the step
/// started from: a still-covered neighbor of some empty reveal.
pub open spec fn next_mark_ok(b0: Board, outcomes: Seq<RevealOutcome>, d: Coordinates) -> bool {
    exists|t: int|
        0 <= t < outcomes.len() && is_empty_reveal(#[trigger] outcomes[t]) && safe_neighbors(
            b0.tile_map.spec_width(),
            b0.tile_map.spec_height(),
            outcomes[t].coordinates,
        ).contains(d) && b0.is_covered(d)
}

/// One scheduling step: process every tile pending at the start of the
/// step exactly once. A still-covered pending tile is uncovered and its
/// reveal emitted; an already-uncovered one is a no-op. An empty reveal
/// schedules the tile's still-covered neighbors (as seen at that moment —
/// removals made by earlier entries of the same step are visible) for the
/// next step, which replaces `pending`.
pub fn uncover_tiles(board: &mut Board, pending: &mut Vec<Coordinates>) -> (outcomes: Vec<
    RevealOutcome,
>)
    requires
        old(board).wf(),
    ensures
        final(board).wf(),
        final(board).tile_map == old(board).tile_map,
        final(board).bounds == old(board).bounds,
        final(board).tile_size == old(board).tile_size,
        // The covered mapping only shrinks,
        forall|c: Coordinates| #[trigger] final(board).is_covered(c) ==> old(board).is_covered(c),
        // every pending tile ends uncovered,
        forall|k: int|
            0 <= k < old(pending)@.len() ==> !final(board).is_covered(#[trigger] old(pending)@[k]),
        // and nothing else changes.
        forall|c: Coordinates|
            old(board).valid_coord(c) && !old(pending)@.contains(c) ==> final(board).covered_at(c)
                == old(board).covered_at(c),
        forall|c: Coordinates|
            #[trigger] final(board).is_covered(c) ==> final(board).covered_at(c) == old(
                board,
            ).covered_at(c),
        // One reveal for each pending tile that was covered, with that
        // tile's content and handle; no tile is revealed twice.
        forall|t: int|
            0 <= t < outcomes@.len() ==> {
                let o = #[trigger] outcomes@[t];
                &&& old(pending)@.contains(o.coordinates)
                &&& old(board).is_covered(o.coordinates)
                &&& !final(board).is_covered(o.coordinates)
                &&& o == outcome_for(
                    *old(board),
                    o.coordinates,
                    old(board).covered_at(o.coordinates)->Some_0,
                )
            },
        forall|t1: int, t2: int|
            0 <= t1 < t2 < outcomes@.len() ==> (#[trigger] outcomes@[t1]).coordinates != (
            #[trigger] outcomes@[t2]).coordinates,
        forall|k: int|
            0 <= k < old(pending)@.len() && old(board).is_covered(#[trigger] old(pending)@[k])
                ==> has_reveal(outcomes@, old(pending)@[k]),
        // The next pending marks come only from empty reveals' covered
        // neighbors, and every still-covered neighbor of an empty reveal
        // is scheduled.
        forall|m: int|
            0 <= m < final(pending)@.len() ==> next_mark_ok(
                *old(board),
                outcomes@,
                #[trigger] final(pending)@[m],
            ),
        forall|t: int, k: int|
            0 <= t < outcomes@.len() && is_empty_reveal(#[trigger] outcomes@[t]) && 0 <= k
                < safe_neighbors(
                old(board).tile_map.spec_width(),
                old(board).tile_map.spec_height(),
                outcomes@[t].coordinates,
            ).len() && final(board).is_covered(
                #[trigger] safe_neighbors(
                    old(board).tile_map.spec_width(),
                    old(board).tile_map.spec_height(),
                    outcomes@[t].coordinates,
                )[k],
            ) ==> final(pending)@.contains(
                safe_neighbors(
                    old(board).tile_map.spec_width(),
                    old(board).tile_map.spec_height(),
                    outcomes@[t].coordinates,
                )[k],
            ),
        // Step accounting: one uncover per reveal, at most eight new
        // marks per reveal.
        final(board).spec_covered_count() == old(board).spec_covered_count() - outcomes@.len(),
        final(pending)@.len() <= 8 * outcomes@.len(),
        settled_except(*old(board), old(pending)@) ==> settled_except(
            *final(board),
            final(pending)@,
        ),
{
    let ghost b0 = *old(board);
    let ghost p0 = pending@;
    let ghost w = b0.tile_map.spec_width();
    let ghost h = b0.tile_map.spec_height();
    let mut next: Vec<Coordinates> = Vec::new();
    let mut outcomes: Vec<RevealOutcome> = Vec::new();
    let n_pend = pending.len();
    let mut i: usize = 0;
    while i < n_pend
        invariant
            board.wf(),
            board.tile_map == b0.tile_map,
            board.bounds == b0.bounds,
            board.tile_size == b0.tile_size,
            b0.wf(),
            w == b0.tile_map.spec_width(),
            h == b0.tile_map.spec_height(),
            pending@ == p0,
            n_pend == p0.len(),
            i <= n_pend,
            // shrink, processed gone, untouched unchanged, values stable
            forall|c: Coordinates| #[trigger] board.is_covered(c) ==> b0.is_covered(c),
            forall|k: int| 0 <= k < i ==> !board.is_covered(#[trigger] p0[k]),
            forall|c: Coordinates|
                b0.valid_coord(c) && !p0.subrange(0, i as int).contains(c) ==> board.covered_at(c)
                    == b0.covered_at(c),
            forall|c: Coordinates|
                #[trigger] board.is_covered(c) ==> board.covered_at(c) == b0.covered_at(c),
            // outcomes so far
            forall|t: int|
                0 <= t < outcomes@.len() ==> {
                    let o = #[trigger] outcomes@[t];
                    &&& p0.contains(o.coordinates)
                    &&& b0.is_covered(o.coordinates)
                    &&& !board.is_covered(o.coordinates)
                    &&& o == outcome_for(b0, o.coordinates, b0.covered_at(o.coordinates)->Some_0)
                },
            forall|t1: int, t2: int|
                0 <= t1 < t2 < outcomes@.len() ==> (#[trigger] outcomes@[t1]).coordinates != (
                #[trigger] outcomes@[t2]).coordinates,
            forall|k: int|
                0 <= k < i && b0.is_covered(#[trigger] p0[k]) ==> has_reveal(outcomes@, p0[k]),
            // next marks so far
            forall|m: int|
                0 <= m < next@.len() ==> next_mark_ok(b0, outcomes@, #[trigger] next@[m]),
            forall|t: int, k: int|
                0 <= t < outcomes@.len() && is_empty_reveal(#[trigger] outcomes@[t]) && 0 <= k
                    < safe_neighbors(w, h, outcomes@[t].coordinates).len() && board.is_covered(
                    #[trigger] safe_neighbors(w, h, outcomes@[t].coordinates)[k],
                ) ==> next@.contains(safe_neighbors(w, h, outcomes@[t].coordinates)[k]),
            board.spec_covered_count() == b0.spec_covered_count() - outcomes@.len(),
            next@.len() <= 8 * outcomes@.len(),
        decreases n_pend - i,
    {
        let c = pending[i];
        let ghost board_pre = *board;
        let ghost next_pre = next@;
        let ghost outcomes_pre = outcomes@;
        let ghost mut adj_seq: Seq<(Coordinates, u64)> = Seq::empty();
        let ghost mut did_cascade: bool = false;
        let ghost mut new_outcome: RevealOutcome = RevealOutcome {
            coordinates: c,
            handle: 0,
            bomb: None,
            bomb_neighbor: None,
        };
        let r = board.try_uncover_tile(&c);
        let ghost did_reveal = board_pre.is_covered(c);
        match r {
            Some(handle) => {
                let tile = board.tile_map.tile(c);
                let bomb = tile.bomb_marker();
                let neigh = tile.neighbor_marker();
                let o = RevealOutcome { coordinates: c, handle, bomb, bomb_neighbor: neigh };
                outcomes.push(o);
                proof {
                    new_outcome = o;
                }
                if bomb.is_none() && neigh.is_none() {
                    let adj = board.adjacent_covered_tiles(c);
                    proof {
                        adj_seq = adj@;
                        did_cascade = true;
                    }
                    let mut j: usize = 0;
                    while j < adj.len()
                        invariant
                            adj@ == adj_seq,
                            j <= adj_seq.len(),
                            next@.len() == next_pre.len() + j,
                            forall|m: int| 0 <= m < next_pre.len() ==> next@[m] == next_pre[m],
                            forall|jj: int|
                                0 <= jj < j ==> next@[next_pre.len() + jj] == (
                                #[trigger] adj_seq[jj]).0,
                        decreases adj_seq.len() - j,
                    {
                        next.push(adj[j].0);
                        j = j + 1;
                    }
                }
            }
            None => {
            }
        }
        proof {
            let fi_c = flat_index(w, c);
            if did_reveal {
                lemma_flat_index_bound(w, h, c);
            }
            // one-step effects: the mapping shrank by at most the one
            // entry at `c`, everything else kept its value
            assert forall|d: Coordinates| #[trigger] board.is_covered(d) implies board_pre
                .is_covered(d) && board.covered_at(d) == board_pre.covered_at(d) by {
                lemma_flat_index_bound(w, h, d);
            }
            assert(!board.is_covered(c));
            // shrink, gone, unchanged, stable
            assert forall|d: Coordinates| #[trigger] board.is_covered(d) implies b0.is_covered(
                d,
            ) by {
                assert(board_pre.is_covered(d));
            }
            assert forall|d: Coordinates| #[trigger] board.is_covered(d) implies board.covered_at(
                d,
            ) == b0.covered_at(d) by {
                assert(board_pre.is_covered(d));
            }
            assert forall|k: int| 0 <= k < i + 1 implies !board.is_covered(#[trigger] p0[k]) by {
                if k < i {
                    if board.is_covered(p0[k]) {
                        assert(board_pre.is_covered(p0[k]));
                    }
                } else {
                    assert(p0[k] == c);
                }
            }
            assert forall|d: Coordinates|
                b0.valid_coord(d) && !p0.subrange(0, i + 1).contains(d) implies board.covered_at(
                d,
            ) == b0.covered_at(d) by {
                assert(!p0.subrange(0, i as int).contains(d)) by {
                    if p0.subrange(0, i as int).contains(d) {
                        let k = choose|k: int| 0 <= k < i && p0.subrange(0, i as int)[k] == d;
                        assert(p0.subrange(0, i + 1)[k] == d);
                    }
                }
                assert(p0.subrange(0, i + 1)[i as int] == p0[i as int]);
                assert(d != c);
                lemma_flat_index_bound(w, h, d);
                if did_reveal {
                    if flat_index(w, d) == fi_c {
                        lemma_flat_index_injective(w, h, d, c);
                    }
                }
            }
            // outcome bookkeeping
            if did_reveal {
                assert(outcomes@ == outcomes_pre.push(new_outcome));
                assert(p0.contains(c)) by {
                    assert(p0[i as int] == c);
                }
                assert(board_pre.covered_at(c) == b0.covered_at(c));
                assert(new_outcome == outcome_for(b0, c, b0.covered_at(c)->Some_0));
            } else {
                assert(outcomes@ == outcomes_pre);
                assert(next@ == next_pre);
            }
            assert forall|t: int| 0 <= t < outcomes@.len() implies {
                let o2 = #[trigger] outcomes@[t];
                &&& p0.contains(o2.coordinates)
                &&& b0.is_covered(o2.coordinates)
                &&& !board.is_covered(o2.coordinates)
                &&& o2 == outcome_for(b0, o2.coordinates, b0.covered_at(o2.coordinates)->Some_0)
            } by {
                if t < outcomes_pre.len() {
                    assert(outcomes@[t] == outcomes_pre[t]);
                    if board.is_covered(outcomes_pre[t].coordinates) {
                        assert(board_pre.is_covered(outcomes_pre[t].coordinates));
                    }
                } else {
                    assert(outcomes@[t] == new_outcome);
                }
            }
            assert forall|t1: int, t2: int|
                0 <= t1 < t2 < outcomes@.len() implies (#[trigger] outcomes@[t1]).coordinates != (
            #[trigger] outcomes@[t2]).coordinates by {
                if t2 < outcomes_pre.len() {
                    assert(outcomes@[t1] == outcomes_pre[t1]);
                    assert(outcomes@[t2] == outcomes_pre[t2]);
                } else {
                    // the new reveal's tile was covered just before this
                    // entry ran; every earlier reveal's tile was not
                    assert(outcomes@[t1] == outcomes_pre[t1]);
                    assert(outcomes@[t2] == new_outcome);
                    assert(!board_pre.is_covered(outcomes_pre[t1].coordinates));
                }
            }
            assert forall|k: int|
                0 <= k < i + 1 && b0.is_covered(#[trigger] p0[k]) implies has_reveal(
                outcomes@,
                p0[k],
            ) by {
                if k < i {
                    let t = choose|t: int|
                        0 <= t < outcomes_pre.len() && (#[trigger] outcomes_pre[t]).coordinates
                            == p0[k];
                    assert(outcomes@[t] == outcomes_pre[t]);
                } else {
                    assert(p0[k] == c);
                    if did_reveal {
                        assert(outcomes@[outcomes@.len() - 1] == new_outcome);
                    } else {
                        // `c` was covered initially but no longer is, so
                        // an earlier entry of this step uncovered it and
                        // emitted its reveal
                        assert(p0.subrange(0, i as int).contains(c)) by {
                            if !p0.subrange(0, i as int).contains(c) {
                                assert(board_pre.covered_at(c) == b0.covered_at(c));
                            }
                        }
                        let kk = choose|kk: int|
                            0 <= kk < i && p0.subrange(0, i as int)[kk] == c;
                        assert(p0[kk] == c);
                        assert(b0.is_covered(p0[kk]));
                        let t = choose|t: int|
                            0 <= t < outcomes_pre.len() && (#[trigger] outcomes_pre[t]).coordinates
                                == p0[kk];
                        assert(outcomes@[t] == outcomes_pre[t]);
                    }
                }
            }
            // next-mark bookkeeping
            if did_cascade {
                assert(next@.len() == next_pre.len() + adj_seq.len());
            }
            assert forall|m: int| 0 <= m < next@.len() implies next_mark_ok(
                b0,
                outcomes@,
                #[trigger] next@[m],
            ) by {
                if m < next_pre.len() {
                    assert(next@[m] == next_pre[m]);
                    let t = choose|t: int|
                        0 <= t < outcomes_pre.len() && is_empty_reveal(#[trigger] outcomes_pre[t])
                            && safe_neighbors(w, h, outcomes_pre[t].coordinates).contains(
                            next_pre[m],
                        ) && b0.is_covered(next_pre[m]);
                    assert(outcomes@[t] == outcomes_pre[t]);
                } else {
                    // pushed by this entry's cascade
                    let jj = m - next_pre.len();
                    assert(next@[m] == adj_seq[jj].0);
                    assert(safe_neighbors(w, h, c).contains(adj_seq[jj].0));
                    assert(board.is_covered(adj_seq[jj].0));
                    assert(b0.is_covered(adj_seq[jj].0));
                    let t = outcomes@.len() - 1;
                    assert(outcomes@[t] == new_outcome);
                    assert(is_empty_reveal(new_outcome));
                }
            }
            assert forall|t: int, k: int|
                0 <= t < outcomes@.len() && is_empty_reveal(#[trigger] outcomes@[t]) && 0 <= k
                    < safe_neighbors(w, h, outcomes@[t].coordinates).len() && board.is_covered(
                    #[trigger] safe_neighbors(w, h, outcomes@[t].coordinates)[k],
                ) implies next@.contains(safe_neighbors(w, h, outcomes@[t].coordinates)[k]) by {
                let d = safe_neighbors(w, h, outcomes@[t].coordinates)[k];
                if t < outcomes_pre.len() {
                    assert(outcomes@[t] == outcomes_pre[t]);
                    assert(board_pre.is_covered(d));
                    assert(next_pre.contains(d));
                    let m = choose|m: int| 0 <= m < next_pre.len() && next_pre[m] == d;
                    assert(next@[m] == next_pre[m]);
                } else {
                    // the new reveal: its covered neighbors were all
                    // returned by the adjacency lookup and pushed
                    assert(outcomes@[t] == new_outcome);
                    assert(did_cascade);
                    let tt = choose|tt: int|
                        0 <= tt < adj_seq.len() && (#[trigger] adj_seq[tt]).0 == safe_neighbors(
                            w,
                            h,
                            c,
                        )[k];
                    assert(next@[next_pre.len() + tt] == d);
                }
            }
        }
        i = i + 1;
    }
    proof {
        assert(p0.subrange(0, p0.len() as int) =~= p0);
    }
    *pending = next;
    proof {
        // the settled property transfers from (initial state, initial
        // pending) to (final state, next pending)
        if settled_except(b0, p0) {
            assert forall|c: Coordinates, k: int|
                board.valid_coord(c) && !board.is_covered(c) && board.tile_map.tile_at(c) is Empty
                    && 0 <= k < safe_neighbors(w, h, c).len() && board.is_covered(
                    #[trigger] safe_neighbors(w, h, c)[k],
                ) implies pending@.contains(safe_neighbors(w, h, c)[k]) by {
                let d = safe_neighbors(w, h, c)[k];
                assert(b0.is_covered(d));
                if b0.is_covered(c) {
                    // `c` was uncovered during this step, so it has an
                    // (empty) reveal, and the cascade scheduled `d`
                    assert(p0.contains(c)) by {
                        if !p0.contains(c) {
                            assert(board.covered_at(c) == b0.covered_at(c));
                        }
                    }
                    let kk = choose|kk: int| 0 <= kk < p0.len() && p0[kk] == c;
                    assert(b0.is_covered(p0[kk]));
                    assert(has_reveal(outcomes@, c));
                    let t = choose|t: int|
                        0 <= t < outcomes@.len() && (#[trigger] outcomes@[t]).coordinates == c;
                    assert(is_empty_reveal(outcomes@[t]));
                } else {
                    // `c` was already an uncovered empty tile, so `d` was
                    // pending at the start of this step and is now gone
                    assert(p0.contains(d));
                    let kk = choose|kk: int| 0 <= kk < p0.len() && p0[kk] == d;
                    assert(!board.is_covered(p0[kk]));
                }
            }
        }
    }
    outcomes
}

/// Resolve every pending mark to completion: run scheduling steps until
/// no tile is pending. A cascade triggered on an `Empty` tile floods
/// outward to the surrounding mine-count fringe. The covered mapping only
/// shrinks, no tile is revealed twice, and the run terminates: each step
/// strictly decreases `9 * covered + pending`.
pub fn resolve_pending(board: &mut Board, pending: &mut Vec<Coordinates>) -> (outcomes: Vec<
    RevealOutcome,
>)
    requires
        old(board).wf(),
    ensures
        final(board).wf(),
        final(board).tile_map == old(board).tile_map,
        final(board).bounds == old(board).bounds,
        final(board).tile_size == old(board).tile_size,
        final(pending)@.len() == 0,
        forall|c: Coordinates| #[trigger] final(board).is_covered(c) ==> old(board).is_covered(c),
        forall|c: Coordinates|
            #[trigger] final(board).is_covered(c) ==> final(board).covered_at(c) == old(
                board,
            ).covered_at(c),
        // every initially pending tile ends uncovered, and every covered
        // one among them gets its reveal
        forall|k: int|
            0 <= k < old(pending)@.len() ==> !final(board).is_covered(#[trigger] old(pending)@[k]),
        forall|k: int|
            0 <= k < old(pending)@.len() && old(board).is_covered(#[trigger] old(pending)@[k])
                ==> has_reveal(outcomes@, old(pending)@[k]),
        forall|t: int|
            0 <= t < outcomes@.len() ==> {
                let o = #[trigger] outcomes@[t];
                &&& old(board).is_covered(o.coordinates)
                &&& !final(board).is_covered(o.coordinates)
                &&& o == outcome_for(
                    *old(board),
                    o.coordinates,
                    old(board).covered_at(o.coordinates)->Some_0,
                )
            },
        forall|t1: int, t2: int|
            0 <= t1 < t2 < outcomes@.len() ==> (#[trigger] outcomes@[t1]).coordinates != (
            #[trigger] outcomes@[t2]).coordinates,
        final(board).spec_covered_count() == old(board).spec_covered_count() - outcomes@.len(),
        settled_except(*old(board), old(pending)@) ==> settled(*final(board)),
{
    let ghost b0 = *old(board);
    let ghost p_init = pending@;
    let ghost initially_settled = settled_except(b0, p_init);
    let mut outcomes: Vec<RevealOutcome> = Vec::new();
    proof {
        crate::board::lemma_count_covered_nonneg(board.covered(), board.covered().len() as int);
        assert forall|k: int| 0 <= k < p_init.len() implies pending@.contains(
            #[trigger] p_init[k],
        ) by {
            assert(pending@[k] == p_init[k]);
        }
    }
    while pending.len() > 0
        invariant
            board.wf(),
            board.tile_map == b0.tile_map,
            board.bounds == b0.bounds,
            board.tile_size == b0.tile_size,
            b0.wf(),
            0 <= board.spec_covered_count(),
            forall|c: Coordinates| #[trigger] board.is_covered(c) ==> b0.is_covered(c),
            forall|c: Coordinates|
                #[trigger] board.is_covered(c) ==> board.covered_at(c) == b0.covered_at(c),
            forall|t: int|
                0 <= t < outcomes@.len() ==> {
                    let o = #[trigger] outcomes@[t];
                    &&& b0.is_covered(o.coordinates)
                    &&& !board.is_covered(o.coordinates)
                    &&& o == outcome_for(b0, o.coordinates, b0.covered_at(o.coordinates)->Some_0)
                },
            forall|t1: int, t2: int|
                0 <= t1 < t2 < outcomes@.len() ==> (#[trigger] outcomes@[t1]).coordinates != (
                #[trigger] outcomes@[t2]).coordinates,
            board.spec_covered_count() == b0.spec_covered_count() - outcomes@.len(),
            initially_settled ==> settled_except(*board, pending@),
            forall|k: int|
                0 <= k < p_init.len() ==> pending@.contains(#[trigger] p_init[k])
                    || !board.is_covered(p_init[k]),
            forall|k: int|
                0 <= k < p_init.len() && b0.is_covered(#[trigger] p_init[k]) ==> has_reveal(
                    outcomes@,
                    p_init[k],
                ) || (pending@.contains(p_init[k]) && board.is_covered(p_init[k])),
        decreases 9 * board.spec_covered_count() + pending@.len(),
    {
        let ghost board_pre = *board;
        let ghost pend_pre = pending@;
        let ghost outcomes_sofar = outcomes@;
        let mut step = uncover_tiles(board, pending);
        let ghost step_seq = step@;
        outcomes.append(&mut step);
        proof {
            assert(outcomes@ == outcomes_sofar + step_seq);
            assert forall|t: int| 0 <= t < outcomes@.len() implies {
                let o = #[trigger] outcomes@[t];
                &&& b0.is_covered(o.coordinates)
                &&& !board.is_covered(o.coordinates)
                &&& o == outcome_for(b0, o.coordinates, b0.covered_at(o.coordinates)->Some_0)
            } by {
                if t < outcomes_sofar.len() {
                    assert(outcomes@[t] == outcomes_sofar[t]);
                } else {
                    assert(outcomes@[t] == step_seq[t - outcomes_sofar.len()]);
                    let o = step_seq[t - outcomes_sofar.len()];
                    assert(board_pre.is_covered(o.coordinates));
                    assert(board_pre.covered_at(o.coordinates) == b0.covered_at(o.coordinates));
                    assert(o == outcome_for(
                        board_pre,
                        o.coordinates,
                        board_pre.covered_at(o.coordinates)->Some_0,
                    ));
                }
            }
            assert forall|t1: int, t2: int|
                0 <= t1 < t2 < outcomes@.len() implies (#[trigger] outcomes@[t1]).coordinates != (
            #[trigger] outcomes@[t2]).coordinates by {
                if t2 < outcomes_sofar.len() {
                    assert(outcomes@[t1] == outcomes_sofar[t1]);
                    assert(outcomes@[t2] == outcomes_sofar[t2]);
                } else if t1 >= outcomes_sofar.len() {
                    assert(outcomes@[t1] == step_seq[t1 - outcomes_sofar.len()]);
                    assert(outcomes@[t2] == step_seq[t2 - outcomes_sofar.len()]);
                } else {
                    // an earlier reveal's tile was already uncovered when
                    // this step began; a new reveal's tile was covered
                    assert(outcomes@[t1] == outcomes_sofar[t1]);
                    assert(outcomes@[t2] == step_seq[t2 - outcomes_sofar.len()]);
                    assert(!board_pre.is_covered(outcomes_sofar[t1].coordinates));
                    assert(board_pre.is_covered(step_seq[t2 - outcomes_sofar.len()].coordinates));
                }
            }
            crate::board::lemma_count_covered_nonneg(
                board.covered(),
                board.covered().len() as int,
            );
            assert forall|k: int| 0 <= k < p_init.len() implies pending@.contains(
                #[trigger] p_init[k],
            ) || !board.is_covered(p_init[k]) by {
                if pend_pre.contains(p_init[k]) {
                    // it was pending when the step began, so the step
                    // uncovered it
                    let m = choose|m: int| 0 <= m < pend_pre.len() && pend_pre[m] == p_init[k];
                    assert(!board.is_covered(pend_pre[m]));
                } else {
                    // it was already uncovered, and the mapping only
                    // shrinks
                    if board.is_covered(p_init[k]) {
                        assert(board_pre.is_covered(p_init[k]));
                    }
                }
            }
            assert forall|k: int|
                0 <= k < p_init.len() && b0.is_covered(#[trigger] p_init[k]) implies has_reveal(
                outcomes@,
                p_init[k],
            ) || (pending@.contains(p_init[k]) && board.is_covered(p_init[k])) by {
                if has_reveal(outcomes_sofar, p_init[k]) {
                    let t = choose|t: int|
                        0 <= t < outcomes_sofar.len() && (#[trigger] outcomes_sofar[t]).coordinates
                            == p_init[k];
                    assert(outcomes@[t] == outcomes_sofar[t]);
                } else {
                    // the tile was still covered and pending when the
                    // step began, so the step's completeness emitted its
                    // reveal
                    let m = choose|m: int| 0 <= m < pend_pre.len() && pend_pre[m] == p_init[k];
                    assert(board_pre.is_covered(pend_pre[m]));
                    assert(has_reveal(step_seq, pend_pre[m]));
                    let t = choose|t: int|
                        0 <= t < step_seq.len() && (#[trigger] step_seq[t]).coordinates
                            == p_init[k];
                    assert(outcomes@[outcomes_sofar.len() + t] == step_seq[t]);
                }
            }
        }
    }
    proof {
        if initially_settled {
            assert(settled_except(*board, pending@));
            assert(pending@ =~= Seq::<Coordinates>::empty());
        }
    }
    outcomes
}

} // verus!
