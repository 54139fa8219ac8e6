//! The values the searches compute, as recursive functions over the game tree, with the
//! facts about them that the search's proofs use.
use vstd::prelude::*;
use crate::chess_move::Move;
use crate::movegen::{is_in_check, legal_seq};
use crate::position::{PositionView, spec_make};
use crate::hash::position_key;
use crate::search::{
    Bound, INF, MAX_PLY, TranspositionEntry, captures_first, evaluation, is_noisy, max_score,
    path_after, path_hash, saturate, score_from_table, score_to_table, settled_value,
    table_lookup, table_store,
};

verus! {

/// The value the quiescence search computes for `v`, `ply` plies below the root, with the
/// repetition path `path` ending at `v`: the settled score; the static evaluation at the ply
/// limit; otherwise the best of the replies to the noisy moves (all moves in check), and of
/// standing pat when not in check.
pub closed spec fn quiescence_value(v: PositionView, path: Seq<u64>, ply: int) -> int
    decreases MAX_PLY - ply, 1int, 0int,
{
    match settled_value(v, path, ply) {
        Some(x) => x,
        None => if ply >= MAX_PLY {
            evaluation(v)
        } else {
            let check = is_in_check(v, v.side);
            best_noisy(
                v,
                path,
                ply,
                legal_seq(v),
                check,
                if check {
                    -(INF as int)
                } else {
                    evaluation(v)
                },
            )
        },
    }
}

/// The best of `base` and the negated quiescence values after the noisy moves of `moves`.
pub closed spec fn best_noisy(v: PositionView, path: Seq<u64>, ply: int, moves: Seq<Move>, check: bool, base: int) -> int
    decreases MAX_PLY - ply, 0int, moves.len(),
{
    if moves.len() == 0 || ply >= MAX_PLY {
        base
    } else {
        let rest = best_noisy(v, path, ply, moves.drop_last(), check, base);
        let m = moves.last();
        if is_noisy(v, m, check) {
            max_score(rest, -quiescence_value(spec_make(v, m), path_after(v, path, m), ply + 1))
        } else {
            rest
        }
    }
}

/// The definition of `quiescence_value`, one level deep.
pub proof fn lemma_quiescence_value_unfold(v: PositionView, path: Seq<u64>, ply: int)
    ensures
        quiescence_value(v, path, ply) == match settled_value(v, path, ply) {
            Some(x) => x,
            None => if ply >= MAX_PLY {
                evaluation(v)
            } else {
                let check = is_in_check(v, v.side);
                best_noisy(
                    v,
                    path,
                    ply,
                    legal_seq(v),
                    check,
                    if check {
                        -(INF as int)
                    } else {
                        evaluation(v)
                    },
                )
            },
        },
{
}

/// With no moves looked at, the best value is the base.
pub proof fn lemma_best_noisy_empty(v: PositionView, path: Seq<u64>, ply: int, check: bool, base: int)
    ensures
        best_noisy(v, path, ply, Seq::<Move>::empty(), check, base) == base,
{
}

pub proof fn lemma_best_noisy_take(v: PositionView, path: Seq<u64>, ply: int, moves: Seq<Move>, check: bool, base: int, i: int)
    requires
        0 <= i < moves.len(),
        ply < MAX_PLY,
    ensures
        best_noisy(v, path, ply, moves.take(i + 1), check, base) == if is_noisy(v, moves[i], check) {
            max_score(
                best_noisy(v, path, ply, moves.take(i), check, base),
                -quiescence_value(spec_make(v, moves[i]), path_after(v, path, moves[i]), ply + 1),
            )
        } else {
            best_noisy(v, path, ply, moves.take(i), check, base)
        },
{
    assert(moves.take(i + 1).drop_last() =~= moves.take(i));
}

/// Looking at more moves never lowers the best value.
pub proof fn lemma_best_noisy_mono(v: PositionView, path: Seq<u64>, ply: int, moves: Seq<Move>, check: bool, base: int, i: int)
    requires
        0 <= i <= moves.len(),
    ensures
        best_noisy(v, path, ply, moves.take(i), check, base) <= best_noisy(v, path, ply, moves, check, base),
    decreases moves.len(),
{
    if i < moves.len() {
        assert(moves.drop_last().take(i) =~= moves.take(i));
        lemma_best_noisy_mono(v, path, ply, moves.drop_last(), check, base, i);
    } else {
        assert(moves.take(i) =~= moves);
    }
}

/// The value the main search computes for `v` to `depth` plies, `ply` plies below the root,
/// with the repetition path `path` ending at `v`, when it consults no table: the quiescence
/// value at depth 0 or at the ply limit; the settled score of a node that needs no search;
/// otherwise the best negated value of the replies (never below `-INF`).
pub closed spec fn search_value(v: PositionView, path: Seq<u64>, depth: int, ply: int) -> int
    decreases depth, 1int, 0int,
{
    if depth <= 0 || ply >= MAX_PLY {
        quiescence_value(v, path, ply)
    } else {
        match settled_value(v, path, ply) {
            Some(x) => x,
            None => best_reply(v, path, depth, ply, legal_seq(v)),
        }
    }
}

/// The best of `-INF` and the negated search values after the moves of `moves`.
pub closed spec fn best_reply(v: PositionView, path: Seq<u64>, depth: int, ply: int, moves: Seq<Move>) -> int
    decreases depth, 0int, moves.len(),
{
    if moves.len() == 0 || depth <= 0 {
        -(INF as int)
    } else {
        max_score(
            best_reply(v, path, depth, ply, moves.drop_last()),
            -search_value(
                spec_make(v, moves.last()),
                path_after(v, path, moves.last()),
                depth - 1,
                ply + 1,
            ),
        )
    }
}

pub proof fn lemma_best_reply_take(v: PositionView, path: Seq<u64>, depth: int, ply: int, moves: Seq<Move>, i: int)
    requires
        0 <= i < moves.len(),
        depth > 0,
    ensures
        best_reply(v, path, depth, ply, moves.take(i + 1)) == max_score(
            best_reply(v, path, depth, ply, moves.take(i)),
            -search_value(spec_make(v, moves[i]), path_after(v, path, moves[i]), depth - 1, ply + 1),
        ),
{
    assert(moves.take(i + 1).drop_last() =~= moves.take(i));
}

pub proof fn lemma_best_reply_mono(v: PositionView, path: Seq<u64>, depth: int, ply: int, moves: Seq<Move>, i: int)
    requires
        0 <= i <= moves.len(),
    ensures
        best_reply(v, path, depth, ply, moves.take(i)) <= best_reply(v, path, depth, ply, moves),
    decreases moves.len(),
{
    if i < moves.len() {
        assert(moves.drop_last().take(i) =~= moves.take(i));
        lemma_best_reply_mono(v, path, depth, ply, moves.drop_last(), i);
    } else {
        assert(moves.take(i) =~= moves);
    }
}

/// The definition of `search_value`, one level deep.
pub proof fn lemma_search_value_unfold(v: PositionView, path: Seq<u64>, depth: int, ply: int)
    ensures
        search_value(v, path, depth, ply) == if depth <= 0 || ply >= MAX_PLY {
            quiescence_value(v, path, ply)
        } else {
            match settled_value(v, path, ply) {
                Some(x) => x,
                None => best_reply(v, path, depth, ply, legal_seq(v)),
            }
        },
{
}

/// With no moves looked at, the best reply value is `-INF`.
pub proof fn lemma_best_reply_empty(v: PositionView, path: Seq<u64>, depth: int, ply: int)
    ensures
        best_reply(v, path, depth, ply, Seq::<Move>::empty()) == -(INF as int),
{
}

/// The score and move of one iteration of the root search to `depth`: the moves are taken in
/// order, and a move replaces the best so far when its negated search value is strictly
/// greater, starting from `-INF` and no move.
pub closed spec fn root_choice(v: PositionView, path: Seq<u64>, depth: int, moves: Seq<Move>) -> (int, Option<Move>)
    decreases moves.len(),
{
    if moves.len() == 0 {
        (-(INF as int), None)
    } else {
        let prev = root_choice(v, path, depth, moves.drop_last());
        let m = moves.last();
        let s = -search_value(spec_make(v, m), path_after(v, path, m), depth - 1, 1);
        if s > prev.0 {
            (s, Some(m))
        } else {
            prev
        }
    }
}

pub proof fn lemma_root_choice_empty(v: PositionView, path: Seq<u64>, depth: int)
    ensures
        root_choice(v, path, depth, Seq::<Move>::empty()) == (-(INF as int), None::<Move>),
{
}

pub proof fn lemma_root_choice_take(v: PositionView, path: Seq<u64>, depth: int, moves: Seq<Move>, i: int)
    requires
        0 <= i < moves.len(),
    ensures
        root_choice(v, path, depth, moves.take(i + 1)) == {
            let prev = root_choice(v, path, depth, moves.take(i));
            let s = -search_value(spec_make(v, moves[i]), path_after(v, path, moves[i]), depth - 1, 1);
            if s > prev.0 {
                (s, Some(moves[i]))
            } else {
                prev
            }
        },
{
    assert(moves.take(i + 1).drop_last() =~= moves.take(i));
}

/// When every move's value lies above `-INF`, some move is chosen, and it is one of the moves.
pub proof fn lemma_root_choice_some(v: PositionView, path: Seq<u64>, depth: int, moves: Seq<Move>)
    requires
        moves.len() > 0,
        forall|k: int|
            0 <= k < moves.len() ==> -(INF as int) < -search_value(
                spec_make(v, moves[k]),
                path_after(v, path, moves[k]),
                depth - 1,
                1,
            ),
    ensures
        root_choice(v, path, depth, moves).1 matches Some(m) && moves.contains(m),
        root_choice(v, path, depth, moves).0 > -(INF as int),
    decreases moves.len(),
{
    let pre = moves.drop_last();
    if pre.len() > 0 {
        assert forall|k: int| 0 <= k < pre.len() implies -(INF as int) < -search_value(
            spec_make(v, pre[k]),
            path_after(v, path, pre[k]),
            depth - 1,
            1,
        ) by {
            assert(pre[k] == moves[k]);
        }
        lemma_root_choice_some(v, path, depth, pre);
        let m = root_choice(v, path, depth, pre).1->0;
        let j = choose|j: int| 0 <= j < pre.len() && pre[j] == m;
        assert(moves[j] == m);
    }
    assert(moves[moves.len() - 1] == moves.last());
}


// ---------------------------------------------------------------------------------------
// The values with the window and the transposition table.
// ---------------------------------------------------------------------------------------

/// What the quiescence search returns for `v` with the window `[alpha, beta]`, `ply` plies
/// below the root, with the repetition path `path` ending at `v`: the settled score; `beta`
/// when standing pat fails high; at the ply limit the static evaluation in check and
/// otherwise the better of `alpha` and the evaluation; otherwise `beta` when a noisy reply
/// fails high, else the window's raised lower edge.
pub closed spec fn quiescence_score(v: PositionView, path: Seq<u64>, alpha: int, beta: int, ply: int) -> int
    decreases MAX_PLY - ply, 1int, 0int,
{
    match settled_value(v, path, ply) {
        Some(x) => x,
        None => {
            let check = is_in_check(v, v.side);
            let stand = evaluation(v);
            if !check && stand >= beta {
                beta
            } else {
                let a0 = if check {
                    alpha
                } else {
                    max_score(alpha, stand)
                };
                if ply >= MAX_PLY {
                    if check {
                        stand
                    } else {
                        a0
                    }
                } else {
                    match noisy_window(v, path, ply, legal_seq(v), check, a0, beta) {
                        Some(a) => a,
                        None => beta,
                    }
                }
            }
        },
    }
}

/// The quiescence loop over `moves` from the lower edge `alpha`: `None` once a noisy reply
/// fails high, otherwise the lower edge raised by the replies' scores.
pub closed spec fn noisy_window(
    v: PositionView,
    path: Seq<u64>,
    ply: int,
    moves: Seq<Move>,
    check: bool,
    alpha: int,
    beta: int,
) -> Option<int>
    decreases MAX_PLY - ply, 0int, moves.len(),
{
    if moves.len() == 0 || ply >= MAX_PLY {
        Some(alpha)
    } else {
        match noisy_window(v, path, ply, moves.drop_last(), check, alpha, beta) {
            None => None,
            Some(a) => {
                let m = moves.last();
                if is_noisy(v, m, check) {
                    let s = -quiescence_score(spec_make(v, m), path_after(v, path, m), -beta, -a, ply + 1);
                    if s >= beta {
                        None
                    } else {
                        Some(max_score(a, s))
                    }
                } else {
                    Some(a)
                }
            },
        }
    }
}

/// The definition of `quiescence_score`, one level deep.
pub proof fn lemma_quiescence_score_unfold(v: PositionView, path: Seq<u64>, alpha: int, beta: int, ply: int)
    ensures
        quiescence_score(v, path, alpha, beta, ply) == match settled_value(v, path, ply) {
            Some(x) => x,
            None => {
                let check = is_in_check(v, v.side);
                let stand = evaluation(v);
                if !check && stand >= beta {
                    beta
                } else {
                    let a0 = if check {
                        alpha
                    } else {
                        max_score(alpha, stand)
                    };
                    if ply >= MAX_PLY {
                        if check {
                            stand
                        } else {
                            a0
                        }
                    } else {
                        match noisy_window(v, path, ply, legal_seq(v), check, a0, beta) {
                            Some(a) => a,
                            None => beta,
                        }
                    }
                }
            },
        },
{
}

pub proof fn lemma_noisy_window_empty(v: PositionView, path: Seq<u64>, ply: int, check: bool, alpha: int, beta: int)
    ensures
        noisy_window(v, path, ply, Seq::<Move>::empty(), check, alpha, beta) == Some(alpha),
{
}

pub proof fn lemma_noisy_window_take(
    v: PositionView,
    path: Seq<u64>,
    ply: int,
    moves: Seq<Move>,
    check: bool,
    alpha: int,
    beta: int,
    i: int,
)
    requires
        0 <= i < moves.len(),
        ply < MAX_PLY,
    ensures
        noisy_window(v, path, ply, moves.take(i + 1), check, alpha, beta) == match noisy_window(
            v,
            path,
            ply,
            moves.take(i),
            check,
            alpha,
            beta,
        ) {
            None => None,
            Some(a) => if is_noisy(v, moves[i], check) {
                let s = -quiescence_score(
                    spec_make(v, moves[i]),
                    path_after(v, path, moves[i]),
                    -beta,
                    -a,
                    ply + 1,
                );
                if s >= beta {
                    None
                } else {
                    Some(max_score(a, s))
                }
            } else {
                Some(a)
            },
        },
{
    assert(moves.take(i + 1).drop_last() =~= moves.take(i));
}

/// Once a reply fails high, the rest of the moves change nothing.
pub proof fn lemma_noisy_window_cut(
    v: PositionView,
    path: Seq<u64>,
    ply: int,
    moves: Seq<Move>,
    check: bool,
    alpha: int,
    beta: int,
    i: int,
)
    requires
        0 <= i <= moves.len(),
        noisy_window(v, path, ply, moves.take(i), check, alpha, beta) is None,
    ensures
        noisy_window(v, path, ply, moves, check, alpha, beta) is None,
    decreases moves.len(),
{
    if i < moves.len() {
        assert(moves.drop_last().take(i) =~= moves.take(i));
        lemma_noisy_window_cut(v, path, ply, moves.drop_last(), check, alpha, beta, i);
    } else {
        assert(moves.take(i) =~= moves);
    }
}

/// The table with every slot empty.
pub open spec fn empty_table() -> Seq<Option<TranspositionEntry>> {
    Seq::new(65536, |i: int| None)
}

/// `moves` with the first occurrence of `m` swapped to the front, when `m` occurs.
pub open spec fn put_first_seq(moves: Seq<Move>, m: Move) -> Seq<Move> {
    if moves.contains(m) {
        let j = choose|j: int|
            0 <= j < moves.len() && moves[j] == m && forall|k: int| 0 <= k < j ==> moves[k] != m;
        moves.update(0, moves[j]).update(j, moves[0])
    } else {
        moves
    }
}

/// The order the main search tries the moves in: the table's best move first, when the table
/// gave one.
pub open spec fn ordered_moves(moves: Seq<Move>, probe: Option<TranspositionEntry>) -> Seq<Move> {
    match probe {
        Some(e) => match e.best_move {
            Some(m) => put_first_seq(moves, m),
            None => moves,
        },
        None => moves,
    }
}

/// What a table entry does at a node searched to `depth` with the window `[alpha, beta]`,
/// `ply` plies below the root: an entry searched at least as deep answers the node with its
/// score when it is exact or closes the window, and otherwise narrows the window. Returns
/// the answer, if any, and the window.
pub open spec fn probe_outcome(probe: Option<TranspositionEntry>, depth: int, ply: int, alpha: int, beta: int) -> (Option<int>, int, int) {
    match probe {
        Some(e) => if e.depth >= depth {
            let s = saturate(score_from_table(e.score as int, ply));
            match e.bound {
                Bound::Exact => (Some(s), alpha, beta),
                Bound::Lower => {
                    let a = max_score(alpha, s);
                    (
                        if a >= beta {
                            Some(s)
                        } else {
                            None
                        },
                        a,
                        beta,
                    )
                },
                Bound::Upper => {
                    let b = if s < beta {
                        s
                    } else {
                        beta
                    };
                    (
                        if alpha >= b {
                            Some(s)
                        } else {
                            None
                        },
                        alpha,
                        b,
                    )
                },
            }
        } else {
            (None, alpha, beta)
        },
        None => (None, alpha, beta),
    }
}

/// The entry the main search stores for `v` after searching it to `depth` with the window
/// `[alpha, beta]` and finding `best` with `best_move`.
pub open spec fn stored_entry(
    v: PositionView,
    path: Seq<u64>,
    depth: int,
    ply: int,
    best: int,
    best_move: Option<Move>,
    alpha: int,
    beta: int,
) -> TranspositionEntry {
    TranspositionEntry {
        key: position_key(v),
        history_key: path_hash(path),
        depth: depth as u8,
        score: saturate(score_to_table(best, ply)) as i32,
        bound: if best <= alpha {
            Bound::Upper
        } else if best >= beta {
            Bound::Lower
        } else {
            Bound::Exact
        },
        best_move,
    }
}

/// What the main search returns for `v` searched to `depth` with the window `[alpha, beta]`,
/// `ply` plies below the root, with the repetition path `path` ending at `v` and the table
/// `table` (consulted and filled only when `tt`), and the table it leaves: the quiescence
/// score at depth 0 or at the ply limit; the settled score; the table's answer; otherwise the
/// best score of the replies in the table's order, which is then stored.
pub closed spec fn negamax_score(
    v: PositionView,
    path: Seq<u64>,
    depth: int,
    alpha: int,
    beta: int,
    ply: int,
    table: Seq<Option<TranspositionEntry>>,
    tt: bool,
) -> (int, Seq<Option<TranspositionEntry>>)
    decreases depth, 2int, 0int,
{
    if depth <= 0 || ply >= MAX_PLY {
        (quiescence_score(v, path, alpha, beta, ply), table)
    } else {
        match settled_value(v, path, ply) {
            Some(x) => (x, table),
            None => {
                let probe = if tt {
                    table_lookup(table, position_key(v), path_hash(path))
                } else {
                    None
                };
                let o = probe_outcome(probe, depth, ply, alpha, beta);
                match o.0 {
                    Some(s) => (s, table),
                    None => {
                        let w = reply_window(
                            v,
                            path,
                            depth,
                            ply,
                            ordered_moves(legal_seq(v), probe),
                            o.1,
                            o.2,
                            table,
                            tt,
                        );
                        (
                            w.0,
                            if tt {
                                table_store(w.4, stored_entry(v, path, depth, ply, w.0, w.1, o.1, o.2))
                            } else {
                                w.4
                            },
                        )
                    },
                }
            },
        }
    }
}

/// The main search loop over `moves` with the window `[alpha, beta]`: the best score, the
/// first move that reached it, the window's lower edge, whether a reply closed the window
/// (after which the rest of the moves are not searched), and the table.
pub closed spec fn reply_window(
    v: PositionView,
    path: Seq<u64>,
    depth: int,
    ply: int,
    moves: Seq<Move>,
    alpha: int,
    beta: int,
    table: Seq<Option<TranspositionEntry>>,
    tt: bool,
) -> (int, Option<Move>, int, bool, Seq<Option<TranspositionEntry>>)
    decreases depth, 1int, moves.len(),
{
    if moves.len() == 0 || depth <= 0 {
        (-(INF as int), None, alpha, false, table)
    } else {
        let prev = reply_window(v, path, depth, ply, moves.drop_last(), alpha, beta, table, tt);
        if prev.3 {
            prev
        } else {
            let m = moves.last();
            let c = negamax_score(
                spec_make(v, m),
                path_after(v, path, m),
                depth - 1,
                -beta,
                -prev.2,
                ply + 1,
                prev.4,
                tt,
            );
            let s = -c.0;
            let a = max_score(prev.2, s);
            if s > prev.0 {
                (s, Some(m), a, a >= beta, c.1)
            } else {
                (prev.0, prev.1, a, a >= beta, c.1)
            }
        }
    }
}

/// The definition of `negamax_score`, one level deep.
pub proof fn lemma_negamax_score_unfold(
    v: PositionView,
    path: Seq<u64>,
    depth: int,
    alpha: int,
    beta: int,
    ply: int,
    table: Seq<Option<TranspositionEntry>>,
    tt: bool,
)
    ensures
        negamax_score(v, path, depth, alpha, beta, ply, table, tt) == if depth <= 0 || ply >= MAX_PLY {
            (quiescence_score(v, path, alpha, beta, ply), table)
        } else {
            match settled_value(v, path, ply) {
                Some(x) => (x, table),
                None => {
                    let probe = if tt {
                        table_lookup(table, position_key(v), path_hash(path))
                    } else {
                        None
                    };
                    let o = probe_outcome(probe, depth, ply, alpha, beta);
                    match o.0 {
                        Some(s) => (s, table),
                        None => {
                            let w = reply_window(
                                v,
                                path,
                                depth,
                                ply,
                                ordered_moves(legal_seq(v), probe),
                                o.1,
                                o.2,
                                table,
                                tt,
                            );
                            (
                                w.0,
                                if tt {
                                    table_store(w.4, stored_entry(v, path, depth, ply, w.0, w.1, o.1, o.2))
                                } else {
                                    w.4
                                },
                            )
                        },
                    }
                },
            }
        },
{
}

pub proof fn lemma_reply_window_empty(
    v: PositionView,
    path: Seq<u64>,
    depth: int,
    ply: int,
    alpha: int,
    beta: int,
    table: Seq<Option<TranspositionEntry>>,
    tt: bool,
)
    ensures
        reply_window(v, path, depth, ply, Seq::<Move>::empty(), alpha, beta, table, tt) == (
            -(INF as int),
            None::<Move>,
            alpha,
            false,
            table,
        ),
{
}

pub proof fn lemma_reply_window_take(
    v: PositionView,
    path: Seq<u64>,
    depth: int,
    ply: int,
    moves: Seq<Move>,
    alpha: int,
    beta: int,
    table: Seq<Option<TranspositionEntry>>,
    tt: bool,
    i: int,
)
    requires
        0 <= i < moves.len(),
        depth > 0,
        !reply_window(v, path, depth, ply, moves.take(i), alpha, beta, table, tt).3,
    ensures
        ({
            let prev = reply_window(v, path, depth, ply, moves.take(i), alpha, beta, table, tt);
            let m = moves[i];
            let c = negamax_score(
                spec_make(v, m),
                path_after(v, path, m),
                depth - 1,
                -beta,
                -prev.2,
                ply + 1,
                prev.4,
                tt,
            );
            let s = -c.0;
            let a = max_score(prev.2, s);
            reply_window(v, path, depth, ply, moves.take(i + 1), alpha, beta, table, tt) == if s
                > prev.0 {
                (s, Some(m), a, a >= beta, c.1)
            } else {
                (prev.0, prev.1, a, a >= beta, c.1)
            }
        }),
{
    assert(moves.take(i + 1).drop_last() =~= moves.take(i));
}

/// Once a reply closes the window, the rest of the moves change nothing.
pub proof fn lemma_reply_window_cut(
    v: PositionView,
    path: Seq<u64>,
    depth: int,
    ply: int,
    moves: Seq<Move>,
    alpha: int,
    beta: int,
    table: Seq<Option<TranspositionEntry>>,
    tt: bool,
    i: int,
)
    requires
        0 <= i <= moves.len(),
        reply_window(v, path, depth, ply, moves.take(i), alpha, beta, table, tt).3,
    ensures
        reply_window(v, path, depth, ply, moves, alpha, beta, table, tt) == reply_window(
            v,
            path,
            depth,
            ply,
            moves.take(i),
            alpha,
            beta,
            table,
            tt,
        ),
    decreases moves.len(),
{
    if i < moves.len() {
        assert(moves.drop_last().take(i) =~= moves.take(i));
        lemma_reply_window_cut(v, path, depth, ply, moves.drop_last(), alpha, beta, table, tt, i);
    } else {
        assert(moves.take(i) =~= moves);
    }
}

/// One iteration of the root search to `depth` over `moves`, from the table `table`: the best
/// score (from `-INF`), the first move that reached it, and the table it leaves. Each move is
/// searched with the window `[-INF, -best]` from the reply's side.
pub closed spec fn root_iteration_result(
    v: PositionView,
    path: Seq<u64>,
    depth: int,
    moves: Seq<Move>,
    table: Seq<Option<TranspositionEntry>>,
    tt: bool,
) -> (int, Option<Move>, Seq<Option<TranspositionEntry>>)
    decreases moves.len(),
{
    if moves.len() == 0 {
        (-(INF as int), None, table)
    } else {
        let prev = root_iteration_result(v, path, depth, moves.drop_last(), table, tt);
        let m = moves.last();
        let c = negamax_score(
            spec_make(v, m),
            path_after(v, path, m),
            depth - 1,
            -(INF as int),
            -prev.0,
            1,
            prev.2,
            tt,
        );
        let s = -c.0;
        if s > prev.0 {
            (s, Some(m), c.1)
        } else {
            (prev.0, prev.1, c.1)
        }
    }
}

pub proof fn lemma_root_iteration_empty(
    v: PositionView,
    path: Seq<u64>,
    depth: int,
    table: Seq<Option<TranspositionEntry>>,
    tt: bool,
)
    ensures
        root_iteration_result(v, path, depth, Seq::<Move>::empty(), table, tt) == (
            -(INF as int),
            None::<Move>,
            table,
        ),
{
}

pub proof fn lemma_root_iteration_take(
    v: PositionView,
    path: Seq<u64>,
    depth: int,
    moves: Seq<Move>,
    table: Seq<Option<TranspositionEntry>>,
    tt: bool,
    i: int,
)
    requires
        0 <= i < moves.len(),
    ensures
        ({
            let prev = root_iteration_result(v, path, depth, moves.take(i), table, tt);
            let m = moves[i];
            let c = negamax_score(
                spec_make(v, m),
                path_after(v, path, m),
                depth - 1,
                -(INF as int),
                -prev.0,
                1,
                prev.2,
                tt,
            );
            let s = -c.0;
            root_iteration_result(v, path, depth, moves.take(i + 1), table, tt) == if s > prev.0 {
                (s, Some(m), c.1)
            } else {
                (prev.0, prev.1, c.1)
            }
        }),
{
    assert(moves.take(i + 1).drop_last() =~= moves.take(i));
}

/// Iterative deepening to `d` plies: iterations `1..=d` in turn, each starting from the table
/// the one before left (the first from the empty table); the score, move and depth of the
/// last iteration that chose a move (the first move with captures first, score 0 and depth 0
/// when none did), and the table.
pub closed spec fn deepening(v: PositionView, path: Seq<u64>, d: int, tt: bool) -> (
    int,
    Option<Move>,
    int,
    Seq<Option<TranspositionEntry>>,
)
    decreases d,
{
    if d <= 0 {
        (0, Some(captures_first(v, legal_seq(v))[0]), 0, empty_table())
    } else {
        let prev = deepening(v, path, d - 1, tt);
        let it = root_iteration_result(v, path, d, legal_seq(v), prev.3, tt);
        match it.1 {
            Some(m) => (it.0, Some(m), d, it.2),
            None => (prev.0, prev.1, prev.2, it.2),
        }
    }
}

/// The score, move and depth iterative deepening to `d` plies reports.
pub open spec fn deepened(v: PositionView, path: Seq<u64>, d: int, tt: bool) -> (int, Option<Move>, int) {
    let r = deepening(v, path, d, tt);
    (r.0, r.1, r.2)
}

/// Before any iteration: the fallback move and the empty table.
pub proof fn lemma_deepening_start(v: PositionView, path: Seq<u64>, tt: bool)
    ensures
        deepening(v, path, 0, tt) == (
            0int,
            Some(captures_first(v, legal_seq(v))[0]),
            0int,
            empty_table(),
        ),
{
}

/// Iteration `d` keeps the result of the iterations before unless it chooses a move, which
/// then replaces the result with its own score and depth `d`.
pub proof fn lemma_deepening_step(v: PositionView, path: Seq<u64>, d: int, tt: bool)
    requires
        d >= 1,
    ensures
        ({
            let prev = deepening(v, path, d - 1, tt);
            let it = root_iteration_result(v, path, d, legal_seq(v), prev.3, tt);
            deepening(v, path, d, tt) == match it.1 {
                Some(m) => (it.0, Some(m), d, it.2),
                None => (prev.0, prev.1, prev.2, it.2),
            }
        }),
{
}

/// Iterative deepening to `d` plies reports a depth of at most `d`; when that depth is `j >= 1`,
/// deepening to `j` plies reports the same score, move and depth (the later iterations chose
/// no move).
pub proof fn lemma_deepened_own_depth(v: PositionView, path: Seq<u64>, d: int, tt: bool)
    requires
        d >= 0,
    ensures
        0 <= deepened(v, path, d, tt).2 <= d,
        deepened(v, path, d, tt).2 >= 1 ==> deepened(v, path, deepened(v, path, d, tt).2, tt)
            == deepened(v, path, d, tt),
    decreases d,
{
    if d > 0 {
        lemma_deepened_own_depth(v, path, d - 1, tt);
    }
}

// ---------------------------------------------------------------------------------------
// Nodes visited.
// ---------------------------------------------------------------------------------------

/// A node count as the searcher keeps it: it stops at `u64::MAX`.
pub open spec fn saturated(x: int) -> int {
    if x > u64::MAX {
        u64::MAX as int
    } else {
        x
    }
}

/// The nodes the quiescence search visits from `v` with the window `[alpha, beta]`: this node,
/// and the nodes below each noisy reply it searches.
pub closed spec fn quiescence_visits(v: PositionView, path: Seq<u64>, alpha: int, beta: int, ply: int) -> nat
    decreases MAX_PLY - ply, 1int, 0int,
{
    match settled_value(v, path, ply) {
        Some(x) => 1,
        None => {
            let check = is_in_check(v, v.side);
            let stand = evaluation(v);
            if (!check && stand >= beta) || ply >= MAX_PLY {
                1
            } else {
                let a0 = if check {
                    alpha
                } else {
                    max_score(alpha, stand)
                };
                1 + noisy_visits(v, path, ply, legal_seq(v), check, a0, beta)
            }
        },
    }
}

/// The nodes the quiescence loop over `moves` visits below the replies it searches (it stops
/// once a reply fails high).
pub closed spec fn noisy_visits(
    v: PositionView,
    path: Seq<u64>,
    ply: int,
    moves: Seq<Move>,
    check: bool,
    alpha: int,
    beta: int,
) -> nat
    decreases MAX_PLY - ply, 0int, moves.len(),
{
    if moves.len() == 0 || ply >= MAX_PLY {
        0
    } else {
        let prev = noisy_visits(v, path, ply, moves.drop_last(), check, alpha, beta);
        match noisy_window(v, path, ply, moves.drop_last(), check, alpha, beta) {
            None => prev,
            Some(a) => {
                let m = moves.last();
                if is_noisy(v, m, check) {
                    prev + quiescence_visits(spec_make(v, m), path_after(v, path, m), -beta, -a, ply + 1)
                } else {
                    prev
                }
            },
        }
    }
}

pub proof fn lemma_quiescence_visits_unfold(v: PositionView, path: Seq<u64>, alpha: int, beta: int, ply: int)
    ensures
        quiescence_visits(v, path, alpha, beta, ply) == match settled_value(v, path, ply) {
            Some(x) => 1,
            None => {
                let check = is_in_check(v, v.side);
                let stand = evaluation(v);
                if (!check && stand >= beta) || ply >= MAX_PLY {
                    1
                } else {
                    let a0 = if check {
                        alpha
                    } else {
                        max_score(alpha, stand)
                    };
                    1 + noisy_visits(v, path, ply, legal_seq(v), check, a0, beta)
                }
            },
        },
{
}

pub proof fn lemma_noisy_visits_empty(v: PositionView, path: Seq<u64>, ply: int, check: bool, alpha: int, beta: int)
    ensures
        noisy_visits(v, path, ply, Seq::<Move>::empty(), check, alpha, beta) == 0,
{
}

pub proof fn lemma_noisy_visits_take(
    v: PositionView,
    path: Seq<u64>,
    ply: int,
    moves: Seq<Move>,
    check: bool,
    alpha: int,
    beta: int,
    i: int,
)
    requires
        0 <= i < moves.len(),
        ply < MAX_PLY,
    ensures
        noisy_visits(v, path, ply, moves.take(i + 1), check, alpha, beta) == noisy_visits(
            v,
            path,
            ply,
            moves.take(i),
            check,
            alpha,
            beta,
        ) + match noisy_window(v, path, ply, moves.take(i), check, alpha, beta) {
            None => 0,
            Some(a) => if is_noisy(v, moves[i], check) {
                quiescence_visits(spec_make(v, moves[i]), path_after(v, path, moves[i]), -beta, -a, ply + 1) as int
            } else {
                0
            },
        },
{
    assert(moves.take(i + 1).drop_last() =~= moves.take(i));
}

/// Once a reply fails high, the rest of the moves visit nothing.
pub proof fn lemma_noisy_visits_cut(
    v: PositionView,
    path: Seq<u64>,
    ply: int,
    moves: Seq<Move>,
    check: bool,
    alpha: int,
    beta: int,
    i: int,
)
    requires
        0 <= i <= moves.len(),
        noisy_window(v, path, ply, moves.take(i), check, alpha, beta) is None,
    ensures
        noisy_visits(v, path, ply, moves, check, alpha, beta) == noisy_visits(
            v,
            path,
            ply,
            moves.take(i),
            check,
            alpha,
            beta,
        ),
    decreases moves.len(),
{
    if i < moves.len() {
        assert(moves.drop_last().take(i) =~= moves.take(i));
        lemma_noisy_window_cut(v, path, ply, moves.drop_last(), check, alpha, beta, i);
        lemma_noisy_visits_cut(v, path, ply, moves.drop_last(), check, alpha, beta, i);
    } else {
        assert(moves.take(i) =~= moves);
    }
}

/// The nodes the main search visits from `v` (see `negamax_score`): this node, then the
/// quiescence search's nodes at depth 0 or at the ply limit, none for a settled node or one
/// the table answers, otherwise the nodes below the replies searched.
pub closed spec fn negamax_visits(
    v: PositionView,
    path: Seq<u64>,
    depth: int,
    alpha: int,
    beta: int,
    ply: int,
    table: Seq<Option<TranspositionEntry>>,
    tt: bool,
) -> nat
    decreases depth, 2int, 0int,
{
    if depth <= 0 || ply >= MAX_PLY {
        1 + quiescence_visits(v, path, alpha, beta, ply)
    } else {
        match settled_value(v, path, ply) {
            Some(x) => 1,
            None => {
                let probe = if tt {
                    table_lookup(table, position_key(v), path_hash(path))
                } else {
                    None
                };
                let o = probe_outcome(probe, depth, ply, alpha, beta);
                match o.0 {
                    Some(s) => 1,
                    None => 1 + reply_visits(
                        v,
                        path,
                        depth,
                        ply,
                        ordered_moves(legal_seq(v), probe),
                        o.1,
                        o.2,
                        table,
                        tt,
                    ),
                }
            },
        }
    }
}

/// The nodes the main search loop over `moves` visits below the replies it searches (it stops
/// once a reply closes the window).
pub closed spec fn reply_visits(
    v: PositionView,
    path: Seq<u64>,
    depth: int,
    ply: int,
    moves: Seq<Move>,
    alpha: int,
    beta: int,
    table: Seq<Option<TranspositionEntry>>,
    tt: bool,
) -> nat
    decreases depth, 1int, moves.len(),
{
    if moves.len() == 0 || depth <= 0 {
        0
    } else {
        let prev = reply_window(v, path, depth, ply, moves.drop_last(), alpha, beta, table, tt);
        let before = reply_visits(v, path, depth, ply, moves.drop_last(), alpha, beta, table, tt);
        if prev.3 {
            before
        } else {
            let m = moves.last();
            before + negamax_visits(
                spec_make(v, m),
                path_after(v, path, m),
                depth - 1,
                -beta,
                -prev.2,
                ply + 1,
                prev.4,
                tt,
            )
        }
    }
}

pub proof fn lemma_negamax_visits_unfold(
    v: PositionView,
    path: Seq<u64>,
    depth: int,
    alpha: int,
    beta: int,
    ply: int,
    table: Seq<Option<TranspositionEntry>>,
    tt: bool,
)
    ensures
        negamax_visits(v, path, depth, alpha, beta, ply, table, tt) == if depth <= 0 || ply >= MAX_PLY {
            1 + quiescence_visits(v, path, alpha, beta, ply)
        } else {
            match settled_value(v, path, ply) {
                Some(x) => 1,
                None => {
                    let probe = if tt {
                        table_lookup(table, position_key(v), path_hash(path))
                    } else {
                        None
                    };
                    let o = probe_outcome(probe, depth, ply, alpha, beta);
                    match o.0 {
                        Some(s) => 1,
                        None => 1 + reply_visits(
                            v,
                            path,
                            depth,
                            ply,
                            ordered_moves(legal_seq(v), probe),
                            o.1,
                            o.2,
                            table,
                            tt,
                        ),
                    }
                },
            }
        },
{
}

pub proof fn lemma_reply_visits_empty(
    v: PositionView,
    path: Seq<u64>,
    depth: int,
    ply: int,
    alpha: int,
    beta: int,
    table: Seq<Option<TranspositionEntry>>,
    tt: bool,
)
    ensures
        reply_visits(v, path, depth, ply, Seq::<Move>::empty(), alpha, beta, table, tt) == 0,
{
}

pub proof fn lemma_reply_visits_take(
    v: PositionView,
    path: Seq<u64>,
    depth: int,
    ply: int,
    moves: Seq<Move>,
    alpha: int,
    beta: int,
    table: Seq<Option<TranspositionEntry>>,
    tt: bool,
    i: int,
)
    requires
        0 <= i < moves.len(),
        depth > 0,
        !reply_window(v, path, depth, ply, moves.take(i), alpha, beta, table, tt).3,
    ensures
        ({
            let prev = reply_window(v, path, depth, ply, moves.take(i), alpha, beta, table, tt);
            let m = moves[i];
            reply_visits(v, path, depth, ply, moves.take(i + 1), alpha, beta, table, tt)
                == reply_visits(v, path, depth, ply, moves.take(i), alpha, beta, table, tt)
                + negamax_visits(
                spec_make(v, m),
                path_after(v, path, m),
                depth - 1,
                -beta,
                -prev.2,
                ply + 1,
                prev.4,
                tt,
            )
        }),
{
    assert(moves.take(i + 1).drop_last() =~= moves.take(i));
}

/// Once a reply closes the window, the rest of the moves visit nothing.
pub proof fn lemma_reply_visits_cut(
    v: PositionView,
    path: Seq<u64>,
    depth: int,
    ply: int,
    moves: Seq<Move>,
    alpha: int,
    beta: int,
    table: Seq<Option<TranspositionEntry>>,
    tt: bool,
    i: int,
)
    requires
        0 <= i <= moves.len(),
        reply_window(v, path, depth, ply, moves.take(i), alpha, beta, table, tt).3,
    ensures
        reply_visits(v, path, depth, ply, moves, alpha, beta, table, tt) == reply_visits(
            v,
            path,
            depth,
            ply,
            moves.take(i),
            alpha,
            beta,
            table,
            tt,
        ),
    decreases moves.len(),
{
    if i < moves.len() {
        assert(moves.drop_last().take(i) =~= moves.take(i));
        lemma_reply_window_cut(v, path, depth, ply, moves.drop_last(), alpha, beta, table, tt, i);
        lemma_reply_visits_cut(v, path, depth, ply, moves.drop_last(), alpha, beta, table, tt, i);
    } else {
        assert(moves.take(i) =~= moves);
    }
}

/// The nodes one root iteration to `depth` over `moves` visits (see `root_iteration_result`).
pub closed spec fn root_iteration_visits(
    v: PositionView,
    path: Seq<u64>,
    depth: int,
    moves: Seq<Move>,
    table: Seq<Option<TranspositionEntry>>,
    tt: bool,
) -> nat
    decreases moves.len(),
{
    if moves.len() == 0 {
        0
    } else {
        let prev = root_iteration_result(v, path, depth, moves.drop_last(), table, tt);
        let m = moves.last();
        root_iteration_visits(v, path, depth, moves.drop_last(), table, tt) + negamax_visits(
            spec_make(v, m),
            path_after(v, path, m),
            depth - 1,
            -(INF as int),
            -prev.0,
            1,
            prev.2,
            tt,
        )
    }
}

pub proof fn lemma_root_iteration_visits_empty(
    v: PositionView,
    path: Seq<u64>,
    depth: int,
    table: Seq<Option<TranspositionEntry>>,
    tt: bool,
)
    ensures
        root_iteration_visits(v, path, depth, Seq::<Move>::empty(), table, tt) == 0,
{
}

pub proof fn lemma_root_iteration_visits_take(
    v: PositionView,
    path: Seq<u64>,
    depth: int,
    moves: Seq<Move>,
    table: Seq<Option<TranspositionEntry>>,
    tt: bool,
    i: int,
)
    requires
        0 <= i < moves.len(),
    ensures
        ({
            let prev = root_iteration_result(v, path, depth, moves.take(i), table, tt);
            let m = moves[i];
            root_iteration_visits(v, path, depth, moves.take(i + 1), table, tt)
                == root_iteration_visits(v, path, depth, moves.take(i), table, tt) + negamax_visits(
                spec_make(v, m),
                path_after(v, path, m),
                depth - 1,
                -(INF as int),
                -prev.0,
                1,
                prev.2,
                tt,
            )
        }),
        root_iteration_visits(v, path, depth, Seq::<Move>::empty(), table, tt) == 0,
{
    assert(moves.take(i + 1).drop_last() =~= moves.take(i));
}

/// The nodes iterative deepening to `d` plies visits: those of each iteration in turn.
pub closed spec fn deepening_visits(v: PositionView, path: Seq<u64>, d: int, tt: bool) -> nat
    decreases d,
{
    if d <= 0 {
        0
    } else {
        deepening_visits(v, path, d - 1, tt) + root_iteration_visits(
            v,
            path,
            d,
            legal_seq(v),
            deepening(v, path, d - 1, tt).3,
            tt,
        )
    }
}

pub proof fn lemma_deepening_visits_step(v: PositionView, path: Seq<u64>, d: int, tt: bool)
    requires
        d >= 1,
    ensures
        deepening_visits(v, path, d, tt) == deepening_visits(v, path, d - 1, tt) + root_iteration_visits(
            v,
            path,
            d,
            legal_seq(v),
            deepening(v, path, d - 1, tt).3,
            tt,
        ),
        deepening_visits(v, path, 0, tt) == 0,
{
}

} // verus!
