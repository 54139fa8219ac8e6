//! Iterative-deepening alpha-beta search with quiescence, repetition-aware draws and a
//! transposition table that lives for one search.
use vstd::prelude::*;
use std::sync::Arc;
use std::sync::atomic::AtomicBool;
use std::time::{Duration, Instant};
use crate::attacks::abs;
use crate::bitboard::{Color, Piece, PieceKind, Square, file_of, rank_of};
use crate::chess_move::Move;
use crate::hash::{board_key, mix, mix64, position_key, repetition_key};
use crate::movegen::{has_legal_move, in_check, is_in_check, legal_moves, legal_seq, move_ok};
use crate::search_values::{
    quiescence_value, best_noisy, search_value, best_reply, lemma_quiescence_value_unfold,
    lemma_best_noisy_empty, lemma_best_noisy_take, lemma_best_noisy_mono, lemma_search_value_unfold,
    lemma_best_reply_empty, lemma_best_reply_take, lemma_best_reply_mono, root_choice,
    lemma_root_choice_empty, lemma_root_choice_take, lemma_root_choice_some, quiescence_score,
    noisy_window, lemma_quiescence_score_unfold, lemma_noisy_window_empty, lemma_noisy_window_take,
    lemma_noisy_window_cut, negamax_score, reply_window, lemma_negamax_score_unfold,
    lemma_reply_window_empty, lemma_reply_window_take, lemma_reply_window_cut,
    root_iteration_result, lemma_root_iteration_empty, lemma_root_iteration_take, deepening,
    deepened, lemma_deepened_own_depth, lemma_deepening_start, lemma_deepening_step, empty_table, put_first_seq,
    ordered_moves, probe_outcome, stored_entry, saturated, quiescence_visits, noisy_visits,
    lemma_quiescence_visits_unfold, lemma_noisy_visits_empty, lemma_noisy_visits_take, lemma_noisy_visits_cut, negamax_visits,
    reply_visits, lemma_negamax_visits_unfold, lemma_reply_visits_empty, lemma_reply_visits_take, lemma_reply_visits_cut,
    root_iteration_visits, lemma_root_iteration_visits_empty, lemma_root_iteration_visits_take,
    deepening_visits, lemma_deepening_visits_step,
};
use crate::position::{
    Position, PositionView, insufficient_material, is_kind, spec_make, lemma_make_unmake_restores,
    lemma_undo_castling,
};

verus! {

broadcast use {
    Square::lemma_view_bounds,
    Square::lemma_from_index,
    Square::lemma_from_index_view,
    Position::lemma_wf_view,
};

/// A score beyond every reachable evaluation; the initial search window is `[-INF, INF]`.
pub const INF: i32 = 32000;

/// The score of being checkmated at the root; a mate `n` plies deep scores `MATE - n`.
pub const MATE: i32 = 30000;

/// Plies below the root after which the search stops extending.
pub const MAX_PLY: usize = 64;

/// Number of slots of the transposition table.
pub const TT_SIZE: usize = 65536;

#[verifier::external_type_specification]
#[verifier::external_body]
pub struct ExInstant(Instant);

/// `Instant::now`: a reading of the monotonic clock. Nothing is promised of its value.
#[verifier::external_body]
fn clock_now() -> Instant {
    Instant::now()
}

/// `Instant::checked_add`: the instant `limit` after `start`, or `None` where the platform
/// cannot represent it. Nothing is promised of the result.
#[verifier::external_body]
fn instant_after(start: Instant, limit: Duration) -> Option<Instant> {
    start.checked_add(limit)
}

/// `Instant`'s `>=`: whether `now` is at or past `deadline`. Both are clock readings, so
/// nothing is promised of the answer.
#[verifier::external_body]
fn instant_reached(now: &Instant, deadline: &Instant) -> bool {
    *now >= *deadline
}

/// What a finished search reports: the move to play, its score from the mover's point of
/// view, the deepest completed iteration, and the nodes visited.
#[derive(Clone, Copy, Debug)]
pub struct SearchResult {
    pub best_move: Option<Move>,
    pub score: i32,
    pub depth: u8,
    pub nodes: u64,
}

// ---------------------------------------------------------------------------------------
// Evaluation.
// ---------------------------------------------------------------------------------------

/// Material value of a piece kind in centipawns.
pub open spec fn piece_value(k: PieceKind) -> int {
    match k {
        PieceKind::Pawn => 100,
        PieceKind::Knight => 320,
        PieceKind::Bishop => 330,
        PieceKind::Rook => 500,
        PieceKind::Queen => 900,
        PieceKind::King => 0,
    }
}

/// Closeness to the board's centre: 6 on the four central squares, 0 in the corners.
pub open spec fn centrality(file: int, rank: int) -> int {
    7 - (abs(file * 2 - 7) + abs(rank * 2 - 7)) / 2
}

/// What a piece on square `sq` adds to White's score: its value, plus 4 per rank advanced for
/// a pawn, plus 3 per step of centrality for a knight or bishop; negated for Black.
pub open spec fn square_score(pc: Piece, sq: int) -> int {
    let file = file_of(sq);
    let rank = rank_of(sq);
    let advancement = if pc.color == Color::White {
        rank
    } else {
        7 - rank
    };
    let positional = match pc.kind {
        PieceKind::Pawn => advancement * 4,
        PieceKind::Knight | PieceKind::Bishop => centrality(file, rank) * 3,
        _ => 0,
    };
    if pc.color == Color::White {
        piece_value(pc.kind) + positional
    } else {
        -(piece_value(pc.kind) + positional)
    }
}

/// White's score summed over the squares below `n`.
pub open spec fn material_balance(board: Seq<Option<Piece>>, n: int) -> int
    decreases n,
{
    if n <= 0 {
        0
    } else {
        material_balance(board, n - 1) + match board[n - 1] {
            Some(pc) => square_score(pc, n - 1),
            None => 0,
        }
    }
}

/// The static evaluation from the side to move's point of view.
pub open spec fn evaluation(v: PositionView) -> int {
    if v.side == Color::White {
        material_balance(v.board, 64)
    } else {
        -material_balance(v.board, 64)
    }
}

fn abs_i32(x: i32) -> (r: i32)
    requires
        x > i32::MIN,
    ensures
        r == abs(x as int),
{
    if x < 0 {
        -x
    } else {
        x
    }
}

fn square_score_of(pc: Piece, sq: u8) -> (r: i32)
    requires
        sq < 64,
    ensures
        r == square_score(pc, sq as int),
        -900 <= r <= 900,
{
    let file = (sq % 8) as i32;
    let rank = (sq / 8) as i32;
    let white = pc.color.is_white();
    let advancement = if white {
        rank
    } else {
        7 - rank
    };
    let positional: i32 = match pc.kind {
        PieceKind::Pawn => advancement * 4,
        PieceKind::Knight | PieceKind::Bishop => {
            let center = 7 - (abs_i32(file * 2 - 7) + abs_i32(rank * 2 - 7)) / 2;
            center * 3
        },
        _ => 0,
    };
    let value: i32 = match pc.kind {
        PieceKind::Pawn => 100,
        PieceKind::Knight => 320,
        PieceKind::Bishop => 330,
        PieceKind::Rook => 500,
        PieceKind::Queen => 900,
        PieceKind::King => 0,
    };
    if white {
        value + positional
    } else {
        -(value + positional)
    }
}

/// Static evaluation: material plus pawn advancement and minor-piece centrality, from the
/// side to move's point of view.
pub fn evaluate(p: &Position) -> (r: i32)
    requires
        p.wf(),
    ensures
        r == evaluation(p@),
        -57600 <= r <= 57600,
{
    let ghost board = p@.board;
    let mut score: i32 = 0;
    let mut i: u8 = 0;
    while i < 64
        invariant
            0 <= i <= 64,
            p.wf(),
            board == p@.board,
            score == material_balance(board, i as int),
            -900 * i <= score <= 900 * i,
        decreases 64 - i,
    {
        let sq = Square::new(i).unwrap();
        match p.piece_at(sq) {
            Some(pc) => {
                score = score + square_score_of(pc, i);
            },
            None => {},
        }
        i = i + 1;
    }
    if p.side_to_move().is_white() {
        score
    } else {
        -score
    }
}

// ---------------------------------------------------------------------------------------
// Draw rules and move classification.
// ---------------------------------------------------------------------------------------

/// How often `k` occurs in `s`.
pub open spec fn occurrences(s: Seq<u64>, k: u64) -> nat
    decreases s.len(),
{
    if s.len() == 0 {
        0
    } else {
        occurrences(s.drop_last(), k) + if s.last() == k {
            1nat
        } else {
            0nat
        }
    }
}

/// The last position of the path has occurred at least three times on it.
pub open spec fn is_repeated(path: Seq<u64>) -> bool {
    path.len() > 0 && occurrences(path, path.last()) >= 3
}

/// The draws the search recognizes: dead material, threefold repetition on the path, or the
/// fifty-move rule.
pub open spec fn is_drawn(v: PositionView, path: Seq<u64>) -> bool {
    insufficient_material(v.board) || is_repeated(path) || v.halfmove >= 100
}

/// The score of a node that needs no search, `ply` plies below the root: checkmate and
/// stalemate first, then the draws; `None` for a node with moves and no draw.
pub open spec fn settled_value(v: PositionView, path: Seq<u64>, ply: int) -> Option<int> {
    if legal_seq(v).len() == 0 {
        Some(
            if is_in_check(v, v.side) {
                ply - MATE
            } else {
                0
            },
        )
    } else if is_drawn(v, path) {
        Some(0)
    } else {
        None
    }
}

/// The key that tells two repetition paths apart in the transposition table: the wrapping
/// sum of the mixed position keys.
pub open spec fn path_hash(s: Seq<u64>) -> u64
    decreases s.len(),
{
    if s.len() == 0 {
        0
    } else {
        path_hash(s.drop_last()).wrapping_add(mix(s.last()))
    }
}

/// The move takes a piece: something stands on its target, or it is a pawn move onto the
/// en-passant square.
pub open spec fn is_capture_move(v: PositionView, m: Move) -> bool {
    v.board[m.to@] is Some || (is_kind(v.board[m.from@], PieceKind::Pawn) && v.en_passant == Some(
        m.to,
    ))
}

/// Whether `mv` captures in `p`.
pub fn is_capture(p: &Position, mv: Move) -> (r: bool)
    requires
        p.wf(),
    ensures
        r == is_capture_move(p@, mv),
{
    if p.piece_at(mv.to).is_some() {
        return true;
    }
    let pawn = match p.piece_at(mv.from) {
        Some(x) => match x.kind {
            PieceKind::Pawn => true,
            _ => false,
        },
        None => false,
    };
    let on_target = match p.en_passant_square() {
        Some(e) => e.index() == mv.to.index(),
        None => false,
    };
    proof {
        if on_target {
            let e = p@.en_passant->0;
            assert(Square::from_index(e@) == e);
            assert(Square::from_index(mv.to@) == mv.to);
            assert(p@.en_passant == Some(mv.to));
        }
    }
    pawn && on_target
}

/// The moves of `s` that are captures (`capture`) or quiet moves (`!capture`), in order.
pub open spec fn moves_where(v: PositionView, s: Seq<Move>, capture: bool) -> Seq<Move>
    decreases s.len(),
{
    if s.len() == 0 {
        seq![]
    } else {
        moves_where(v, s.drop_last(), capture) + if is_capture_move(v, s.last()) == capture {
            seq![s.last()]
        } else {
            seq![]
        }
    }
}

/// The moves of `s` with the captures first, each group in the order of `s`.
pub open spec fn captures_first(v: PositionView, s: Seq<Move>) -> Seq<Move> {
    moves_where(v, s, true) + moves_where(v, s, false)
}

proof fn lemma_moves_where_take(v: PositionView, s: Seq<Move>, i: int, capture: bool)
    requires
        0 <= i < s.len(),
    ensures
        moves_where(v, s.take(i + 1), capture) == moves_where(v, s.take(i), capture) + if is_capture_move(
            v,
            s[i],
        ) == capture {
            seq![s[i]]
        } else {
            seq![]
        },
{
    assert(s.take(i + 1).drop_last() =~= s.take(i));
}

/// Every move that `moves_where` keeps comes from `s`; together the two groups are as long as `s`.
proof fn lemma_moves_where_parts(v: PositionView, s: Seq<Move>)
    ensures
        moves_where(v, s, true).len() + moves_where(v, s, false).len() == s.len(),
        forall|k: int|
            0 <= k < moves_where(v, s, true).len() ==> s.contains(
                #[trigger] moves_where(v, s, true)[k],
            ),
        forall|k: int|
            0 <= k < moves_where(v, s, false).len() ==> s.contains(
                #[trigger] moves_where(v, s, false)[k],
            ),
    decreases s.len(),
{
    if s.len() > 0 {
        let pre = s.drop_last();
        lemma_moves_where_parts(v, pre);
        assert forall|k: int|
            0 <= k < moves_where(v, s, true).len() implies s.contains(
                #[trigger] moves_where(v, s, true)[k],
            ) by {
            if k < moves_where(v, pre, true).len() {
                let m = moves_where(v, pre, true)[k];
                assert(pre.contains(m));
                let j = choose|j: int| 0 <= j < pre.len() && pre[j] == m;
                assert(s[j] == m);
            } else {
                assert(s[s.len() - 1] == s.last());
            }
        }
        assert forall|k: int|
            0 <= k < moves_where(v, s, false).len() implies s.contains(
                #[trigger] moves_where(v, s, false)[k],
            ) by {
            if k < moves_where(v, pre, false).len() {
                let m = moves_where(v, pre, false)[k];
                assert(pre.contains(m));
                let j = choose|j: int| 0 <= j < pre.len() && pre[j] == m;
                assert(s[j] == m);
            } else {
                assert(s[s.len() - 1] == s.last());
            }
        }
    }
}

/// The first move of `captures_first` is one of the moves, when there are any.
pub proof fn lemma_captures_first_head(v: PositionView, s: Seq<Move>)
    requires
        s.len() > 0,
    ensures
        captures_first(v, s).len() == s.len(),
        s.contains(captures_first(v, s)[0]),
{
    lemma_moves_where_parts(v, s);
    let c = moves_where(v, s, true);
    let q = moves_where(v, s, false);
    if c.len() > 0 {
        assert(captures_first(v, s)[0] == c[0]);
    } else {
        assert(captures_first(v, s)[0] == q[0]);
    }
}

/// The moves with the captures first, keeping the order within each group.
pub fn order_captures_first(p: &Position, moves: &Vec<Move>) -> (r: Vec<Move>)
    requires
        p.wf(),
    ensures
        r@ == captures_first(p@, moves@),
{
    let ghost v = p@;
    let mut captures: Vec<Move> = Vec::new();
    let mut quiet: Vec<Move> = Vec::new();
    let mut i: usize = 0;
    while i < moves.len()
        invariant
            0 <= i <= moves@.len(),
            p.wf(),
            v == p@,
            captures@ == moves_where(v, moves@.take(i as int), true),
            quiet@ == moves_where(v, moves@.take(i as int), false),
        decreases moves@.len() - i,
    {
        let mv = moves[i];
        proof {
            lemma_moves_where_take(v, moves@, i as int, true);
            lemma_moves_where_take(v, moves@, i as int, false);
        }
        if is_capture(p, mv) {
            captures.push(mv);
        } else {
            quiet.push(mv);
        }
        proof {
            assert(captures@ =~= moves_where(v, moves@.take(i + 1), true));
            assert(quiet@ =~= moves_where(v, moves@.take(i + 1), false));
        }
        i = i + 1;
    }
    let mut j: usize = 0;
    let ghost c0 = captures@;
    while j < quiet.len()
        invariant
            0 <= j <= quiet@.len(),
            captures@ == c0 + quiet@.take(j as int),
        decreases quiet@.len() - j,
    {
        captures.push(quiet[j]);
        proof {
            assert(captures@ =~= c0 + quiet@.take(j + 1));
        }
        j = j + 1;
    }
    proof {
        assert(moves@.take(moves@.len() as int) =~= moves@);
        assert(quiet@.take(quiet@.len() as int) =~= quiet@);
    }
    captures
}

// ---------------------------------------------------------------------------------------
// Transposition table.
// ---------------------------------------------------------------------------------------

/// `x` clamped to the range of `i32`.
pub open spec fn saturate(x: int) -> int {
    if x > i32::MAX {
        i32::MAX as int
    } else if x < i32::MIN {
        i32::MIN as int
    } else {
        x
    }
}

/// A score as stored in the table: mate scores are made relative to the node (`ply` plies
/// below the root) rather than to the root.
pub open spec fn score_to_table(score: int, ply: int) -> int {
    if score >= MATE - MAX_PLY {
        score + ply
    } else if score <= MAX_PLY - MATE {
        score - ply
    } else {
        score
    }
}

/// A stored score read back at a node `ply` plies below the root.
pub open spec fn score_from_table(score: int, ply: int) -> int {
    if score >= MATE - MAX_PLY {
        score - ply
    } else if score <= MAX_PLY - MATE {
        score + ply
    } else {
        score
    }
}

fn clamp_to_i32(x: i64) -> (r: i32)
    ensures
        r == saturate(x as int),
{
    if x > i32::MAX as i64 {
        i32::MAX
    } else if x < i32::MIN as i64 {
        i32::MIN
    } else {
        x as i32
    }
}

/// Converts a score for storage in the table (see `score_to_table`), saturating at the
/// bounds of `i32`.
pub fn score_to_tt(score: i32, ply: usize) -> (r: i32)
    requires
        ply <= i32::MAX,
    ensures
        r == saturate(score_to_table(score as int, ply as int)),
{
    let p = ply as i64;
    if score >= MATE - 64 {
        clamp_to_i32(score as i64 + p)
    } else if score <= 64 - MATE {
        clamp_to_i32(score as i64 - p)
    } else {
        score
    }
}

/// Converts a stored score back for a node `ply` plies below the root (see
/// `score_from_table`), saturating at the bounds of `i32`.
pub fn score_from_tt(score: i32, ply: usize) -> (r: i32)
    requires
        ply <= i32::MAX,
    ensures
        r == saturate(score_from_table(score as int, ply as int)),
{
    let p = ply as i64;
    if score >= MATE - 64 {
        clamp_to_i32(score as i64 - p)
    } else if score <= 64 - MATE {
        clamp_to_i32(score as i64 + p)
    } else {
        score
    }
}

/// A score stored at one ply and read back at another keeps its distance from the root: a
/// mate score moves by the difference of the plies, any other score is unchanged. Reading
/// back at the storing ply gives the score itself.
pub proof fn lemma_table_score_shift(score: int, stored_at: int, read_at: int)
    requires
        0 <= stored_at,
        0 <= read_at,
    ensures
        score_from_table(score_to_table(score, stored_at), read_at) == if score >= MATE - MAX_PLY {
            score + stored_at - read_at
        } else if score <= MAX_PLY - MATE {
            score - stored_at + read_at
        } else {
            score
        },
        score_from_table(score_to_table(score, stored_at), stored_at) == score,
{
}

/// What a stored score says of the node's value: it is the value, a lower bound on it, or an
/// upper bound on it.
#[derive(Clone, Copy, PartialEq, Eq, Structural)]
pub enum Bound {
    Exact,
    Lower,
    Upper,
}

/// One slot of the transposition table: the position's key and the key of its repetition
/// path, the depth searched, the score (mate scores relative to the node), what the score
/// bounds, and the best move found.
#[derive(Clone, Copy)]
pub struct TranspositionEntry {
    pub key: u64,
    pub history_key: u64,
    pub depth: u8,
    pub score: i32,
    pub bound: Bound,
    pub best_move: Option<Move>,
}

/// A fixed-size, direct-mapped table retained only for one iterative search.
///
/// Entries also carry a compact key for the current repetition path, so a bound is not
/// reused with different draw history.
struct TranspositionTable {
    entries: Vec<Option<TranspositionEntry>>,
}

/// The slot a key maps to.
pub open spec fn slot_of(key: u64) -> int {
    (key % 65536) as int
}

/// The entry the table holds for a position key and a repetition-path key, if any.
pub open spec fn table_lookup(entries: Seq<Option<TranspositionEntry>>, key: u64, history_key: u64) -> Option<
    TranspositionEntry,
> {
    match entries[slot_of(key)] {
        Some(e) => if e.key == key && e.history_key == history_key {
            Some(e)
        } else {
            None
        },
        None => None,
    }
}

/// The table after storing `e`: it replaces what its slot held unless that was searched
/// deeper.
pub open spec fn table_store(entries: Seq<Option<TranspositionEntry>>, e: TranspositionEntry) -> Seq<
    Option<TranspositionEntry>,
> {
    let s = slot_of(e.key);
    match entries[s] {
        Some(old) => if e.depth >= old.depth {
            entries.update(s, Some(e))
        } else {
            entries
        },
        None => entries.update(s, Some(e)),
    }
}

fn slot_index(key: u64) -> (r: usize)
    ensures
        r == slot_of(key),
        r < TT_SIZE,
{
    assert(key & 0xffff == key % 65536) by (bit_vector);
    assert(key & 0xffff < 65536) by (bit_vector);
    (key & 0xffff) as usize
}

impl TranspositionTable {
    spec fn wf(&self) -> bool {
        &&& self.entries@.len() == TT_SIZE
        &&& forall|i: int|
            0 <= i < TT_SIZE && (#[trigger] self.entries@[i]) is Some ==> self.entries@[i]->0.score
                > i32::MIN
    }

    spec fn is_empty(&self) -> bool {
        forall|i: int| 0 <= i < TT_SIZE ==> (#[trigger] self.entries@[i]) is None
    }

    fn new() -> (r: TranspositionTable)
        ensures
            r.wf(),
            r.is_empty(),
    {
        let mut entries: Vec<Option<TranspositionEntry>> = Vec::new();
        let mut i: usize = 0;
        while i < TT_SIZE
            invariant
                0 <= i <= TT_SIZE,
                entries@.len() == i,
                forall|k: int| 0 <= k < i ==> (#[trigger] entries@[k]) is None,
            decreases TT_SIZE - i,
        {
            entries.push(None);
            i = i + 1;
        }
        TranspositionTable { entries }
    }

    fn clear(&mut self)
        requires
            old(self).wf(),
        ensures
            final(self).wf(),
            final(self).is_empty(),
    {
        let mut i: usize = 0;
        while i < TT_SIZE
            invariant
                0 <= i <= TT_SIZE,
                self.wf(),
                forall|k: int| 0 <= k < i ==> (#[trigger] self.entries@[k]) is None,
            decreases TT_SIZE - i,
        {
            self.entries.set(i, None);
            i = i + 1;
        }
    }

    fn get(&self, key: u64, history_key: u64) -> (r: Option<TranspositionEntry>)
        requires
            self.wf(),
        ensures
            r == table_lookup(self.entries@, key, history_key),
            r is Some ==> r->0.score > i32::MIN,
    {
        match self.entries[slot_index(key)] {
            Some(e) => if e.key == key && e.history_key == history_key {
                Some(e)
            } else {
                None
            },
            None => None,
        }
    }

    fn store(&mut self, entry: TranspositionEntry)
        requires
            old(self).wf(),
            entry.score > i32::MIN,
        ensures
            final(self).wf(),
            final(self).entries@ == table_store(old(self).entries@, entry),
    {
        let s = slot_index(entry.key);
        let replace = match self.entries[s] {
            Some(old) => entry.depth >= old.depth,
            None => true,
        };
        if replace {
            self.entries.set(s, Some(entry));
        }
    }
}

// ---------------------------------------------------------------------------------------
// The searcher.
// ---------------------------------------------------------------------------------------

/// Search state: node count, time limit and cancel flag, the repetition path from the game's
/// last irreversible move to the current node, and the transposition table.
pub struct Searcher {
    nodes: u64,
    deadline: Option<Instant>,
    cancel: Option<Arc<AtomicBool>>,
    aborted: bool,
    path: Vec<u64>,
    tt: TranspositionTable,
    tt_enabled: bool,
}

proof fn lemma_occurrences_take(s: Seq<u64>, k: u64, i: int)
    requires
        0 <= i < s.len(),
    ensures
        occurrences(s.take(i + 1), k) == occurrences(s.take(i), k) + if s[i] == k {
            1nat
        } else {
            0nat
        },
{
    assert(s.take(i + 1).drop_last() =~= s.take(i));
}

proof fn lemma_path_hash_take(s: Seq<u64>, i: int)
    requires
        0 <= i < s.len(),
    ensures
        path_hash(s.take(i + 1)) == path_hash(s.take(i)).wrapping_add(mix(s[i])),
{
    assert(s.take(i + 1).drop_last() =~= s.take(i));
}

impl Searcher {
    /// The table invariant.
    pub closed spec fn wf(&self) -> bool {
        self.tt.wf()
    }

    /// Repetition keys from the game's last irreversible move to the current node.
    pub closed spec fn path_seq(&self) -> Seq<u64> {
        self.path@
    }

    /// The time limit passed or the search was cancelled.
    pub closed spec fn is_aborted(&self) -> bool {
        self.aborted
    }

    /// Neither a deadline nor a cancel flag is set, so the search is never cut short.
    pub closed spec fn unlimited(&self) -> bool {
        self.deadline is None && self.cancel is None
    }

    /// Whether the transposition table is consulted.
    pub closed spec fn uses_table(&self) -> bool {
        self.tt_enabled
    }

    /// The transposition table holds no entry.
    pub closed spec fn table_empty(&self) -> bool {
        self.tt.is_empty()
    }

    /// The slots of the transposition table.
    pub closed spec fn table_view(&self) -> Seq<Option<TranspositionEntry>> {
        self.tt.entries@
    }

    pub closed spec fn node_count(&self) -> u64 {
        self.nodes
    }

    /// `self` and `other` have the same deadline, cancel flag and table setting.
    pub closed spec fn same_limits(&self, other: Searcher) -> bool {
        self.deadline == other.deadline && self.cancel == other.cancel && self.tt_enabled
            == other.tt_enabled
    }

    /// A searcher with an empty table and no limits.
    pub fn new() -> (r: Searcher)
        ensures
            r.wf(),
            r.path_seq() == Seq::<u64>::empty(),
            !r.is_aborted(),
            r.unlimited(),
            r.uses_table(),
            r.table_empty(),
            r.node_count() == 0,
    {
        Searcher {
            nodes: 0,
            deadline: None,
            cancel: None,
            aborted: false,
            path: Vec::new(),
            tt: TranspositionTable::new(),
            tt_enabled: true,
        }
    }

    /// A searcher that never consults its transposition table.
    pub fn without_transposition_table() -> (r: Searcher)
        ensures
            r.wf(),
            r.path_seq() == Seq::<u64>::empty(),
            !r.is_aborted(),
            r.unlimited(),
            !r.uses_table(),
            r.table_empty(),
            r.node_count() == 0,
    {
        let mut s = Searcher::new();
        s.tt_enabled = false;
        s
    }

    /// Empties the transposition table.
    pub fn clear(&mut self)
        requires
            old(self).wf(),
        ensures
            final(self).wf(),
            final(self).table_empty(),
            final(self).path_seq() == old(self).path_seq(),
            final(self).is_aborted() == old(self).is_aborted(),
            final(self).node_count() == old(self).node_count(),
            final(self).same_limits(*old(self)),
    {
        self.tt.clear();
    }

    /// Replaces the repetition path (the keys of the positions leading to the next node
    /// searched, that node included).
    pub fn set_path(&mut self, path: Vec<u64>)
        requires
            old(self).wf(),
        ensures
            final(self).wf(),
            final(self).path_seq() == path@,
            final(self).is_aborted() == old(self).is_aborted(),
            final(self).node_count() == old(self).node_count(),
            final(self).same_limits(*old(self)),
    {
        self.path = path;
    }

    /// Nodes visited by the last search.
    pub fn nodes(&self) -> (r: u64)
        ensures
            r == self.node_count(),
    {
        self.nodes
    }

    /// Checks the clock and the cancel flag; once either fires, the search stays aborted.
    fn expired(&mut self) -> (r: bool)
        ensures
            r == final(self).aborted,
            old(self).aborted ==> r,
            old(self).unlimited() ==> r == old(self).aborted,
            final(self).path == old(self).path,
            final(self).tt == old(self).tt,
            final(self).nodes == old(self).nodes,
            final(self).same_limits(*old(self)),
    {
        let late = match &self.deadline {
            Some(deadline) => {
                let now = clock_now();
                instant_reached(&now, deadline)
            },
            None => false,
        };
        let stopped = match &self.cancel {
            Some(flag) => flag.load(std::sync::atomic::Ordering::Relaxed),
            None => false,
        };
        if late || stopped {
            self.aborted = true;
        }
        self.aborted
    }

    /// The last position on the path occurs on it at least three times.
    fn is_repetition(&self) -> (r: bool)
        ensures
            r == is_repeated(self.path@),
    {
        let n = self.path.len();
        if n == 0 {
            return false;
        }
        let last = self.path[n - 1];
        let mut count: usize = 0;
        let mut i: usize = 0;
        while i < n
            invariant
                0 <= i <= n,
                n == self.path@.len(),
                last == self.path@.last(),
                count == occurrences(self.path@.take(i as int), last),
                count <= i,
            decreases n - i,
        {
            proof {
                lemma_occurrences_take(self.path@, last, i as int);
            }
            if self.path[i] == last {
                count = count + 1;
            }
            i = i + 1;
        }
        proof {
            assert(self.path@.take(n as int) =~= self.path@);
        }
        count >= 3
    }

    /// The key of the whole repetition path, for telling table entries apart.
    fn repetition_path_key(&self) -> (r: u64)
        ensures
            r == path_hash(self.path@),
    {
        let mut key: u64 = 0;
        let mut i: usize = 0;
        while i < self.path.len()
            invariant
                0 <= i <= self.path@.len(),
                key == path_hash(self.path@.take(i as int)),
            decreases self.path@.len() - i,
        {
            proof {
                lemma_path_hash_take(self.path@, i as int);
            }
            key = key.wrapping_add(mix64(self.path[i]));
            i = i + 1;
        }
        proof {
            assert(self.path@.take(self.path@.len() as int) =~= self.path@);
        }
        key
    }
}

impl Default for Searcher {
    fn default() -> (r: Searcher)
        ensures
            r.wf(),
            r.path_seq() == Seq::<u64>::empty(),
            !r.is_aborted(),
            r.unlimited(),
            r.uses_table(),
            r.node_count() == 0,
    {
        Searcher::new()
    }
}

// ---------------------------------------------------------------------------------------
// Quiescence search.
// ---------------------------------------------------------------------------------------

/// The larger of two scores.
pub open spec fn max_score(a: int, b: int) -> int {
    if a >= b {
        a
    } else {
        b
    }
}

/// A move the quiescence search plays: any move out of check, otherwise captures and
/// promotions only.
pub open spec fn is_noisy(v: PositionView, m: Move, check: bool) -> bool {
    check || is_capture_move(v, m) || m.promotion is Some
}

/// What the quiescence search returns when it is not cut short: the settled score of a node
/// that needs no search; the static evaluation in check at the ply limit; `beta` when
/// standing pat already fails high; otherwise a score within the window, above the static
/// evaluation when not in check (exactly the better of `alpha` and the evaluation at the
/// ply limit).
pub open spec fn quiescence_outcome(v: PositionView, path: Seq<u64>, alpha: int, beta: int, ply: int, r: int) -> bool {
    match settled_value(v, path, ply) {
        Some(x) => r == x,
        None => if is_in_check(v, v.side) {
            if ply >= MAX_PLY {
                r == evaluation(v)
            } else {
                alpha < beta ==> alpha <= r <= beta
            }
        } else if evaluation(v) >= beta {
            r == beta
        } else if ply >= MAX_PLY {
            r == max_score(alpha, evaluation(v))
        } else {
            alpha < beta ==> max_score(alpha, evaluation(v)) <= r <= beta
        },
    }
}

/// `x` brought into the window `[lo, hi]`.
pub open spec fn clamp(x: int, lo: int, hi: int) -> int {
    if x < lo {
        lo
    } else if x > hi {
        hi
    } else {
        x
    }
}

/// One step of the quiescence loop: a reply that fails high makes the node's value fail high
/// too; otherwise the window's lower edge becomes the best value so far.
proof fn lemma_noisy_step(
    v: PositionView,
    path: Seq<u64>,
    ply: int,
    moves: Seq<Move>,
    check: bool,
    base: int,
    i: int,
    alpha_in: int,
    beta: int,
    alpha: int,
    score: int,
)
    requires
        0 <= i < moves.len(),
        ply < MAX_PLY,
        is_noisy(v, moves[i], check),
        best_noisy(v, path, ply, moves.take(i), check, base) < beta,
        alpha == max_score(alpha_in, best_noisy(v, path, ply, moves.take(i), check, base)),
        alpha_in < beta,
        clamp(score, alpha, beta) == clamp(
            -quiescence_value(spec_make(v, moves[i]), path_after(v, path, moves[i]), ply + 1),
            alpha,
            beta,
        ),
    ensures
        score >= beta ==> best_noisy(v, path, ply, moves, check, base) >= beta,
        score < beta ==> best_noisy(v, path, ply, moves.take(i + 1), check, base) < beta && max_score(
            alpha,
            score,
        ) == max_score(alpha_in, best_noisy(v, path, ply, moves.take(i + 1), check, base)),
{
    lemma_best_noisy_take(v, path, ply, moves, check, base, i);
    lemma_best_noisy_mono(v, path, ply, moves, check, base, i + 1);
}

/// The node count after visiting one more node (it stops at `u64::MAX`).
pub open spec fn bumped(n: u64) -> u64 {
    if n < u64::MAX {
        (n + 1) as u64
    } else {
        n
    }
}

/// The repetition path after playing `m`.
pub open spec fn path_after(v: PositionView, path: Seq<u64>, m: Move) -> Seq<u64> {
    path.push(board_key(spec_make(v, m)))
}

impl Searcher {
    /// Quiescence search: resolves captures and promotions (every move when in check) below
    /// the main search, with stand-pat and a fail-hard window. Checkmate and stalemate are
    /// recognized before the draw rules.
    pub fn quiescence(&mut self, p: &mut Position, alpha: i32, beta: i32, ply: usize) -> (r: i32)
        requires
            old(self).wf(),
            old(p).wf(),
            alpha > i32::MIN,
            beta > i32::MIN,
            ply <= i32::MAX,
        ensures
            final(self).wf(),
            *final(p) == *old(p),
            final(self).path_seq() == old(self).path_seq(),
            final(self).same_limits(*old(self)),
            final(self).node_count() >= old(self).node_count(),
            old(self).is_aborted() ==> final(self).is_aborted(),
            final(self).is_aborted() ==> r == 0,
            old(self).unlimited() ==> final(self).is_aborted() == old(self).is_aborted(),
            r > i32::MIN,
            !final(self).is_aborted() ==> quiescence_outcome(
                old(p)@,
                old(self).path_seq(),
                alpha as int,
                beta as int,
                ply as int,
                r as int,
            ),
            !final(self).is_aborted() && (settled_value(old(p)@, old(self).path_seq(), ply as int) is Some
                || (!is_in_check(old(p)@, old(p)@.side) && evaluation(old(p)@) >= beta))
                ==> final(self).node_count() == bumped(old(self).node_count()),
            !final(self).is_aborted() && -INF <= alpha < beta <= INF ==> clamp(r as int, alpha as int, beta as int)
                == clamp(quiescence_value(old(p)@, old(self).path_seq(), ply as int), alpha as int, beta as int),
            !final(self).is_aborted() ==> r == quiescence_score(
                old(p)@,
                old(self).path_seq(),
                alpha as int,
                beta as int,
                ply as int,
            ),
            final(self).table_view() == old(self).table_view(),
            !final(self).is_aborted() ==> final(self).node_count() == saturated(
                old(self).node_count() + quiescence_visits(
                    old(p)@,
                    old(self).path_seq(),
                    alpha as int,
                    beta as int,
                    ply as int,
                ),
            ),
        decreases MAX_PLY - ply, 1nat,
    {
        let ghost orig = *p;
        let ghost v = p@;
        let ghost s0 = *self;
        proof {
            lemma_quiescence_value_unfold(v, s0.path@, ply as int);
            lemma_quiescence_score_unfold(v, s0.path@, alpha as int, beta as int, ply as int);
            lemma_quiescence_visits_unfold(v, s0.path@, alpha as int, beta as int, ply as int);
        }
        self.nodes = if self.nodes < u64::MAX {
            self.nodes + 1
        } else {
            self.nodes
        };
        let ghost n1 = self.nodes;
        if self.expired() {
            return 0;
        }
        let us = p.side_to_move();
        let check = in_check(p, us);
        let mut moves: Vec<Move> = Vec::new();
        if check {
            moves = legal_moves(p);
            if moves.len() == 0 {
                return -MATE + ply as i32;
            }
        } else {
            if !has_legal_move(p) {
                return 0;
            }
        }
        if p.is_insufficient_material() || self.is_repetition() || p.halfmove_clock() >= 100 {
            return 0;
        }
        let stand = evaluate(p);
        let ghost alpha_in = alpha;
        let ghost base = if check {
            -(INF as int)
        } else {
            stand as int
        };
        let mut alpha = alpha;
        if !check {
            if stand >= beta {
                proof {
                    if ply < MAX_PLY {
                        lemma_best_noisy_mono(v, s0.path@, ply as int, legal_seq(v), check, base, 0);
                        assert(legal_seq(v).take(0) =~= Seq::<Move>::empty());
                        lemma_best_noisy_empty(v, s0.path@, ply as int, check, base);
                    }
                }
                return beta;
            }
            if stand > alpha {
                alpha = stand;
            }
        }
        if ply >= MAX_PLY {
            return if check {
                stand
            } else {
                alpha
            };
        }
        if !check {
            moves = legal_moves(p);
        }
        let ghost alpha0 = alpha;
        proof {
            assert(moves@.take(0) =~= Seq::<Move>::empty());
            lemma_best_noisy_empty(v, s0.path@, ply as int, check, base);
            lemma_noisy_window_empty(v, s0.path@, ply as int, check, alpha0 as int, beta as int);
            lemma_noisy_visits_empty(v, s0.path@, ply as int, check, alpha0 as int, beta as int);
        }
        let mut i: usize = 0;
        let mut cutoff = false;
        let mut stopped = false;
        while i < moves.len() && !cutoff && !stopped
            invariant
                0 <= i <= moves@.len(),
                *p == orig,
                orig == *old(p),
                orig.wf(),
                v == orig@,
                moves@ == legal_seq(v),
                forall|k: int| 0 <= k < moves@.len() ==> #[trigger] move_ok(v, moves@[k]),
                s0 == *old(self),
                self.wf(),
                self.path@ == s0.path@,
                self.tt.entries@ == s0.tt.entries@,
                self.same_limits(s0),
                stopped == self.aborted,
                s0.unlimited() ==> !self.aborted,
                self.nodes >= n1,
                n1 >= s0.nodes,
                ply < MAX_PLY,
                beta > i32::MIN,
                alpha > i32::MIN,
                alpha >= alpha0,
                alpha0 < beta ==> alpha < beta,
                !s0.aborted,
                settled_value(v, s0.path@, ply as int) is None,
                check == is_in_check(v, v.side),
                stand == evaluation(v),
                !check ==> stand < beta && alpha0 == max_score(alpha_in as int, stand as int),
                check ==> alpha0 == alpha_in,
                base == if check {
                    -(INF as int)
                } else {
                    stand as int
                },
                !stopped && -INF <= alpha_in < beta <= INF ==> if cutoff {
                    best_noisy(v, s0.path@, ply as int, moves@, check, base) >= beta
                } else {
                    let best = best_noisy(v, s0.path@, ply as int, moves@.take(i as int), check, base);
                    best < beta && alpha == max_score(alpha_in as int, best)
                },
                !stopped ==> self.nodes == saturated(
                    s0.nodes + 1 + noisy_visits(v, s0.path@, ply as int, moves@.take(i as int), check, alpha0 as int, beta as int),
                ),
                !stopped && cutoff ==> noisy_window(v, s0.path@, ply as int, moves@.take(i as int), check, alpha0 as int, beta as int) is None,
                !stopped ==> if cutoff {
                    noisy_window(v, s0.path@, ply as int, moves@, check, alpha0 as int, beta as int) is None
                } else {
                    noisy_window(v, s0.path@, ply as int, moves@.take(i as int), check, alpha0 as int, beta as int)
                        == Some(alpha as int)
                },
            decreases moves@.len() - i,
        {
            let mv = moves[i];
            assert(move_ok(v, moves@[i as int]));
            proof {
                lemma_best_noisy_take(v, s0.path@, ply as int, moves@, check, base, i as int);
                lemma_noisy_window_take(v, s0.path@, ply as int, moves@, check, alpha0 as int, beta as int, i as int);
                lemma_noisy_visits_take(v, s0.path@, ply as int, moves@, check, alpha0 as int, beta as int, i as int);
            }
            if check || is_capture(p, mv) || mv.promotion.is_some() {
                let score = self.quiescence_child(p, mv, beta, alpha, ply);
                if self.aborted {
                    stopped = true;
                } else {
                    proof {
                        if -INF <= alpha_in < beta <= INF {
                            lemma_noisy_step(v, s0.path@, ply as int, moves@, check, base, i as int, alpha_in as int, beta as int, alpha as int, score as int);
                        }
                    }
                    if score >= beta {
                        cutoff = true;
                        proof {
                            lemma_noisy_window_cut(v, s0.path@, ply as int, moves@, check, alpha0 as int, beta as int, i + 1);
                        }
                    } else if score > alpha {
                        alpha = score;
                    }
                }
            }
            i = i + 1;
        }
        if stopped {
            return 0;
        }
        if cutoff {
            proof {
                lemma_noisy_visits_cut(v, s0.path@, ply as int, moves@, check, alpha0 as int, beta as int, i as int);
            }
            return beta;
        }
        proof {
            assert(moves@.take(i as int) =~= moves@);
        }
        alpha
    }

    /// Plays `mv`, searches the reply with the window `[-beta, -alpha]` one ply deeper, and
    /// takes the move back; returns the score from the mover's point of view.
    fn quiescence_child(&mut self, p: &mut Position, mv: Move, beta: i32, alpha: i32, ply: usize) -> (r: i32)
        requires
            old(self).wf(),
            old(p).wf(),
            move_ok(old(p)@, mv),
            alpha > i32::MIN,
            beta > i32::MIN,
            ply < MAX_PLY,
        ensures
            final(self).wf(),
            *final(p) == *old(p),
            final(self).path@ == old(self).path@,
            final(self).same_limits(*old(self)),
            final(self).nodes >= old(self).nodes,
            old(self).aborted ==> final(self).aborted,
            old(self).unlimited() ==> final(self).aborted == old(self).aborted,
            r > i32::MIN,
            !final(self).aborted && -INF <= alpha < beta <= INF ==> clamp(r as int, alpha as int, beta as int)
                == clamp(
                -quiescence_value(spec_make(old(p)@, mv), path_after(old(p)@, old(self).path@, mv), ply + 1),
                alpha as int,
                beta as int,
            ),
            !final(self).aborted ==> r == -quiescence_score(
                spec_make(old(p)@, mv),
                path_after(old(p)@, old(self).path@, mv),
                -(beta as int),
                -(alpha as int),
                ply + 1,
            ),
            final(self).tt.entries@ == old(self).tt.entries@,
            !final(self).aborted ==> final(self).nodes == saturated(
                old(self).nodes + quiescence_visits(
                    spec_make(old(p)@, mv),
                    path_after(old(p)@, old(self).path@, mv),
                    -(beta as int),
                    -(alpha as int),
                    ply + 1,
                ),
            ),
        decreases MAX_PLY - ply, 0nat,
    {
        let ghost orig = *p;
        let ghost v = p@;
        let ghost path0 = self.path@;
        let undo = p.make_move(mv);
        let ghost after = *p;
        let key = repetition_key(p);
        self.path.push(key);
        let score = self.quiescence(p, -beta, -alpha, ply + 1);
        let _ = self.path.pop();
        proof {
            assert(self.path@ =~= path0);
            lemma_undo_castling(v, mv);
        }
        p.unmake_move(mv, undo);
        proof {
            lemma_make_unmake_restores(orig, after, *p, mv, undo);
        }
        -score
    }
}

// ---------------------------------------------------------------------------------------
// Main search.
// ---------------------------------------------------------------------------------------

/// One step of the main search loop: the best score so far agrees with the best value so far
/// inside the window, and the window's lower edge is the better of `alpha` and the best score.
proof fn lemma_reply_step(
    v: PositionView,
    path: Seq<u64>,
    depth: int,
    ply: int,
    moves: Seq<Move>,
    i: int,
    alpha: int,
    beta: int,
    lower: int,
    best: int,
    score: int,
)
    requires
        0 <= i < moves.len(),
        depth > 0,
        alpha < beta,
        clamp(best, alpha, beta) == clamp(best_reply(v, path, depth, ply, moves.take(i)), alpha, beta),
        lower == max_score(alpha, best),
        lower < beta,
        clamp(score, lower, beta) == clamp(
            -search_value(spec_make(v, moves[i]), path_after(v, path, moves[i]), depth - 1, ply + 1),
            lower,
            beta,
        ),
    ensures
        clamp(max_score(best, score), alpha, beta) == clamp(
            best_reply(v, path, depth, ply, moves.take(i + 1)),
            alpha,
            beta,
        ),
        max_score(lower, score) == max_score(alpha, max_score(best, score)),
        max_score(lower, score) >= beta ==> best_reply(v, path, depth, ply, moves) >= beta,
{
    lemma_best_reply_take(v, path, depth, ply, moves, i);
    lemma_best_reply_mono(v, path, depth, ply, moves, i + 1);
}

/// What the main search returns when it is not cut short: the quiescence outcome at depth 0
/// or at the ply limit; otherwise the settled score of a node that needs no search.
pub open spec fn negamax_outcome(v: PositionView, path: Seq<u64>, depth: int, alpha: int, beta: int, ply: int, r: int) -> bool {
    if depth == 0 || ply >= MAX_PLY {
        quiescence_outcome(v, path, alpha, beta, ply, r)
    } else {
        match settled_value(v, path, ply) {
            Some(x) => r == x,
            None => true,
        }
    }
}

impl Searcher {
    /// Fail-soft alpha-beta search to `depth` plies, `ply` plies below the root, handing
    /// over to the quiescence search at depth 0 or at the ply limit. Checkmate and stalemate
    /// are recognized before the draw rules; the transposition table, when enabled, supplies
    /// bounds and a move to try first, and receives the result.
    pub fn negamax(&mut self, p: &mut Position, depth: u8, alpha: i32, beta: i32, ply: usize) -> (r: i32)
        requires
            old(self).wf(),
            old(p).wf(),
            alpha > i32::MIN,
            beta > i32::MIN,
            ply <= i32::MAX,
        ensures
            final(self).wf(),
            *final(p) == *old(p),
            final(self).path_seq() == old(self).path_seq(),
            final(self).same_limits(*old(self)),
            final(self).node_count() >= old(self).node_count(),
            old(self).is_aborted() ==> final(self).is_aborted(),
            final(self).is_aborted() ==> r == 0,
            old(self).unlimited() ==> final(self).is_aborted() == old(self).is_aborted(),
            r > i32::MIN,
            !final(self).is_aborted() ==> negamax_outcome(
                old(p)@,
                old(self).path_seq(),
                depth as int,
                alpha as int,
                beta as int,
                ply as int,
                r as int,
            ),
            !final(self).is_aborted() && !old(self).uses_table() && -INF <= alpha < beta <= INF ==> clamp(
                r as int,
                alpha as int,
                beta as int,
            ) == clamp(search_value(old(p)@, old(self).path_seq(), depth as int, ply as int), alpha as int, beta as int),
            !final(self).is_aborted() ==> (r as int, final(self).table_view()) == negamax_score(
                old(p)@,
                old(self).path_seq(),
                depth as int,
                alpha as int,
                beta as int,
                ply as int,
                old(self).table_view(),
                old(self).uses_table(),
            ),
            final(self).node_count() > 0,
            !final(self).is_aborted() ==> final(self).node_count() == saturated(
                old(self).node_count() + negamax_visits(
                    old(p)@,
                    old(self).path_seq(),
                    depth as int,
                    alpha as int,
                    beta as int,
                    ply as int,
                    old(self).table_view(),
                    old(self).uses_table(),
                ),
            ),
        decreases depth, 2nat,
    {
        let ghost orig = *p;
        let ghost v = p@;
        let ghost s0 = *self;
        proof {
            lemma_search_value_unfold(v, s0.path@, depth as int, ply as int);
            lemma_negamax_score_unfold(
                v,
                s0.path@,
                depth as int,
                alpha as int,
                beta as int,
                ply as int,
                s0.tt.entries@,
                s0.tt_enabled,
            );            lemma_negamax_visits_unfold(
                v,
                s0.path@,
                depth as int,
                alpha as int,
                beta as int,
                ply as int,
                s0.tt.entries@,
                s0.tt_enabled,
            );
        }
        self.nodes = if self.nodes < u64::MAX {
            self.nodes + 1
        } else {
            self.nodes
        };
        if self.expired() {
            return 0;
        }
        if depth == 0 || ply >= MAX_PLY {
            return self.quiescence(p, alpha, beta, ply);
        }
        let us = p.side_to_move();
        let check = in_check(p, us);
        let mut moves = legal_moves(p);
        if moves.len() == 0 {
            return if check {
                -MATE + ply as i32
            } else {
                0
            };
        }
        if p.is_insufficient_material() || self.is_repetition() || p.halfmove_clock() >= 100 {
            return 0;
        }
        let key = p.zobrist_hash();
        let history_key = self.repetition_path_key();
        let ghost alpha_in = alpha;
        let ghost beta_in = beta;
        let ghost probe = if s0.tt_enabled {
            table_lookup(s0.tt.entries@, position_key(v), path_hash(s0.path@))
        } else {
            None
        };
        let ghost outcome = probe_outcome(probe, depth as int, ply as int, alpha as int, beta as int);
        let mut alpha = alpha;
        let mut beta = beta;
        if self.tt_enabled {
            match self.tt.get(key, history_key) {
                Some(entry) => {
                    if entry.depth >= depth {
                        let score = score_from_tt(entry.score, ply);
                        match entry.bound {
                            Bound::Exact => {
                                return score;
                            },
                            Bound::Lower => {
                                if score > alpha {
                                    alpha = score;
                                }
                            },
                            Bound::Upper => {
                                if score < beta {
                                    beta = score;
                                }
                            },
                        }
                        if alpha >= beta {
                            return score;
                        }
                    }
                    match entry.best_move {
                        Some(best_move) => {
                            put_first(&mut moves, best_move, Ghost(v));
                        },
                        None => {},
                    }
                },
                None => {},
            }
        }
        assert(outcome.0 is None && alpha == outcome.1 && beta == outcome.2);
        assert(moves@ == ordered_moves(legal_seq(v), probe));
        let alpha_bound = alpha;
        let beta_bound = beta;
        let ghost before = self.tt.entries@;
        let (best, best_move) = self.search_moves(p, &moves, depth, alpha, beta, ply);
        if self.aborted {
            return 0;
        }
        let ghost w = reply_window(v, s0.path@, depth as int, ply as int, moves@, alpha as int, beta as int, before, s0.tt_enabled);
        if self.tt_enabled {
            let bound = if best <= alpha_bound {
                Bound::Upper
            } else if best >= beta_bound {
                Bound::Lower
            } else {
                Bound::Exact
            };
            let stored = score_to_tt(best, ply);
            let entry = TranspositionEntry { key, history_key, depth, score: stored, bound, best_move };
            assert(entry == stored_entry(v, s0.path@, depth as int, ply as int, w.0, w.1, alpha as int, beta as int));
            self.tt.store(entry);
        }
        best
    }

    /// Searches the moves in order with a fail-soft window, stopping at a cutoff; returns the
    /// best score and the first move that reached it.
    fn search_moves(&mut self, p: &mut Position, moves: &Vec<Move>, depth: u8, alpha: i32, beta: i32, ply: usize) -> (r: (i32, Option<Move>))
        requires
            old(self).wf(),
            old(p).wf(),
            forall|k: int| 0 <= k < moves@.len() ==> #[trigger] move_ok(old(p)@, moves@[k]),
            depth > 0,
            ply < MAX_PLY,
            alpha > i32::MIN,
            beta > i32::MIN,
            !old(self).aborted,
        ensures
            final(self).wf(),
            *final(p) == *old(p),
            final(self).path@ == old(self).path@,
            final(self).same_limits(*old(self)),
            final(self).nodes >= old(self).nodes,
            old(self).unlimited() ==> !final(self).aborted,
            r.0 >= -INF,
            !final(self).aborted && !old(self).tt_enabled && -INF <= alpha < beta <= INF ==> clamp(
                r.0 as int,
                alpha as int,
                beta as int,
            ) == clamp(best_reply(old(p)@, old(self).path@, depth as int, ply as int, moves@), alpha as int, beta as int),
            !final(self).aborted ==> ({
                let w = reply_window(
                    old(p)@,
                    old(self).path@,
                    depth as int,
                    ply as int,
                    moves@,
                    alpha as int,
                    beta as int,
                    old(self).tt.entries@,
                    old(self).tt_enabled,
                );
                r.0 as int == w.0 && r.1 == w.1 && final(self).tt.entries@ == w.4
            }),
            !final(self).aborted ==> final(self).nodes == saturated(
                old(self).nodes + reply_visits(
                    old(p)@,
                    old(self).path@,
                    depth as int,
                    ply as int,
                    moves@,
                    alpha as int,
                    beta as int,
                    old(self).tt.entries@,
                    old(self).tt_enabled,
                ),
            ),
        decreases depth, 1nat,
    {
        let ghost orig = *p;
        let ghost v = p@;
        let ghost s0 = *self;
        let ghost alpha_in = alpha;
        let ghost beta_in = beta;
        let mut alpha = alpha;
        let mut best: i32 = -INF;
        let mut best_move: Option<Move> = None;
        proof {
            assert(moves@.take(0) =~= Seq::<Move>::empty());
            lemma_best_reply_empty(v, s0.path@, depth as int, ply as int);
            lemma_reply_window_empty(v, s0.path@, depth as int, ply as int, alpha as int, beta as int, s0.tt.entries@, s0.tt_enabled);
            lemma_reply_visits_empty(v, s0.path@, depth as int, ply as int, alpha as int, beta as int, s0.tt.entries@, s0.tt_enabled);
        }
        let mut i: usize = 0;
        let mut cut = false;
        let mut stopped = false;
        while i < moves.len() && !cut && !stopped
            invariant
                0 <= i <= moves@.len(),
                *p == orig,
                orig == *old(p),
                orig.wf(),
                v == orig@,
                forall|k: int| 0 <= k < moves@.len() ==> #[trigger] move_ok(v, moves@[k]),
                s0 == *old(self),
                self.wf(),
                self.path@ == s0.path@,
                self.same_limits(s0),
                stopped == self.aborted,
                s0.unlimited() ==> !self.aborted,
                self.nodes >= s0.nodes,
                0 < depth,
                ply < MAX_PLY,
                beta > i32::MIN,
                alpha > i32::MIN,
                best >= -INF,
                beta == beta_in,
                !stopped && !s0.tt_enabled && -INF <= alpha_in < beta_in <= INF ==> {
                    &&& clamp(best as int, alpha_in as int, beta_in as int) == clamp(
                        best_reply(v, s0.path@, depth as int, ply as int, moves@.take(i as int)),
                        alpha_in as int,
                        beta_in as int,
                    )
                    &&& alpha == max_score(alpha_in as int, best as int)
                    &&& if cut {
                        best_reply(v, s0.path@, depth as int, ply as int, moves@) >= beta_in && alpha >= beta
                    } else {
                        alpha < beta
                    }
                },
                !stopped ==> reply_window(
                    v,
                    s0.path@,
                    depth as int,
                    ply as int,
                    moves@.take(i as int),
                    alpha_in as int,
                    beta_in as int,
                    s0.tt.entries@,
                    s0.tt_enabled,
                ) == (best as int, best_move, alpha as int, cut, self.tt.entries@),
                !stopped ==> self.nodes == saturated(
                    s0.nodes + reply_visits(
                        v,
                        s0.path@,
                        depth as int,
                        ply as int,
                        moves@.take(i as int),
                        alpha_in as int,
                        beta_in as int,
                        s0.tt.entries@,
                        s0.tt_enabled,
                    ),
                ),
                self.tt_enabled == s0.tt_enabled,
            decreases moves@.len() - i,
        {
            let mv = moves[i];
            assert(move_ok(v, moves@[i as int]));
            proof {
                lemma_reply_window_take(v, s0.path@, depth as int, ply as int, moves@, alpha_in as int, beta_in as int, s0.tt.entries@, s0.tt_enabled, i as int);
                lemma_reply_visits_take(v, s0.path@, depth as int, ply as int, moves@, alpha_in as int, beta_in as int, s0.tt.entries@, s0.tt_enabled, i as int);
            }
            let score = self.negamax_child(p, mv, depth, beta, alpha, ply);
            if self.aborted {
                stopped = true;
            } else {
                proof {
                    if !s0.tt_enabled && -INF <= alpha_in < beta_in <= INF {
                        lemma_reply_step(
                            v,
                            s0.path@,
                            depth as int,
                            ply as int,
                            moves@,
                            i as int,
                            alpha_in as int,
                            beta_in as int,
                            alpha as int,
                            best as int,
                            score as int,
                        );
                    }
                }
                if score > best {
                    best = score;
                    best_move = Some(mv);
                }
                if score > alpha {
                    alpha = score;
                }
                if alpha >= beta {
                    cut = true;
                }
            }
            i = i + 1;
        }
        proof {
            if !cut && !stopped {
                assert(moves@.take(i as int) =~= moves@);
            }
            if cut && !stopped {
                lemma_reply_window_cut(v, s0.path@, depth as int, ply as int, moves@, alpha_in as int, beta_in as int, s0.tt.entries@, s0.tt_enabled, i as int);
                lemma_reply_visits_cut(v, s0.path@, depth as int, ply as int, moves@, alpha_in as int, beta_in as int, s0.tt.entries@, s0.tt_enabled, i as int);
            }
        }
        (best, best_move)
    }

    /// Plays `mv`, searches the reply to `depth - 1` plies with the window `[-beta, -alpha]`,
    /// and takes the move back; returns the score from the mover's point of view.
    fn negamax_child(&mut self, p: &mut Position, mv: Move, depth: u8, beta: i32, alpha: i32, ply: usize) -> (r: i32)
        requires
            old(self).wf(),
            old(p).wf(),
            move_ok(old(p)@, mv),
            depth > 0,
            alpha > i32::MIN,
            beta > i32::MIN,
            ply < MAX_PLY,
        ensures
            final(self).wf(),
            *final(p) == *old(p),
            final(self).path@ == old(self).path@,
            final(self).same_limits(*old(self)),
            final(self).nodes >= old(self).nodes,
            old(self).aborted ==> final(self).aborted,
            old(self).unlimited() ==> final(self).aborted == old(self).aborted,
            r > i32::MIN,
            !final(self).aborted && !old(self).tt_enabled && -INF <= alpha < beta <= INF ==> clamp(
                r as int,
                alpha as int,
                beta as int,
            ) == clamp(
                -search_value(spec_make(old(p)@, mv), path_after(old(p)@, old(self).path@, mv), depth - 1, ply + 1),
                alpha as int,
                beta as int,
            ),
            !final(self).aborted ==> ({
                let c = negamax_score(
                    spec_make(old(p)@, mv),
                    path_after(old(p)@, old(self).path@, mv),
                    depth - 1,
                    -(beta as int),
                    -(alpha as int),
                    ply + 1,
                    old(self).tt.entries@,
                    old(self).tt_enabled,
                );
                r as int == -c.0 && final(self).tt.entries@ == c.1
            }),
            final(self).nodes > 0,
            !final(self).aborted ==> final(self).nodes == saturated(
                old(self).nodes + negamax_visits(
                    spec_make(old(p)@, mv),
                    path_after(old(p)@, old(self).path@, mv),
                    depth - 1,
                    -(beta as int),
                    -(alpha as int),
                    ply + 1,
                    old(self).tt.entries@,
                    old(self).tt_enabled,
                ),
            ),
        decreases depth, 0nat,
    {
        let ghost orig = *p;
        let ghost v = p@;
        let ghost path0 = self.path@;
        let undo = p.make_move(mv);
        let ghost after = *p;
        let key = repetition_key(p);
        self.path.push(key);
        let score = self.negamax(p, depth - 1, -beta, -alpha, ply + 1);
        let _ = self.path.pop();
        proof {
            assert(self.path@ =~= path0);
            lemma_undo_castling(v, mv);
        }
        p.unmake_move(mv, undo);
        proof {
            lemma_make_unmake_restores(orig, after, *p, mv, undo);
        }
        -score
    }
}

/// Moves `best_move` to the front of `moves` (swapping it with the first move), if present.
fn put_first(moves: &mut Vec<Move>, best_move: Move, Ghost(v): Ghost<PositionView>)
    requires
        forall|k: int| 0 <= k < old(moves)@.len() ==> #[trigger] move_ok(v, old(moves)@[k]),
    ensures
        final(moves)@.len() == old(moves)@.len(),
        forall|k: int| 0 <= k < final(moves)@.len() ==> #[trigger] move_ok(v, final(moves)@[k]),
        final(moves)@ == put_first_seq(old(moves)@, best_move),
{
    let mut j: usize = 0;
    while j < moves.len()
        invariant
            0 <= j <= moves@.len(),
            moves@ == old(moves)@,
            forall|k: int| 0 <= k < moves@.len() ==> #[trigger] move_ok(v, moves@[k]),
            forall|k: int| 0 <= k < j ==> moves@[k] != best_move,
        decreases moves@.len() - j,
    {
        if moves[j] == best_move {
            let ghost s = moves@;
            proof {
                let jj = j as int;
                assert(0 <= jj < s.len() && s[jj] == best_move && forall|k: int| 0 <= k < jj ==> s[k] != best_move);
                assert(s.contains(best_move));
                let c = choose|c: int|
                    0 <= c < s.len() && s[c] == best_move && forall|k: int| 0 <= k < c ==> s[k] != best_move;
                if c < jj {
                    assert(s[c] != best_move);
                }
                if jj < c {
                    assert(s[jj] != best_move);
                }
                assert(c == jj);
            }
            let first = moves[0];
            let found = moves[j];
            assert(move_ok(v, moves@[0]));
            assert(move_ok(v, moves@[j as int]));
            moves.set(0, found);
            moves.set(j, first);
            proof {
                assert(moves@ == s.update(0, s[j as int]).update(j as int, s[0]));
            }
            return;
        }
        j = j + 1;
    }
    proof {
        assert(!old(moves)@.contains(best_move));
    }
}

// ---------------------------------------------------------------------------------------
// Root search.
// ---------------------------------------------------------------------------------------

/// The repetition path a search starts from: the positions of `history` that the last
/// `halfmove` reversible moves could repeat, then the root itself.
pub open spec fn root_path(history: Seq<u64>, halfmove: int, root_key: u64) -> Seq<u64> {
    let start = if history.len() >= halfmove {
        history.len() - halfmove
    } else {
        0
    };
    history.subrange(start, history.len() as int).push(root_key)
}

/// In the iteration to `d` plies of iterative deepening (from the table the iterations before
/// left), the first legal move, searched with the full window, scores above `-INF`.
pub open spec fn first_move_scores(v: PositionView, path: Seq<u64>, d: int, tt: bool) -> bool {
    let m = legal_seq(v)[0];
    -negamax_score(
        spec_make(v, m),
        path_after(v, path, m),
        d - 1,
        -(INF as int),
        INF as int,
        1,
        deepening(v, path, d - 1, tt).3,
        tt,
    ).0 > -(INF as int)
}

/// What a root search reports: for a root with no legal move or a recognized draw, no move,
/// the settled score, depth 0 and no nodes; otherwise one of the legal moves, which is the
/// first move with captures ordered first (and the score 0) when no iteration completed.
pub open spec fn root_outcome(v: PositionView, path: Seq<u64>, result: SearchResult) -> bool {
    match settled_value(v, path, 0) {
        Some(x) => {
            &&& result.best_move is None
            &&& result.score == x
            &&& result.depth == 0
            &&& result.nodes == 0
        },
        None => {
            &&& result.best_move matches Some(m) && legal_seq(v).contains(m)
            &&& result.depth == 0 ==> result.best_move == Some(captures_first(v, legal_seq(v))[0])
                && result.score == 0
        },
    }
}

impl Searcher {
    /// Iterative deepening to `max_depth` plies from the start position of the game, without
    /// earlier history; `limit` bounds the time spent.
    pub fn search(&mut self, position: &mut Position, max_depth: u8, limit: Option<Duration>) -> (result: SearchResult)
        requires
            old(self).wf(),
            old(position).wf(),
        ensures
            final(self).wf(),
            *final(position) == *old(position),
            final(self).path_seq() == root_path(
                Seq::<u64>::empty(),
                old(position)@.halfmove as int,
                board_key(old(position)@),
            ),
            final(self).uses_table() == old(self).uses_table(),
            limit is None ==> final(self).unlimited(),
            limit is None && !old(self).uses_table() && max_depth >= 1 && settled_value(
                old(position)@,
                root_path(Seq::<u64>::empty(), old(position)@.halfmove as int, board_key(old(position)@)),
                0,
            ) is None && root_values_in_range(
                old(position)@,
                root_path(Seq::<u64>::empty(), old(position)@.halfmove as int, board_key(old(position)@)),
                max_depth as int,
            ) ==> result.depth == max_depth && (result.score as int, result.best_move) == root_choice(
                old(position)@,
                root_path(Seq::<u64>::empty(), old(position)@.halfmove as int, board_key(old(position)@)),
                max_depth as int,
                legal_seq(old(position)@),
            ),
            result.depth <= max_depth,
            result.score >= -INF,
            result.nodes == final(self).node_count(),
            root_outcome(
                old(position)@,
                root_path(Seq::<u64>::empty(), old(position)@.halfmove as int, board_key(old(position)@)),
                result,
            ),            limit is None && settled_value(
                old(position)@,
                root_path(Seq::<u64>::empty(), old(position)@.halfmove as int, board_key(old(position)@)),
                0,
            ) is None ==> (result.score as int, result.best_move, result.depth as int) == deepened(
                old(position)@,
                root_path(Seq::<u64>::empty(), old(position)@.halfmove as int, board_key(old(position)@)),
                max_depth as int,
                old(self).uses_table(),
            ),
            limit is None && max_depth >= 1 && settled_value(
                old(position)@,
                root_path(Seq::<u64>::empty(), old(position)@.halfmove as int, board_key(old(position)@)),
                0,
            ) is None ==> result.nodes > 0,
            limit is None && settled_value(
                old(position)@,
                root_path(Seq::<u64>::empty(), old(position)@.halfmove as int, board_key(old(position)@)),
                0,
            ) is None ==> result.nodes == saturated(
                deepening_visits(
                    old(position)@,
                    root_path(Seq::<u64>::empty(), old(position)@.halfmove as int, board_key(old(position)@)),
                    max_depth as int,
                    old(self).uses_table(),
                ) as int,
            ),
            settled_value(
                old(position)@,
                root_path(Seq::<u64>::empty(), old(position)@.halfmove as int, board_key(old(position)@)),
                0,
            ) is None && result.depth >= 1 ==> ({
                let r = deepened(
                    old(position)@,
                    root_path(Seq::<u64>::empty(), old(position)@.halfmove as int, board_key(old(position)@)),
                    result.depth as int,
                    old(self).uses_table(),
                );
                result.score as int == r.0 && result.best_move == r.1
            }),
            limit is None && max_depth >= 1 && settled_value(
                old(position)@,
                root_path(Seq::<u64>::empty(), old(position)@.halfmove as int, board_key(old(position)@)),
                0,
            ) is None && first_move_scores(
                old(position)@,
                root_path(Seq::<u64>::empty(), old(position)@.halfmove as int, board_key(old(position)@)),
                max_depth as int,
                old(self).uses_table(),
            ) ==> result.depth == max_depth,
    {
        let history: Vec<u64> = Vec::new();
        self.search_with_history(position, max_depth, limit, history.as_slice())
    }

    /// Search using repetition keys for game positions preceding `position`.
    /// The current position is added internally, so history must exclude it.
    pub fn search_with_history(
        &mut self,
        position: &mut Position,
        max_depth: u8,
        limit: Option<Duration>,
        history: &[u64],
    ) -> (result: SearchResult)
        requires
            old(self).wf(),
            old(position).wf(),
        ensures
            final(self).wf(),
            *final(position) == *old(position),
            final(self).path_seq() == root_path(
                history@,
                old(position)@.halfmove as int,
                board_key(old(position)@),
            ),
            final(self).uses_table() == old(self).uses_table(),
            limit is None ==> final(self).unlimited(),
            limit is None && !old(self).uses_table() && max_depth >= 1 && settled_value(
                old(position)@,
                root_path(history@, old(position)@.halfmove as int, board_key(old(position)@)),
                0,
            ) is None && root_values_in_range(
                old(position)@,
                root_path(history@, old(position)@.halfmove as int, board_key(old(position)@)),
                max_depth as int,
            ) ==> result.depth == max_depth && (result.score as int, result.best_move) == root_choice(
                old(position)@,
                root_path(history@, old(position)@.halfmove as int, board_key(old(position)@)),
                max_depth as int,
                legal_seq(old(position)@),
            ),
            result.depth <= max_depth,
            result.score >= -INF,
            result.nodes == final(self).node_count(),
            root_outcome(
                old(position)@,
                root_path(history@, old(position)@.halfmove as int, board_key(old(position)@)),
                result,
            ),
            limit is None && settled_value(
                old(position)@,
                root_path(history@, old(position)@.halfmove as int, board_key(old(position)@)),
                0,
            ) is None ==> (result.score as int, result.best_move, result.depth as int) == deepened(
                old(position)@,
                root_path(history@, old(position)@.halfmove as int, board_key(old(position)@)),
                max_depth as int,
                old(self).uses_table(),
            ),
            limit is None && max_depth >= 1 && settled_value(
                old(position)@,
                root_path(history@, old(position)@.halfmove as int, board_key(old(position)@)),
                0,
            ) is None ==> result.nodes > 0,
            limit is None && settled_value(
                old(position)@,
                root_path(history@, old(position)@.halfmove as int, board_key(old(position)@)),
                0,
            ) is None ==> result.nodes == saturated(
                deepening_visits(
                    old(position)@,
                    root_path(history@, old(position)@.halfmove as int, board_key(old(position)@)),
                    max_depth as int,
                    old(self).uses_table(),
                ) as int,
            ),
            settled_value(
                old(position)@,
                root_path(history@, old(position)@.halfmove as int, board_key(old(position)@)),
                0,
            ) is None && result.depth >= 1 ==> ({
                let r = deepened(
                    old(position)@,
                    root_path(history@, old(position)@.halfmove as int, board_key(old(position)@)),
                    result.depth as int,
                    old(self).uses_table(),
                );
                result.score as int == r.0 && result.best_move == r.1
            }),
            limit is None && max_depth >= 1 && settled_value(
                old(position)@,
                root_path(history@, old(position)@.halfmove as int, board_key(old(position)@)),
                0,
            ) is None && first_move_scores(
                old(position)@,
                root_path(history@, old(position)@.halfmove as int, board_key(old(position)@)),
                max_depth as int,
                old(self).uses_table(),
            ) ==> result.depth == max_depth,
    {
        self.search_with_history_cancelled(position, max_depth, limit, history, None)
    }

    /// `search_with_history`, stopping early once `cancel` is set.
    pub fn search_with_history_cancelled(
        &mut self,
        position: &mut Position,
        max_depth: u8,
        limit: Option<Duration>,
        history: &[u64],
        cancel: Option<Arc<AtomicBool>>,
    ) -> (result: SearchResult)
        requires
            old(self).wf(),
            old(position).wf(),
        ensures
            final(self).wf(),
            *final(position) == *old(position),
            final(self).path_seq() == root_path(
                history@,
                old(position)@.halfmove as int,
                board_key(old(position)@),
            ),
            final(self).uses_table() == old(self).uses_table(),
            limit is None && cancel is None ==> final(self).unlimited(),
            limit is None && cancel is None && !old(self).uses_table() && max_depth >= 1 && settled_value(
                old(position)@,
                root_path(history@, old(position)@.halfmove as int, board_key(old(position)@)),
                0,
            ) is None && root_values_in_range(
                old(position)@,
                root_path(history@, old(position)@.halfmove as int, board_key(old(position)@)),
                max_depth as int,
            ) ==> result.depth == max_depth && (result.score as int, result.best_move) == root_choice(
                old(position)@,
                root_path(history@, old(position)@.halfmove as int, board_key(old(position)@)),
                max_depth as int,
                legal_seq(old(position)@),
            ),
            result.depth <= max_depth,
            result.score >= -INF,
            result.nodes == final(self).node_count(),
            root_outcome(
                old(position)@,
                root_path(history@, old(position)@.halfmove as int, board_key(old(position)@)),
                result,
            ),
            limit is None && cancel is None && settled_value(
                old(position)@,
                root_path(history@, old(position)@.halfmove as int, board_key(old(position)@)),
                0,
            ) is None ==> (result.score as int, result.best_move, result.depth as int) == deepened(
                old(position)@,
                root_path(history@, old(position)@.halfmove as int, board_key(old(position)@)),
                max_depth as int,
                old(self).uses_table(),
            ),
            limit is None && cancel is None && max_depth >= 1 && settled_value(
                old(position)@,
                root_path(history@, old(position)@.halfmove as int, board_key(old(position)@)),
                0,
            ) is None ==> result.nodes > 0,
            limit is None && cancel is None && settled_value(
                old(position)@,
                root_path(history@, old(position)@.halfmove as int, board_key(old(position)@)),
                0,
            ) is None ==> result.nodes == saturated(
                deepening_visits(
                    old(position)@,
                    root_path(history@, old(position)@.halfmove as int, board_key(old(position)@)),
                    max_depth as int,
                    old(self).uses_table(),
                ) as int,
            ),
            settled_value(
                old(position)@,
                root_path(history@, old(position)@.halfmove as int, board_key(old(position)@)),
                0,
            ) is None && result.depth >= 1 ==> ({
                let r = deepened(
                    old(position)@,
                    root_path(history@, old(position)@.halfmove as int, board_key(old(position)@)),
                    result.depth as int,
                    old(self).uses_table(),
                );
                result.score as int == r.0 && result.best_move == r.1
            }),
            limit is None && cancel is None && max_depth >= 1 && settled_value(
                old(position)@,
                root_path(history@, old(position)@.halfmove as int, board_key(old(position)@)),
                0,
            ) is None && first_move_scores(
                old(position)@,
                root_path(history@, old(position)@.halfmove as int, board_key(old(position)@)),
                max_depth as int,
                old(self).uses_table(),
            ) ==> result.depth == max_depth,
    {
        let ghost orig = *position;
        let ghost v = position@;
        self.nodes = 0;
        self.aborted = false;
        self.cancel = cancel;
        self.deadline = match limit {
            Some(d) => instant_after(clock_now(), d),
            None => None,
        };
        self.tt.clear();
        let keep = position.halfmove_clock() as usize;
        let start = if history.len() >= keep {
            history.len() - keep
        } else {
            0
        };
        let mut path: Vec<u64> = Vec::new();
        let mut k = start;
        while k < history.len()
            invariant
                start <= k <= history@.len(),
                path@ == history@.subrange(start as int, k as int),
            decreases history@.len() - k,
        {
            path.push(history[k]);
            proof {
                assert(path@ =~= history@.subrange(start as int, k + 1));
            }
            k = k + 1;
        }
        self.path = path;
        let root_key = repetition_key(position);
        self.path.push(root_key);
        let ghost path0 = self.path@;
        proof {
            assert(path0 =~= root_path(history@, v.halfmove as int, board_key(v)));
        }
        let moves = legal_moves(position);
        let ordered = order_captures_first(position, &moves);
        proof {
            if moves@.len() > 0 {
                lemma_captures_first_head(v, moves@);
            }
        }
        let mut result = SearchResult {
            best_move: if ordered.len() > 0 {
                Some(ordered[0])
            } else {
                None
            },
            score: 0,
            depth: 0,
            nodes: 0,
        };
        if moves.len() == 0 {
            result.score = if in_check(position, position.side_to_move()) {
                -MATE
            } else {
                0
            };
            return result;
        }
        if position.is_insufficient_material() || self.is_repetition() || position.halfmove_clock()
            >= 100 {
            result.best_move = None;
            result.score = 0;
            return result;
        }
        let ghost fallback = result;
        let ghost unl = limit is None && cancel is None;
        proof {
            assert(self.tt.entries@ =~= empty_table());
            lemma_deepening_start(v, path0, old(self).tt_enabled);
            lemma_deepening_visits_step(v, path0, 1, old(self).tt_enabled);
        }
        let ghost exact = limit is None && cancel is None && !old(self).tt_enabled && max_depth >= 1
            && root_values_in_range(v, path0, max_depth as int);
        let mut stopped = false;
        let mut d: u16 = 1;
        while d <= max_depth as u16 && !stopped
            invariant
                1 <= d <= max_depth as u16 + 1,
                *position == orig,
                orig.wf(),
                v == orig@,
                self.wf(),
                self.path@ == path0,
                path0 == root_path(history@, v.halfmove as int, board_key(v)),
                settled_value(v, path0, 0) is None,
                legal_seq(v).len() > 0,
                fallback.best_move == Some(captures_first(v, legal_seq(v))[0]),
                fallback.score == 0,
                legal_seq(v).contains(captures_first(v, legal_seq(v))[0]),
                result.best_move matches Some(m) && legal_seq(v).contains(m),
                result.depth < d,
                result.depth <= max_depth,
                result.depth == 0 ==> result.best_move == fallback.best_move && result.score == 0,
                result.score >= -INF,
                result.nodes == 0,
                self.tt_enabled == old(self).tt_enabled,
                limit is None && cancel is None ==> self.unlimited(),
                stopped == self.aborted,
                exact == (limit is None && cancel is None && !old(self).tt_enabled && max_depth >= 1
                    && root_values_in_range(v, path0, max_depth as int)),
                exact ==> !stopped,
                exact && d == max_depth as u16 + 1 ==> result.depth == max_depth && (result.score as int, result.best_move)
                    == root_choice(v, path0, max_depth as int, legal_seq(v)),
                unl == (limit is None && cancel is None),
                unl ==> !stopped,
                (result.score as int, result.best_move, result.depth as int) == deepened(
                    v,
                    path0,
                    d - 1,
                    old(self).tt_enabled,
                ),
                !stopped ==> self.tt.entries@ == deepening(v, path0, d - 1, old(self).tt_enabled).3,
                !stopped ==> self.nodes == saturated(deepening_visits(v, path0, d - 1, old(self).tt_enabled) as int),
                unl && d > 1 ==> self.nodes > 0,
            decreases max_depth as u16 + 1 - d, (if stopped { 0int } else { 1int }),
        {
            let depth = d as u8;
            let (best, alpha) = self.root_iteration(position, depth);
            proof {
                lemma_deepening_step(v, path0, depth as int, old(self).tt_enabled);
                lemma_deepening_visits_step(v, path0, depth as int, old(self).tt_enabled);
                if exact && depth == max_depth {
                    lemma_root_choice_some(v, path0, max_depth as int, legal_seq(v));
                }
            }
            stopped = self.aborted;
            if !stopped {
                match best {
                    Some(mv) => {
                        result.best_move = Some(mv);
                        result.score = alpha;
                        result.depth = depth;
                    },
                    None => {},
                }
                d = d + 1;
            }
        }
        proof {
            lemma_deepened_own_depth(v, path0, d - 1, old(self).tt_enabled);
            if unl && max_depth >= 1 && first_move_scores(v, path0, max_depth as int, old(self).tt_enabled) {
                lemma_deepening_step(v, path0, max_depth as int, old(self).tt_enabled);
                lemma_root_iteration_chooses(
                    v,
                    path0,
                    max_depth as int,
                    legal_seq(v),
                    deepening(v, path0, max_depth - 1, old(self).tt_enabled).3,
                    old(self).tt_enabled,
                );
            }
        }
        result.nodes = self.nodes;
        result
    }

    /// One iteration of the root search at `depth`: every legal move is searched with the
    /// window narrowing as better moves are found; returns the first move whose score beat
    /// all before it (and `-INF`), with its score. Stops early once the search is aborted.
    fn root_iteration(&mut self, position: &mut Position, depth: u8) -> (r: (Option<Move>, i32))
        requires
            old(self).wf(),
            old(position).wf(),
            !old(self).aborted,
            depth >= 1,
        ensures
            final(self).wf(),
            *final(position) == *old(position),
            final(self).path@ == old(self).path@,
            final(self).same_limits(*old(self)),
            old(self).aborted ==> final(self).aborted,
            old(self).unlimited() ==> final(self).aborted == old(self).aborted,
            r.0 matches Some(m) ==> legal_seq(old(position)@).contains(m),
            r.1 >= -INF,
            !final(self).aborted && !old(self).tt_enabled && root_values_in_range(
                old(position)@,
                old(self).path@,
                depth as int,
            ) ==> (r.1 as int, r.0) == root_choice(old(position)@, old(self).path@, depth as int, legal_seq(old(position)@)),
            !final(self).aborted ==> (r.1 as int, r.0, final(self).tt.entries@) == root_iteration_result(
                old(position)@,
                old(self).path@,
                depth as int,
                legal_seq(old(position)@),
                old(self).tt.entries@,
                old(self).tt_enabled,
            ),
            final(self).nodes >= old(self).nodes,
            !final(self).aborted && legal_seq(old(position)@).len() > 0 ==> final(self).nodes > 0,
            !final(self).aborted ==> final(self).nodes == saturated(
                old(self).nodes + root_iteration_visits(
                    old(position)@,
                    old(self).path@,
                    depth as int,
                    legal_seq(old(position)@),
                    old(self).tt.entries@,
                    old(self).tt_enabled,
                ),
            ),
    {
        let ghost orig = *position;
        let ghost v = position@;
        let ghost s0 = *self;
        let root_moves = legal_moves(position);
        let mut best: Option<Move> = None;
        let mut alpha: i32 = -INF;
        let mut stopped = false;
        let mut i: usize = 0;
        proof {
            assert(root_moves@.take(0) =~= Seq::<Move>::empty());
            lemma_root_choice_empty(v, s0.path@, depth as int);
            lemma_root_iteration_empty(v, s0.path@, depth as int, s0.tt.entries@, s0.tt_enabled);
            lemma_root_iteration_visits_empty(v, s0.path@, depth as int, s0.tt.entries@, s0.tt_enabled);
        }
        while i < root_moves.len() && !stopped
            invariant
                0 <= i <= root_moves@.len(),
                depth >= 1,
                *position == orig,
                orig == *old(position),
                orig.wf(),
                v == orig@,
                root_moves@ == legal_seq(v),
                forall|j: int| 0 <= j < root_moves@.len() ==> #[trigger] move_ok(v, root_moves@[j]),
                s0 == *old(self),
                self.wf(),
                self.path@ == s0.path@,
                self.same_limits(s0),
                s0.aborted ==> self.aborted,
                s0.unlimited() ==> self.aborted == s0.aborted,
                !stopped ==> !self.aborted,
                stopped ==> self.aborted,
                best matches Some(m) ==> legal_seq(v).contains(m),
                alpha >= -INF,
                !stopped && !s0.tt_enabled && root_values_in_range(v, s0.path@, depth as int) ==> (alpha
                    as int, best) == root_choice(v, s0.path@, depth as int, root_moves@.take(i as int))
                    && alpha < INF,
                !stopped ==> (alpha as int, best, self.tt.entries@) == root_iteration_result(
                    v,
                    s0.path@,
                    depth as int,
                    root_moves@.take(i as int),
                    s0.tt.entries@,
                    s0.tt_enabled,
                ),
                self.nodes >= s0.nodes,
                i > 0 ==> self.nodes > 0,
                !stopped ==> self.nodes == saturated(
                    s0.nodes + root_iteration_visits(
                        v,
                        s0.path@,
                        depth as int,
                        root_moves@.take(i as int),
                        s0.tt.entries@,
                        s0.tt_enabled,
                    ),
                ),
            decreases root_moves@.len() - i, (if stopped { 0int } else { 1int }),
        {
            if self.expired() {
                stopped = true;
            } else {
                let mv = root_moves[i];
                assert(move_ok(v, root_moves@[i as int]));
                let score = self.negamax_child(position, mv, depth, INF, alpha, 0);
                proof {
                    lemma_root_iteration_take(v, s0.path@, depth as int, root_moves@, s0.tt.entries@, s0.tt_enabled, i as int);
                    lemma_root_iteration_visits_take(v, s0.path@, depth as int, root_moves@, s0.tt.entries@, s0.tt_enabled, i as int);
                    lemma_root_choice_take(v, s0.path@, depth as int, root_moves@, i as int);
                    if !self.aborted && !s0.tt_enabled && root_values_in_range(v, s0.path@, depth as int) {
                        let n = search_value(spec_make(v, mv), path_after(v, s0.path@, mv), depth - 1, 1);
                        assert(legal_seq(v)[i as int] == mv);
                        assert(-INF < n < INF);
                        lemma_root_step(alpha as int, score as int, n);
                    }
                }
                if self.aborted {
                    stopped = true;
                } else if score > alpha {
                    alpha = score;
                    best = Some(mv);
                    proof {
                        assert(root_moves@[i as int] == mv);
                    }
                }
                i = i + 1;
            }
        }
        proof {
            if !stopped {
                assert(root_moves@.take(i as int) =~= root_moves@);
            }
        }
        (best, alpha)
    }
}

/// Every legal move's value to `depth` lies strictly between `-INF` and `INF`.
pub open spec fn root_values_in_range(v: PositionView, path: Seq<u64>, depth: int) -> bool {
    forall|k: int|
        0 <= k < legal_seq(v).len() ==> -INF < #[trigger] search_value(
            spec_make(v, legal_seq(v)[k]),
            path_after(v, path, legal_seq(v)[k]),
            depth - 1,
            1,
        ) < INF
}

/// A root move's score, seen through the window `[alpha, INF]`, beats `alpha` exactly when the
/// move's value does, and then it is that value.
proof fn lemma_root_step(alpha: int, score: int, n: int)
    requires
        -INF <= alpha < INF,
        -INF < n < INF,
        clamp(score, alpha, INF as int) == clamp(-n, alpha, INF as int),
    ensures
        (score > alpha) == (-n > alpha),
        score > alpha ==> score == -n,
{
}

/// An iteration over the first `i` moves chooses one of the moves, with a score above `-INF`,
/// when the first move (searched with the full window) scores above `-INF`.
proof fn lemma_root_iteration_prefix_chooses(
    v: PositionView,
    path: Seq<u64>,
    depth: int,
    moves: Seq<Move>,
    table: Seq<Option<TranspositionEntry>>,
    tt: bool,
    i: int,
)
    requires
        1 <= i <= moves.len(),
        -negamax_score(
            spec_make(v, moves[0]),
            path_after(v, path, moves[0]),
            depth - 1,
            -(INF as int),
            INF as int,
            1,
            table,
            tt,
        ).0 > -(INF as int),
    ensures
        root_iteration_result(v, path, depth, moves.take(i), table, tt).1 matches Some(m) && moves.contains(m),
        root_iteration_result(v, path, depth, moves.take(i), table, tt).0 > -(INF as int),
    decreases i,
{
    lemma_root_iteration_take(v, path, depth, moves, table, tt, i - 1);
    if i == 1 {
        assert(moves.take(0) =~= Seq::<Move>::empty());
        lemma_root_iteration_empty(v, path, depth, table, tt);
        assert(moves.contains(moves[0]));
    } else {
        lemma_root_iteration_prefix_chooses(v, path, depth, moves, table, tt, i - 1);
        assert(moves.contains(moves[i - 1]));
    }
}

/// An iteration chooses one of its moves, with a score above `-INF`, as soon as its first move
/// (searched with the full window) scores above `-INF`.
pub proof fn lemma_root_iteration_chooses(
    v: PositionView,
    path: Seq<u64>,
    depth: int,
    moves: Seq<Move>,
    table: Seq<Option<TranspositionEntry>>,
    tt: bool,
)
    requires
        moves.len() > 0,
        -negamax_score(
            spec_make(v, moves[0]),
            path_after(v, path, moves[0]),
            depth - 1,
            -(INF as int),
            INF as int,
            1,
            table,
            tt,
        ).0 > -(INF as int),
    ensures
        root_iteration_result(v, path, depth, moves, table, tt).1 matches Some(m) && moves.contains(m),
        root_iteration_result(v, path, depth, moves, table, tt).0 > -(INF as int),
{
    lemma_root_iteration_prefix_chooses(v, path, depth, moves, table, tt, moves.len() as int);
    assert(moves.take(moves.len() as int) =~= moves);
}

} // verus!
