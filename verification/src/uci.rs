//! The decisions of the UCI front end: which command a line is, what a `position` line sets
//! up, how deep and how long a `go` searches, and how results are reported.
use vstd::prelude::*;
use crate::bitboard::Color;
use crate::chess_move::{Move, uci_move_of, uci_text};
use crate::fen::{fen_result, start_view};
use crate::hash::{board_key, repetition_key};
use crate::movegen::{legal_moves, legal_seq, move_ok, spec_perft, perft_sum};
use crate::position::{Position, PositionView, spec_make};
use crate::search::SearchResult;
use crate::text::{
    append_chars, append_str, chars_of, decimal, parse_number, parse_unsigned, push_char,
    push_decimal, same_chars, split_tokens, string_of, tokens, views,
};

verus! {

broadcast use Position::lemma_wf_view;

// ---------------------------------------------------------------------------------------
// Commands.
// ---------------------------------------------------------------------------------------

/// What the front end does with a command line.
#[derive(Clone, Copy, Debug, PartialEq, Eq, Structural)]
pub enum UciAction {
    /// Answer `uci` with the engine's name and `uciok`.
    Identify,
    /// Answer `readyok`.
    Ready,
    /// Start a new game from the start position.
    NewGame,
    /// Set up the position the line describes.
    SetPosition,
    /// Start a search or a perft count.
    Go,
    /// Stop the running search.
    Stop,
    /// Stop the running search and leave once it answers, or leave at once.
    Quit,
    /// Keep the line until the running search has answered.
    Defer,
    /// Do nothing.
    Ignore,
}

/// The first word of a line, or nothing.
pub open spec fn first_word(line: Seq<char>) -> Seq<char> {
    if tokens(line).len() > 0 {
        tokens(line)[0]
    } else {
        seq![]
    }
}

/// What to do with `line`, given whether a search is running: `ucinewgame`, `position` and
/// `go` wait for a running search to finish.
pub open spec fn action_for(line: Seq<char>, searching: bool) -> UciAction {
    let w = first_word(line);
    if w == "uci"@ {
        UciAction::Identify
    } else if w == "isready"@ {
        UciAction::Ready
    } else if w == "stop"@ {
        UciAction::Stop
    } else if w == "quit"@ {
        UciAction::Quit
    } else if w == "ucinewgame"@ || w == "position"@ || w == "go"@ {
        if searching {
            UciAction::Defer
        } else if w == "ucinewgame"@ {
            UciAction::NewGame
        } else if w == "position"@ {
            UciAction::SetPosition
        } else {
            UciAction::Go
        }
    } else {
        UciAction::Ignore
    }
}

fn word_is(w: &Vec<char>, lit: &str) -> (r: bool)
    ensures
        r == (w@ == lit@),
{
    same_chars(w, &chars_of(lit))
}

/// Classifies a command line.
pub fn uci_action(line: &str, searching: bool) -> (r: UciAction)
    ensures
        r == action_for(line@, searching),
{
    let words = split_tokens(&chars_of(line));
    let mut first: Vec<char> = Vec::new();
    if words.len() > 0 {
        first = words[0].clone();
        proof {
            assert(views(words@)[0] == words@[0]@);
        }
    }
    proof {
        assert(first@ == first_word(line@));
    }
    if word_is(&first, "uci") {
        UciAction::Identify
    } else if word_is(&first, "isready") {
        UciAction::Ready
    } else if word_is(&first, "stop") {
        UciAction::Stop
    } else if word_is(&first, "quit") {
        UciAction::Quit
    } else if word_is(&first, "ucinewgame") || word_is(&first, "position") || word_is(&first, "go") {
        if searching {
            UciAction::Defer
        } else if word_is(&first, "ucinewgame") {
            UciAction::NewGame
        } else if word_is(&first, "position") {
            UciAction::SetPosition
        } else {
            UciAction::Go
        }
    } else {
        UciAction::Ignore
    }
}

// ---------------------------------------------------------------------------------------
// `go` arguments.
// ---------------------------------------------------------------------------------------

/// The index of the first word equal to `key`.
pub open spec fn word_index(words: Seq<Seq<char>>, key: Seq<char>) -> Option<int> {
    if exists|i: int| 0 <= i < words.len() && words[i] == key {
        Some(choose|i: int| 0 <= i < words.len() && words[i] == key && forall|j: int| 0 <= j < i ==> words[j] != key)
    } else {
        None
    }
}

/// The word after the first `key`, if there is one.
pub open spec fn value_after(words: Seq<Seq<char>>, key: Seq<char>) -> Option<Seq<char>> {
    match word_index(words, key) {
        Some(i) => if i < words.len() - 1 {
            Some(words[i + 1])
        } else {
            None
        },
        None => None,
    }
}

fn find_word(words: &Vec<Vec<char>>, key: &str) -> (r: Option<usize>)
    ensures
        match r {
            Some(i) => word_index(views(words@), key@) == Some(i as int) && i < words@.len(),
            None => word_index(views(words@), key@) is None,
        },
{
    let ghost ws = views(words@);
    let k = chars_of(key);
    let mut i: usize = 0;
    while i < words.len()
        invariant
            0 <= i <= words@.len(),
            ws == views(words@),
            k@ == key@,
            forall|j: int| 0 <= j < i ==> ws[j] != key@,
        decreases words@.len() - i,
    {
        if same_chars(&words[i], &k) {
            proof {
                assert(ws[i as int] == key@);
                let c = choose|c: int| 0 <= c < ws.len() && ws[c] == key@ && forall|j: int| 0 <= j < c ==> ws[j] != key@;
                if c < i {
                } else if c > i {
                    assert(ws[i as int] != key@);
                }
            }
            return Some(i);
        }
        proof {
            assert(ws[i as int] == words@[i as int]@);
        }
        i = i + 1;
    }
    None
}

/// The word after the first `key` in `words`.
fn word_after(words: &Vec<Vec<char>>, key: &str) -> (r: Option<Vec<char>>)
    ensures
        match r {
            Some(w) => value_after(views(words@), key@) == Some(w@),
            None => value_after(views(words@), key@) is None,
        },
{
    match find_word(words, key) {
        Some(i) => if i < words.len() - 1 {
            proof {
                assert(views(words@)[i + 1] == words@[i + 1]@);
            }
            Some(words[i + 1].clone())
        } else {
            None
        },
        None => None,
    }
}

/// The search depth a `go` line asks for: the number after `depth` when it is a valid `u8`,
/// else 8; brought into 1 to 32.
pub open spec fn go_depth_of(words: Seq<Seq<char>>) -> u8 {
    let d = match value_after(words, "depth"@) {
        Some(w) => match parse_unsigned(w, 255) {
            Some(n) => n,
            None => 8,
        },
        None => 8,
    };
    if d < 1 {
        1
    } else if d > 32 {
        32
    } else {
        d as u8
    }
}

/// The search depth of a `go` line.
pub fn go_depth(line: &str) -> (r: u8)
    ensures
        r == go_depth_of(tokens(line@)),
{
    let words = split_tokens(&chars_of(line));
    let d: u64 = match word_after(&words, "depth") {
        Some(w) => match parse_number(&w, 255) {
            Some(n) => n,
            None => 8,
        },
        None => 8,
    };
    if d < 1 {
        1
    } else if d > 32 {
        32
    } else {
        d as u8
    }
}

/// The depth of a `go perft` line: the number after `perft` when it is a valid `u8`, else 1;
/// `None` when the line does not ask for perft.
pub open spec fn perft_depth_of(words: Seq<Seq<char>>) -> Option<u8> {
    match word_index(words, "perft"@) {
        Some(_) => Some(
            match value_after(words, "perft"@) {
                Some(w) => match parse_unsigned(w, 255) {
                    Some(n) => n as u8,
                    None => 1,
                },
                None => 1,
            },
        ),
        None => None,
    }
}

/// Whether a `go` line asks for perft, and to which depth.
pub fn perft_depth(line: &str) -> (r: Option<u8>)
    ensures
        r == perft_depth_of(tokens(line@)),
{
    let words = split_tokens(&chars_of(line));
    match find_word(&words, "perft") {
        Some(_) => Some(
            match word_after(&words, "perft") {
                Some(w) => match parse_number(&w, 255) {
                    Some(n) => n as u8,
                    None => 1,
                },
                None => 1,
            },
        ),
        None => None,
    }
}

/// A number word of a `go` line, parsed as `u64`.
pub open spec fn go_number(words: Seq<Seq<char>>, key: Seq<char>) -> Option<int> {
    match value_after(words, key) {
        Some(w) => parse_unsigned(w, u64::MAX as int),
        None => None,
    }
}

/// The time budget in milliseconds of a `go` line for `side`: `movetime` (at least 1) when
/// given; otherwise a thirtieth of the side's remaining time plus three quarters of its
/// increment, at least 1 and at most the remaining time (at least 1); none without a clock.
pub open spec fn time_budget(words: Seq<Seq<char>>, side: Color) -> Option<int> {
    match go_number(words, "movetime"@) {
        Some(ms) => Some(if ms < 1 {
            1
        } else {
            ms
        }),
        None => {
            let time_key = if side == Color::White {
                "wtime"@
            } else {
                "btime"@
            };
            let inc_key = if side == Color::White {
                "winc"@
            } else {
                "binc"@
            };
            match go_number(words, time_key) {
                Some(remaining) => {
                    let increment = match go_number(words, inc_key) {
                        Some(i) => i,
                        None => 0,
                    };
                    let share = remaining / 30 + increment * 3 / 4;
                    let at_least_one = if share < 1 {
                        1
                    } else {
                        share
                    };
                    let cap = if remaining < 1 {
                        1
                    } else {
                        remaining
                    };
                    Some(
                        if at_least_one < cap {
                            at_least_one
                        } else {
                            cap
                        },
                    )
                },
                None => None,
            }
        },
    }
}

/// The increment of `side` is small enough that three times it fits in `u64`, where the time
/// budget needs it: the line gives no valid `movetime` and gives the side's remaining time.
pub open spec fn increment_fits(words: Seq<Seq<char>>, side: Color) -> bool {
    let time_key = if side == Color::White {
        "wtime"@
    } else {
        "btime"@
    };
    let inc_key = if side == Color::White {
        "winc"@
    } else {
        "binc"@
    };
    go_number(words, "movetime"@) is Some || go_number(words, time_key) is None || match go_number(
        words,
        inc_key,
    ) {
        Some(i) => i * 3 <= u64::MAX,
        None => true,
    }
}

/// Whether the increment a `go` line gives `side` is small enough for `search_time`.
pub fn increment_fits_line(line: &str, side: Color) -> (r: bool)
    ensures
        r == increment_fits(tokens(line@), side),
{
    let words = split_tokens(&chars_of(line));
    if number_after(&words, "movetime").is_some() {
        return true;
    }
    let white = match side {
        Color::White => true,
        Color::Black => false,
    };
    if number_after(&words, if white {
        "wtime"
    } else {
        "btime"
    }).is_none() {
        return true;
    }
    match number_after(&words, if white {
        "winc"
    } else {
        "binc"
    }) {
        Some(i) => i <= u64::MAX / 3,
        None => true,
    }
}

fn number_after(words: &Vec<Vec<char>>, key: &str) -> (r: Option<u64>)
    ensures
        match r {
            Some(n) => go_number(views(words@), key@) == Some(n as int),
            None => go_number(views(words@), key@) is None,
        },
{
    match word_after(words, key) {
        Some(w) => parse_number(&w, u64::MAX),
        None => None,
    }
}

/// The time budget in milliseconds of a `go` line (see `time_budget`).
pub fn search_time(line: &str, side: Color) -> (r: Option<u64>)
    requires
        increment_fits(tokens(line@), side),
    ensures
        match r {
            Some(ms) => time_budget(tokens(line@), side) == Some(ms as int),
            None => time_budget(tokens(line@), side) is None,
        },
{
    let words = split_tokens(&chars_of(line));
    match number_after(&words, "movetime") {
        Some(ms) => {
            return Some(
                if ms < 1 {
                    1
                } else {
                    ms
                },
            );
        },
        None => {},
    }
    let white = match side {
        Color::White => true,
        Color::Black => false,
    };
    let remaining = match number_after(&words, if white {
        "wtime"
    } else {
        "btime"
    }) {
        Some(t) => t,
        None => {
            return None;
        },
    };
    let increment = match number_after(&words, if white {
        "winc"
    } else {
        "binc"
    }) {
        Some(i) => i,
        None => 0,
    };
    let share = remaining / 30 + increment * 3 / 4;
    let at_least_one = if share < 1 {
        1
    } else {
        share
    };
    let cap = if remaining < 1 {
        1
    } else {
        remaining
    };
    Some(
        if at_least_one < cap {
            at_least_one
        } else {
            cap
        },
    )
}

// ---------------------------------------------------------------------------------------
// `position` lines.
// ---------------------------------------------------------------------------------------

/// The words joined by single spaces.
pub open spec fn joined(words: Seq<Seq<char>>) -> Seq<char>
    decreases words.len(),
{
    if words.len() == 0 {
        seq![]
    } else if words.len() == 1 {
        words[0]
    } else {
        joined(words.drop_last()) + seq![' '] + words.last()
    }
}

/// The position and history after playing the move `text`, or why it is refused.
#[verifier::opaque]
pub open spec fn play_word(v: PositionView, history: Seq<u64>, text: Seq<char>) -> Result<(PositionView, Seq<u64>), Seq<char>> {
    match uci_move_of(text) {
        None => Err("invalid move "@ + text),
        Some(requested) => if legal_seq(v).contains(requested) {
            Ok((spec_make(v, requested), history.push(board_key(spec_make(v, requested)))))
        } else {
            Err("illegal move "@ + text)
        },
    }
}

/// The position and history after playing the move words in order; the first refused move
/// stops it.
pub open spec fn play_words(v: PositionView, history: Seq<u64>, texts: Seq<Seq<char>>) -> Result<(PositionView, Seq<u64>), Seq<char>>
    decreases texts.len(),
{
    if texts.len() == 0 {
        Ok((v, history))
    } else {
        match play_words(v, history, texts.drop_last()) {
            Ok((v2, h2)) => play_word(v2, h2, texts.last()),
            Err(e) => Err(e),
        }
    }
}

/// The set-up position and the repetition keys of the game leading to it that a `position`
/// line describes, or why it is refused.
pub open spec fn position_command(line: Seq<char>) -> Result<(PositionView, Seq<u64>), Seq<char>> {
    let words = tokens(line);
    if words.len() < 2 {
        Err("missing startpos or fen"@)
    } else {
        let start: Result<(PositionView, int), Seq<char>> = if words[1] == "startpos"@ {
            Ok((start_view(), 2))
        } else if words[1] == "fen"@ {
            let move_index = match word_index(words, "moves"@) {
                Some(i) => i,
                None => words.len() as int,
            };
            if move_index < 8 {
                Err("FEN position needs six fields"@)
            } else {
                match fen_result(joined(words.subrange(2, move_index))) {
                    Ok(v) => Ok((v, move_index)),
                    Err(e) => Err(e),
                }
            }
        } else {
            Err("expected startpos or fen"@)
        };
        match start {
            Err(e) => Err(e),
            Ok((v, index)) => {
                let first = if index < words.len() && words[index] == "moves"@ {
                    index + 1
                } else {
                    index
                };
                play_words(v, seq![board_key(v)], words.subrange(first, words.len() as int))
            },
        }
    }
}

proof fn lemma_joined_push(words: Seq<Seq<char>>, i: int)
    requires
        0 <= i < words.len(),
    ensures
        joined(words.take(i + 1)) == joined(words.take(i)) + (if i > 0 {
            seq![' ']
        } else {
            seq![]
        }) + words[i],
{
    assert(words.take(i + 1).drop_last() =~= words.take(i));
    if i == 0 {
        assert(joined(words.take(0)) =~= Seq::<char>::empty());
        assert(joined(words.take(1)) == words[0]);
    }
}

/// `words[start..end]` joined by spaces.
fn join_words(words: &Vec<Vec<char>>, start: usize, end: usize) -> (r: String)
    requires
        start <= end <= words@.len(),
    ensures
        r@ == joined(views(words@).subrange(start as int, end as int)),
{
    let ghost ws = views(words@).subrange(start as int, end as int);
    let mut out = String::new();
    let mut i = start;
    while i < end
        invariant
            start <= i <= end,
            end <= words@.len(),
            ws == views(words@).subrange(start as int, end as int),
            out@ == joined(ws.take(i - start)),
        decreases end - i,
    {
        proof {
            lemma_joined_push(ws, i - start);
            assert(ws[i - start] == words@[i as int]@);
        }
        if i > start {
            push_char(&mut out, ' ');
        }
        append_chars(&mut out, &words[i]);
        proof {
            assert(out@ =~= joined(ws.take(i - start + 1)));
        }
        i = i + 1;
    }
    proof {
        assert(ws.take(end - start) =~= ws);
    }
    out
}

proof fn lemma_play_words_take(v: PositionView, h: Seq<u64>, texts: Seq<Seq<char>>, i: int)
    requires
        0 <= i < texts.len(),
    ensures
        play_words(v, h, texts.take(i + 1)) == match play_words(v, h, texts.take(i)) {
            Ok((v2, h2)) => play_word(v2, h2, texts[i]),
            Err(e) => Err(e),
        },
{
    assert(texts.take(i + 1).drop_last() =~= texts.take(i));
}

/// "`prefix` `text`" as a string.
fn message_with(prefix: &str, text: &Vec<char>) -> (r: String)
    ensures
        r@ == prefix@ + text@,
{
    let mut out = String::new();
    append_str(&mut out, prefix);
    append_chars(&mut out, text);
    proof {
        assert(out@ =~= prefix@ + text@);
    }
    out
}

/// Plays the move `word` names in `position` and records the new position's key.
fn play_move_word(position: &mut Position, history: &mut Vec<u64>, word: &Vec<char>) -> (r: Result<(), String>)
    requires
        old(position).wf(),
    ensures
        match play_word(old(position)@, old(history)@, word@) {
            Ok((v, h)) => r is Ok && final(position).wf() && final(position)@ == v && final(history)@ == h,
            Err(e) => r is Err && r->Err_0@ == e,
        },
{
    reveal(play_word);
    let requested = match Move::from_uci(string_of(word).as_str()) {
        Some(m) => m,
        None => {
            return Err(message_with("invalid move ", word));
        },
    };
    let legal = legal_moves(position);
    let mut found: Option<usize> = None;
    let mut k: usize = 0;
    while k < legal.len() && found.is_none()
        invariant
            0 <= k <= legal@.len(),
            found matches Some(j) ==> j < legal@.len() && legal@[j as int] == requested,
            found is None ==> forall|j: int| 0 <= j < k ==> legal@[j] != requested,
        decreases legal@.len() - k, (if found is None { 1int } else { 0int }),
    {
        if legal[k] == requested {
            found = Some(k);
        } else {
            k = k + 1;
        }
    }
    let j = match found {
        Some(j) => j,
        None => {
            proof {
                assert(!legal_seq(old(position)@).contains(requested));
            }
            return Err(message_with("illegal move ", word));
        },
    };
    let mv = legal[j];
    proof {
        assert(legal_seq(old(position)@).contains(requested));
        assert(move_ok(old(position)@, legal@[j as int]));
    }
    let _ = position.make_move(mv);
    history.push(repetition_key(position));
    Ok(())
}

/// Once a prefix of the move words is refused, the whole sequence is refused the same way.
proof fn lemma_play_words_error(v: PositionView, h: Seq<u64>, texts: Seq<Seq<char>>, j: int)
    requires
        0 <= j <= texts.len(),
        play_words(v, h, texts.take(j)) is Err,
    ensures
        play_words(v, h, texts) == play_words(v, h, texts.take(j)),
    decreases texts.len(),
{
    if j == texts.len() {
        assert(texts.take(j) =~= texts);
    } else {
        assert(texts.drop_last().take(j) =~= texts.take(j));
        lemma_play_words_error(v, h, texts.drop_last(), j);
    }
}

/// Plays the move words from index `first` on, in order, stopping at the first refused one.
fn play_move_words(position: &mut Position, history: &mut Vec<u64>, words: &Vec<Vec<char>>, first: usize) -> (r: Result<(), String>)
    requires
        old(position).wf(),
        first <= words@.len(),
    ensures
        match play_words(old(position)@, old(history)@, views(words@).skip(first as int)) {
            Ok((v, h)) => r is Ok && final(position).wf() && final(position)@ == v && final(history)@ == h,
            Err(e) => r is Err && r->Err_0@ == e,
        },
{
    let ghost v0 = position@;
    let ghost h0 = history@;
    let ghost texts = views(words@).skip(first as int);
    let mut i = first;
    proof {
        assert(texts.take(0) =~= Seq::<Seq<char>>::empty());
    }
    while i < words.len()
        invariant
            first <= i <= words@.len(),
            texts == views(words@).skip(first as int),
            v0 == old(position)@,
            h0 == old(history)@,
            position.wf(),
            play_words(v0, h0, texts.take(i - first)) == Ok::<(PositionView, Seq<u64>), Seq<char>>(
                (position@, history@),
            ),
        decreases words@.len() - i,
    {
        proof {
            lemma_play_words_take(v0, h0, texts, i - first);
            assert(texts[i - first] == words@[i as int]@);
        }
        match play_move_word(position, history, &words[i]) {
            Ok(()) => {},
            Err(e) => {
                proof {
                    lemma_play_words_error(v0, h0, texts, i - first + 1);
                }
                return Err(e);
            },
        }
        i = i + 1;
    }
    proof {
        assert(texts.take(i - first) =~= texts);
    }
    Ok(())
}

/// Sets up the position of a `position startpos|fen ... [moves ...]` line, with the
/// repetition keys of the positions from the set-up position on.
pub fn parse_position(line: &str) -> (r: Result<(Position, Vec<u64>), String>)
    ensures
        match position_command(line@) {
            Ok((v, h)) => r matches Ok((p, hist)) && p.wf() && p@ == v && hist@ == h,
            Err(e) => r is Err && r->Err_0@ == e,
        },
{
    let words = split_tokens(&chars_of(line));
    let ghost ws = views(words@);
    if words.len() < 2 {
        return Err(string_of(&chars_of("missing startpos or fen")));
    }
    proof {
        assert(ws[1] == words@[1]@);
    }
    let mut position;
    let index: usize;
    if word_is(&words[1], "startpos") {
        position = Position::startpos();
        index = 2;
    } else if word_is(&words[1], "fen") {
        let move_index = match find_word(&words, "moves") {
            Some(i) => i,
            None => words.len(),
        };
        if move_index < 8 {
            return Err(string_of(&chars_of("FEN position needs six fields")));
        }
        let fen = join_words(&words, 2, move_index);
        position = match Position::from_fen(fen.as_str()) {
            Ok(p) => p,
            Err(e) => {
                return Err(e);
            },
        };
        index = move_index;
    } else {
        return Err(string_of(&chars_of("expected startpos or fen")));
    }
    let ghost v0 = position@;
    let mut history: Vec<u64> = Vec::new();
    history.push(repetition_key(&position));
    let first = if index < words.len() && word_is(&words[index], "moves") {
        index + 1
    } else {
        index
    };
    proof {
        if index < words.len() {
            assert(ws[index as int] == words@[index as int]@);
        }
    }
    proof {
        assert(ws.subrange(first as int, ws.len() as int) =~= ws.skip(first as int));
    }
    match play_move_words(&mut position, &mut history, &words, first) {
        Ok(()) => {},
        Err(e) => {
            return Err(e);
        },
    }
    Ok((position, history))
}

// ---------------------------------------------------------------------------------------
// Reports.
// ---------------------------------------------------------------------------------------

/// `x` in decimal, with a minus sign when negative.
pub open spec fn signed_decimal(x: int) -> Seq<char> {
    if x < 0 {
        seq!['-'] + decimal((-x) as nat)
    } else {
        decimal(x as nat)
    }
}

/// How a score is reported: `mate n` (negative when being mated) for scores beyond 29000 in
/// size, with `n` the full moves to mate, else `cp` and the score.
pub open spec fn score_text(score: int) -> Seq<char> {
    let a = if score < 0 {
        -score
    } else {
        score
    };
    if a > 29000 {
        let plies = 30000 - a + 1;
        let moves = if plies >= 0 {
            plies / 2
        } else {
            -((-plies) / 2)
        };
        "mate "@ + signed_decimal(if score < 0 {
            -moves
        } else {
            moves
        })
    } else {
        "cp "@ + signed_decimal(score)
    }
}

/// The `info` line of a search result.
pub open spec fn info_line(result: SearchResult) -> Seq<char> {
    "info depth "@ + decimal(result.depth as nat) + " score "@ + score_text(result.score as int)
        + " nodes "@ + decimal(result.nodes as nat)
}

/// The `bestmove` line of a search result (`0000` without a move).
pub open spec fn bestmove_line(result: SearchResult) -> Seq<char> {
    "bestmove "@ + match result.best_move {
        Some(m) => uci_text(m),
        None => "0000"@,
    }
}

fn push_signed(out: &mut String, x: i64)
    requires
        x > i64::MIN,
    ensures
        final(out)@ == old(out)@ + signed_decimal(x as int),
{
    if x < 0 {
        push_char(out, '-');
        push_decimal(out, (-x) as u64);
        proof {
            assert(final(out)@ =~= old(out)@ + signed_decimal(x as int));
        }
    } else {
        push_decimal(out, x as u64);
    }
}

/// The `info` and `bestmove` lines reporting a search result.
pub fn search_report(result: &SearchResult) -> (r: (String, String))
    requires
        result.score > i32::MIN,
    ensures
        r.0@ == info_line(*result),
        r.1@ == bestmove_line(*result),
{
    let mut info = String::new();
    append_str(&mut info, "info depth ");
    push_decimal(&mut info, result.depth as u64);
    append_str(&mut info, " score ");
    let score = result.score as i64;
    let a = if score < 0 {
        -score
    } else {
        score
    };
    if a > 29000 {
        let plies = 30000 - a + 1;
        let moves = if plies >= 0 {
            plies / 2
        } else {
            -((-plies) / 2)
        };
        append_str(&mut info, "mate ");
        push_signed(&mut info, if score < 0 {
            -moves
        } else {
            moves
        });
    } else {
        append_str(&mut info, "cp ");
        push_signed(&mut info, score);
    }
    append_str(&mut info, " nodes ");
    push_decimal(&mut info, result.nodes);
    proof {
        assert(info@ =~= info_line(*result));
    }
    let mut best = String::new();
    append_str(&mut best, "bestmove ");
    match result.best_move {
        Some(m) => {
            append_str(&mut best, m.to_uci().as_str());
        },
        None => {
            append_str(&mut best, "0000");
        },
    }
    proof {
        assert(best@ =~= bestmove_line(*result));
    }
    (info, best)
}

/// The total of the perft counts.
pub open spec fn perft_total(divide: Seq<(Move, u64)>) -> int
    decreases divide.len(),
{
    if divide.len() == 0 {
        0
    } else {
        perft_total(divide.drop_last()) + divide.last().1
    }
}

/// The line reporting one move's perft count.
pub open spec fn perft_line(e: (Move, u64)) -> Seq<char> {
    uci_text(e.0) + ": "@ + decimal(e.1 as nat)
}

/// The lines answering `go perft`: one `move: count` line per move, the total, and
/// `bestmove 0000`.
pub open spec fn perft_lines(divide: Seq<(Move, u64)>) -> Seq<Seq<char>> {
    divide.map_values(|e: (Move, u64)| perft_line(e)).push(
        "nodes "@ + decimal(perft_total(divide) as nat),
    ).push("bestmove 0000"@)
}

/// The report of a perft count by move.
pub fn perft_report(divide: &Vec<(Move, u64)>) -> (r: Vec<String>)
    requires
        perft_total(divide@) <= u64::MAX,
    ensures
        r@.map_values(|s: String| s@) == perft_lines(divide@),
{
    let ghost d = divide@;
    let mut lines: Vec<String> = Vec::new();
    let mut total: u64 = 0;
    let mut i: usize = 0;
    while i < divide.len()
        invariant
            0 <= i <= d.len(),
            d == divide@,
            perft_total(d) <= u64::MAX,
            total == perft_total(d.take(i as int)),
            lines@.len() == i,
            forall|k: int| 0 <= k < i ==> (#[trigger] lines@[k])@ == perft_line(d[k]),
        decreases d.len() - i,
    {
        let (mv, nodes) = divide[i];
        proof {
            assert(d[i as int] == (mv, nodes));
            assert(d.take(i + 1).drop_last() =~= d.take(i as int));
            lemma_perft_total_prefix(d, i + 1);
        }
        let mut line = String::new();
        append_str(&mut line, mv.to_uci().as_str());
        append_str(&mut line, ": ");
        push_decimal(&mut line, nodes);
        let ghost line_text = line@;
        lines.push(line);
        total = total + nodes;
        proof {
            assert(line_text =~= perft_line(d[i as int]));
        }
        i = i + 1;
    }
    proof {
        assert(d.take(i as int) =~= d);
    }
    let mut summary = String::new();
    append_str(&mut summary, "nodes ");
    push_decimal(&mut summary, total);
    lines.push(summary);
    lines.push(string_of(&chars_of("bestmove 0000")));
    proof {
        assert(lines@.map_values(|s: String| s@) =~= perft_lines(d));
    }
    lines
}

proof fn lemma_perft_total_prefix(d: Seq<(Move, u64)>, i: int)
    requires
        0 <= i <= d.len(),
    ensures
        0 <= perft_total(d.take(i)) <= perft_total(d),
    decreases d.len(),
{
    if i < d.len() {
        assert(d.drop_last().take(i) =~= d.take(i));
        lemma_perft_total_prefix(d.drop_last(), i);
    } else {
        assert(d.take(i) =~= d);
        lemma_perft_total_nonneg(d);
    }
}

proof fn lemma_perft_total_nonneg(d: Seq<(Move, u64)>)
    ensures
        perft_total(d) >= 0,
    decreases d.len(),
{
    if d.len() > 0 {
        lemma_perft_total_nonneg(d.drop_last());
    }
}

/// The total that a perft report prints is the perft count of the position: the counts of a
/// divide, one per legal move in order, add up to the count one ply deeper.
pub proof fn lemma_perft_total_is_perft(v: PositionView, depth: nat, divide: Seq<(Move, u64)>)
    requires
        depth > 0,
        divide.len() == legal_seq(v).len(),
        forall|k: int|
            0 <= k < divide.len() ==> (#[trigger] divide[k]).0 == legal_seq(v)[k] && divide[k].1
                == spec_perft(spec_make(v, legal_seq(v)[k]), (depth - 1) as nat),
    ensures
        perft_total(divide) == spec_perft(v, depth),
{
    let ms = legal_seq(v);
    let d = (depth - 1) as nat;
    lemma_perft_total_prefix_sum(v, d, ms, divide, divide.len() as int);
    assert(divide.take(divide.len() as int) =~= divide);
    assert(ms.take(ms.len() as int) =~= ms);
}

proof fn lemma_perft_total_prefix_sum(v: PositionView, d: nat, ms: Seq<Move>, divide: Seq<(Move, u64)>, i: int)
    requires
        0 <= i <= divide.len(),
        divide.len() == ms.len(),
        forall|k: int|
            0 <= k < divide.len() ==> (#[trigger] divide[k]).1 == spec_perft(spec_make(v, ms[k]), d),
    ensures
        perft_total(divide.take(i)) == perft_sum(v, ms.take(i), d),
    decreases i,
{
    if i > 0 {
        lemma_perft_total_prefix_sum(v, d, ms, divide, i - 1);
        assert(divide.take(i).drop_last() =~= divide.take(i - 1));
        assert(ms.take(i).drop_last() =~= ms.take(i - 1));
        assert(divide.take(i).last() == divide[i - 1]);
        assert(ms.take(i).last() == ms[i - 1]);
    } else {
        assert(divide.take(0) =~= Seq::<(Move, u64)>::empty());
        assert(ms.take(0) =~= Seq::<Move>::empty());
    }
}

} // verus!
