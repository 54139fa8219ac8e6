//! The local playable board: one game session, its JSON state, request routing, and the
//! checks made on an HTTP request head.
use vstd::prelude::*;
use crate::bitboard::Color;
use crate::chess_move::{Move, uci_text, uci_move_of};
use crate::fen::{fen_text, start_view};
use crate::hash::{board_key, repetition_key};
use crate::movegen::{in_check, is_in_check, legal_moves, legal_seq, move_ok};
use crate::position::{Position, PositionView, insufficient_material, spec_make};
use crate::search::{Searcher, occurrences, root_path, settled_value, is_repeated, is_drawn};
use crate::search_values::deepened;
use crate::text::{
    append_chars, append_str, chars_of, push_char, push_decimal, decimal, string_of, is_text,
    begins_with, trim, trim_start, trim_end, trimmed, trimmed_start, trimmed_end, chars_from,
    first_occurrence, find_chars, is_digit, all_digits, parse_unsigned, parse_number, has_prefix, tokens, split_tokens, views, utf8_len, utf8_length, };

verus! {

broadcast use Position::lemma_wf_view;

/// The longest request head accepted, in bytes.
pub const MAX_HEADER_BYTES: usize = 16384;

/// The longest request body accepted, in bytes.
pub const MAX_BODY_BYTES: usize = 1024;

pub const MIN_DEPTH: u8 = 1;

pub const MAX_DEPTH: u8 = 6;

/// An HTTP request as the router sees it.
#[derive(Debug, PartialEq, Eq)]
pub struct Request {
    pub method: String,
    pub path: String,
    pub body: String,
}

/// An HTTP response: status, content type and body.
#[derive(Debug, PartialEq, Eq)]
pub struct Response {
    pub status: u16,
    pub content_type: &'static str,
    pub body: String,
}

/// The static files of the board: the page, its style sheet and its script.
pub struct WebAssets {
    pub index: String,
    pub style: String,
    pub app: String,
}

// ---------------------------------------------------------------------------------------
// JSON.
// ---------------------------------------------------------------------------------------

/// A character as it appears inside a JSON string literal written by this module.
pub open spec fn escaped_char(c: char) -> Seq<char> {
    if c == '\\' {
        seq!['\\', '\\']
    } else if c == '"' {
        seq!['\\', '"']
    } else if c == '\n' {
        seq!['\\', 'n']
    } else {
        seq![c]
    }
}

/// `s` with backslashes, double quotes and newlines escaped.
pub open spec fn json_escaped(s: Seq<char>) -> Seq<char>
    decreases s.len(),
{
    if s.len() == 0 {
        seq![]
    } else {
        json_escaped(s.drop_last()) + escaped_char(s.last())
    }
}

/// Appends `s`, escaped for a JSON string literal, to `out`.
fn append_escaped(out: &mut String, s: &Vec<char>)
    ensures
        final(out)@ == old(out)@ + json_escaped(s@),
{
    let ghost o0 = out@;
    let mut i: usize = 0;
    while i < s.len()
        invariant
            0 <= i <= s@.len(),
            out@ == o0 + json_escaped(s@.take(i as int)),
        decreases s@.len() - i,
    {
        let c = s[i];
        proof {
            assert(s@.take(i + 1).drop_last() =~= s@.take(i as int));
        }
        if c == '\\' {
            push_char(out, '\\');
            push_char(out, '\\');
        } else if c == '"' {
            push_char(out, '\\');
            push_char(out, '"');
        } else if c == '\n' {
            push_char(out, '\\');
            push_char(out, 'n');
        } else {
            push_char(out, c);
        }
        proof {
            assert(out@ =~= o0 + json_escaped(s@.take(i + 1)));
        }
        i = i + 1;
    }
    proof {
        assert(s@.take(i as int) =~= s@);
    }
}

/// `value` escaped for a JSON string literal.
pub fn json_escape(value: &str) -> (r: String)
    ensures
        r@ == json_escaped(value@),
{
    let mut out = String::new();
    append_escaped(&mut out, &chars_of(value));
    proof {
        assert(out@ =~= json_escaped(value@));
    }
    out
}

/// `s` between double quotes.
pub open spec fn quoted(s: Seq<char>) -> Seq<char> {
    seq!['"'] + s + seq!['"']
}

/// What follows the first `"name"` inside the outer braces of the trimmed `body`.
pub open spec fn after_field_name(body: Seq<char>, name: Seq<char>) -> Option<Seq<char>> {
    let t = trim(body);
    if t.len() >= 2 && t[0] == '{' && t.last() == '}' {
        let inner = t.subrange(1, t.len() - 1);
        match first_occurrence(inner, quoted(name)) {
            Some(i) => Some(inner.skip(i + quoted(name).len())),
            None => None,
        }
    } else {
        None
    }
}

/// What follows the colon after `"name"`.
pub open spec fn field_value(body: Seq<char>, name: Seq<char>) -> Option<Seq<char>> {
    match after_field_name(body, name) {
        Some(rest) => {
            let r = trim_start(rest);
            if r.len() > 0 && r[0] == ':' {
                Some(r.skip(1))
            } else {
                None
            }
        },
        None => None,
    }
}

pub open spec fn is_ascii_alnum(c: char) -> bool {
    ('a' <= c <= 'z') || ('A' <= c <= 'Z') || ('0' <= c <= '9')
}

pub open spec fn ascii_lower(c: char) -> char {
    if 'A' <= c <= 'Z' {
        ((c as u32) + 32) as char
    } else {
        c
    }
}

/// The characters of `s` before the first `c` (all of `s` when there is none).
pub open spec fn prefix_until(s: Seq<char>, c: char) -> Seq<char>
    decreases s.len(),
{
    if s.len() == 0 {
        s
    } else if s[0] == c {
        seq![]
    } else {
        seq![s[0]] + prefix_until(s.skip(1), c)
    }
}

/// The string value of field `name`, lower-cased, when it is a quoted run of ASCII letters
/// and digits.
pub open spec fn string_field(body: Seq<char>, name: Seq<char>) -> Option<Seq<char>> {
    match field_value(body, name) {
        Some(v0) => {
            let v = trim_start(v0);
            if v.len() > 0 && v[0] == '"' {
                let text = prefix_until(v.skip(1), '"');
                if forall|i: int| 0 <= i < text.len() ==> is_ascii_alnum(#[trigger] text[i]) {
                    Some(text.map_values(|c: char| ascii_lower(c)))
                } else {
                    None
                }
            } else {
                None
            }
        },
        None => None,
    }
}

/// The digits of the numeric field `name`.
pub open spec fn number_field(body: Seq<char>, name: Seq<char>) -> Option<Seq<char>> {
    match field_value(body, name) {
        Some(v0) => {
            let v = trim(v0);
            if v.len() > 0 && all_digits(v) {
                Some(v)
            } else {
                None
            }
        },
        None => None,
    }
}

/// The characters between the outer braces of the trimmed `body`.
fn braced_inner(body: &str) -> (r: Option<Vec<char>>)
    ensures
        ({
            let t = trim(body@);
            match r {
                Some(inner) => t.len() >= 2 && t[0] == '{' && t.last() == '}' && inner@ == t.subrange(
                    1,
                    t.len() - 1,
                ),
                None => !(t.len() >= 2 && t[0] == '{' && t.last() == '}'),
            }
        }),
{
    let t = trimmed(&chars_of(body));
    let n = t.len();
    if n < 2 || t[0] != '{' || t[n - 1] != '}' {
        return None;
    }
    let mut inner: Vec<char> = Vec::new();
    let mut i: usize = 1;
    while i < n - 1
        invariant
            1 <= i <= n - 1,
            n == t@.len(),
            inner@ == t@.subrange(1, i as int),
        decreases n - 1 - i,
    {
        inner.push(t[i]);
        proof {
            assert(inner@ =~= t@.subrange(1, i + 1));
        }
        i = i + 1;
    }
    Some(inner)
}

/// `"name"` as characters.
fn quoted_name(name: &str) -> (r: Vec<char>)
    ensures
        r@ == quoted(name@),
{
    let mut marker: Vec<char> = Vec::new();
    marker.push('"');
    let name_chars = chars_of(name);
    let mut k: usize = 0;
    while k < name_chars.len()
        invariant
            0 <= k <= name_chars@.len(),
            marker@ == seq!['"'] + name_chars@.take(k as int),
        decreases name_chars@.len() - k,
    {
        marker.push(name_chars[k]);
        proof {
            assert(marker@ =~= seq!['"'] + name_chars@.take(k + 1));
        }
        k = k + 1;
    }
    marker.push('"');
    proof {
        assert(name_chars@.take(k as int) =~= name@);
        assert(marker@ =~= quoted(name@));
    }
    marker
}

fn field_value_of(body: &str, name: &str) -> (r: Option<Vec<char>>)
    ensures
        match r {
            Some(v) => field_value(body@, name@) == Some(v@),
            None => field_value(body@, name@) is None,
        },
{
    let inner = match braced_inner(body) {
        Some(inner) => inner,
        None => {
            return None;
        },
    };
    let marker = quoted_name(name);
    let at = match find_chars(&inner, &marker) {
        Some(at) => at,
        None => {
            return None;
        },
    };
    let ilen = inner.len();
    assert(at + marker@.len() <= ilen);
    let rest = chars_from(&inner, at + marker.len());
    let r = trimmed_start(&rest);
    if r.len() > 0 && r[0] == ':' {
        Some(chars_from(&r, 1))
    } else {
        None
    }
}

/// The string value of field `name` of a flat JSON object, if it is a quoted run of ASCII
/// letters and digits; lower-cased.
pub fn json_string_field(body: &str, name: &str) -> (r: Option<String>)
    ensures
        match r {
            Some(s) => string_field(body@, name@) == Some(s@),
            None => string_field(body@, name@) is None,
        },
{
    let v0 = match field_value_of(body, name) {
        Some(v0) => v0,
        None => {
            return None;
        },
    };
    let v = trimmed_start(&v0);
    if v.len() == 0 || v[0] != '"' {
        proof {
            assert(field_value(body@, name@) == Some(v0@));
        }
        return None;
    }
    let ghost after = v@.skip(1);
    let mut text: Vec<char> = Vec::new();
    let mut i: usize = 1;
    while i < v.len() && v[i] != '"'
        invariant
            1 <= i <= v@.len(),
            after == v@.skip(1),
            prefix_until(after, '"') == text@ + prefix_until(v@.skip(i as int), '"'),
        decreases v@.len() - i,
    {
        text.push(v[i]);
        proof {
            assert(v@.skip(i as int).skip(1) =~= v@.skip(i + 1));
            assert(text@ + prefix_until(v@.skip(i + 1), '"') =~= text@.drop_last() + (seq![
                v@[i as int],
            ] + prefix_until(v@.skip(i + 1), '"')));
        }
        i = i + 1;
    }
    proof {
        assert(prefix_until(v@.skip(i as int), '"') == Seq::<char>::empty());
        assert(text@ =~= prefix_until(after, '"'));
    }
    let mut out = String::new();
    let mut j: usize = 0;
    while j < text.len()
        invariant
            0 <= j <= text@.len(),
            text@ == prefix_until(v@.skip(1), '"'),
            v@ == trim_start(v0@),
            v@.len() > 0 && v@[0] == '"',
            field_value(body@, name@) == Some(v0@),
            forall|k: int| 0 <= k < j ==> is_ascii_alnum(#[trigger] text@[k]),
            out@ == text@.take(j as int).map_values(|c: char| ascii_lower(c)),
        decreases text@.len() - j,
    {
        let c = text[j];
        let alnum = ('a' <= c && c <= 'z') || ('A' <= c && c <= 'Z') || ('0' <= c && c <= '9');
        if !alnum {
            proof {
                assert(!is_ascii_alnum(text@[j as int]));
            }
            return None;
        }
        let lower = if 'A' <= c && c <= 'Z' {
            ((c as u8) + 32) as char
        } else {
            c
        };
        proof {
            assert(lower == ascii_lower(c));
        }
        push_char(&mut out, lower);
        proof {
            assert(out@ =~= text@.take(j + 1).map_values(|c: char| ascii_lower(c)));
        }
        j = j + 1;
    }
    proof {
        assert(text@.take(j as int) =~= text@);
    }
    Some(out)
}

/// The digits of numeric field `name` of a flat JSON object.
pub fn json_number_field(body: &str, name: &str) -> (r: Option<String>)
    ensures
        match r {
            Some(s) => number_field(body@, name@) == Some(s@),
            None => number_field(body@, name@) is None,
        },
{
    let v0 = match field_value_of(body, name) {
        Some(v0) => v0,
        None => {
            return None;
        },
    };
    let v = trimmed(&v0);
    if v.len() == 0 {
        return None;
    }
    let mut i: usize = 0;
    while i < v.len()
        invariant
            0 <= i <= v@.len(),
            v@ == trim(v0@),
            v@.len() > 0,
            field_value(body@, name@) == Some(v0@),
            forall|k: int| 0 <= k < i ==> is_digit(#[trigger] v@[k]),
        decreases v@.len() - i,
    {
        if !('0' <= v[i] && v[i] <= '9') {
            proof {
                assert(!is_digit(v@[i as int]));
                assert(!all_digits(v@));
            }
            return None;
        }
        i = i + 1;
    }
    Some(string_of(&v))
}

/// What a `POST /api/new` body asks for: nothing (empty body), or a depth from 1 to 6.
pub open spec fn depth_request(body: Seq<char>) -> Result<Option<u8>, Seq<char>> {
    if trim(body).len() == 0 {
        Ok(None)
    } else {
        match number_field(body, "depth"@) {
            None => Err("Expected JSON with a numeric depth field."@),
            Some(v) => match parse_unsigned(v, 255) {
                None => Err("Depth must be a whole number."@),
                Some(d) => if MIN_DEPTH <= d <= MAX_DEPTH {
                    Ok(Some(d as u8))
                } else {
                    Err("Depth must be between 1 and 6."@)
                },
            },
        }
    }
}

/// Reads the optional search depth of a `POST /api/new` body.
pub fn optional_depth(body: &str) -> (r: Result<Option<u8>, String>)
    ensures
        match depth_request(body@) {
            Ok(d) => r == Ok::<Option<u8>, String>(d),
            Err(e) => r is Err && r->Err_0@ == e,
        },
{
    let t = trimmed(&chars_of(body));
    if t.len() == 0 {
        return Ok(None);
    }
    let value = match json_number_field(body, "depth") {
        Some(v) => v,
        None => {
            return Err(string_of(&chars_of("Expected JSON with a numeric depth field.")));
        },
    };
    let depth = match parse_number(&chars_of(value.as_str()), 255) {
        Some(d) => d as u8,
        None => {
            return Err(string_of(&chars_of("Depth must be a whole number.")));
        },
    };
    if depth < MIN_DEPTH || depth > MAX_DEPTH {
        return Err(string_of(&chars_of("Depth must be between 1 and 6.")));
    }
    Ok(Some(depth))
}

/// `depth` brought into the range 1 to 6.
pub fn clamp_depth(depth: u8) -> (r: u8)
    ensures
        r == if depth < MIN_DEPTH {
            MIN_DEPTH
        } else if depth > MAX_DEPTH {
            MAX_DEPTH
        } else {
            depth
        },
{
    if depth < MIN_DEPTH {
        MIN_DEPTH
    } else if depth > MAX_DEPTH {
        MAX_DEPTH
    } else {
        depth
    }
}

// ---------------------------------------------------------------------------------------
// Responses.
// ---------------------------------------------------------------------------------------

/// The body of an error response.
pub open spec fn error_body(message: Seq<char>) -> Seq<char> {
    "{\"error\":\""@ + json_escaped(message) + "\"}"@
}

impl Response {
    /// A JSON response.
    pub fn json(status: u16, body: String) -> (r: Response)
        ensures
            r.status == status,
            r.content_type@ == "application/json; charset=utf-8"@,
            r.body@ == body@,
    {
        Response { status, content_type: "application/json; charset=utf-8", body }
    }

    /// A response with the text `body`.
    pub fn text(status: u16, body: &str, content_type: &'static str) -> (r: Response)
        ensures
            r.status == status,
            r.content_type@ == content_type@,
            r.body@ == body@,
    {
        Response { status, content_type, body: string_of(&chars_of(body)) }
    }

    /// A JSON error response carrying `message`.
    pub fn error(status: u16, message: &str) -> (r: Response)
        ensures
            r.status == status,
            r.content_type@ == "application/json; charset=utf-8"@,
            r.body@ == error_body(message@),
    {
        let mut body = String::new();
        append_str(&mut body, "{\"error\":\"");
        append_escaped(&mut body, &chars_of(message));
        append_str(&mut body, "\"}");
        proof {
            assert(body@ =~= error_body(message@));
        }
        Response::json(status, body)
    }
}

// ---------------------------------------------------------------------------------------
// The game session.
// ---------------------------------------------------------------------------------------

/// Whether the game is over, and how: checkmate and stalemate first, then dead material,
/// the fifty-move rule, and a third occurrence of the position in the game's history.
pub open spec fn game_status(v: PositionView, history: Seq<u64>) -> Option<Seq<char>> {
    if legal_seq(v).len() == 0 {
        Some(
            if is_in_check(v, v.side) {
                if v.side == Color::White {
                    "Checkmate — Black wins."@
                } else {
                    "Checkmate — White wins."@
                }
            } else {
                "Draw — stalemate."@
            },
        )
    } else if insufficient_material(v.board) {
        Some("Draw — insufficient material."@)
    } else if v.halfmove >= 100 {
        Some("Draw — fifty-move rule."@)
    } else if occurrences(history, board_key(v)) >= 3 {
        Some("Draw — threefold repetition."@)
    } else {
        None
    }
}

/// The items, each in double quotes, separated by commas.
pub open spec fn quoted_list(items: Seq<Seq<char>>) -> Seq<char>
    decreases items.len(),
{
    if items.len() == 0 {
        seq![]
    } else if items.len() == 1 {
        quoted(items[0])
    } else {
        quoted_list(items.drop_last()) + seq![','] + quoted(items.last())
    }
}

/// The moves offered to the player: White's legal moves while the game goes on.
pub open spec fn offered_moves(v: PositionView, history: Seq<u64>) -> Seq<Seq<char>> {
    if v.side == Color::White && game_status(v, history) is None {
        legal_seq(v).map_values(|m: Move| uci_text(m))
    } else {
        seq![]
    }
}

/// The status line shown to the player.
pub open spec fn status_text(v: PositionView, history: Seq<u64>) -> Seq<char> {
    match game_status(v, history) {
        Some(t) => t,
        None => if v.side == Color::White {
            "Your move"@
        } else {
            "Engine to move"@
        },
    }
}

/// The JSON state of a game: FEN, offered moves, moves played, status, whether the game is
/// over, search depth and side to move.
pub open spec fn state_text(v: PositionView, history: Seq<u64>, played: Seq<Seq<char>>, depth: u8) -> Seq<char> {
    "{\"fen\":\""@ + json_escaped(fen_text(v)) + "\",\"legalMoves\":["@ + quoted_list(
        offered_moves(v, history),
    ) + "],\"moves\":["@ + quoted_list(played) + "],\"status\":\""@ + json_escaped(
        status_text(v, history),
    ) + "\",\"terminal\":"@ + (if game_status(v, history) is Some {
        "true"@
    } else {
        "false"@
    }) + ",\"depth\":"@ + decimal(depth as nat) + ",\"sideToMove\":\""@ + (if v.side
        == Color::White {
        "white"@
    } else {
        "black"@
    }) + "\",\"thinking\":false}"@
}

/// The move the player asks for with `text`, or why it is refused.
pub open spec fn human_move(v: PositionView, history: Seq<u64>, text: Seq<char>) -> Result<Move, Seq<char>> {
    if game_status(v, history) is Some {
        Err("This game has already finished. Start a new game."@)
    } else if v.side != Color::White {
        Err("Please wait for the engine's move."@)
    } else {
        match uci_move_of(text) {
            None => Err("Move must be a UCI move such as e2e4."@),
            Some(parsed) => if legal_seq(v).contains(parsed) {
                Ok(parsed)
            } else {
                Err("That move is not legal in the current position."@)
            },
        }
    }
}

/// A single local game where the browser is always White and the engine is Black.
pub struct GameSession {
    position: Position,
    history: Vec<u64>,
    moves: Vec<String>,
    depth: u8,
}

impl GameSession {
    /// The position is well formed and the depth lies between 1 and 6.
    pub closed spec fn wf(&self) -> bool {
        self.position.wf() && MIN_DEPTH <= self.depth <= MAX_DEPTH
    }

    pub closed spec fn board(&self) -> PositionView {
        self.position@
    }

    /// Repetition keys of every position of the game, the current one last.
    pub closed spec fn history_keys(&self) -> Seq<u64> {
        self.history@
    }

    /// The moves played, in UCI notation.
    pub closed spec fn played(&self) -> Seq<Seq<char>> {
        self.moves@.map_values(|s: String| s@)
    }

    pub closed spec fn depth_setting(&self) -> u8 {
        self.depth
    }

    /// The session's JSON state.
    pub open spec fn state(&self) -> Seq<char> {
        state_text(self.board(), self.history_keys(), self.played(), self.depth_setting())
    }

    /// A fresh game from the start position.
    pub open spec fn is_fresh(&self, depth: u8) -> bool {
        &&& self.board() == start_view()
        &&& self.history_keys() == seq![board_key(start_view())]
        &&& self.played() == Seq::<Seq<char>>::empty()
        &&& self.depth_setting() == depth
    }

    /// `after` is `self` after playing `mv` (which the player asked for) and, unless that
    /// ended the game, the engine's reply (see `engine_reply`), which is one of the legal
    /// moves.
    pub open spec fn after_human_move(&self, after: GameSession, mv: Move) -> bool {
        let v1 = spec_make(self.board(), mv);
        let h1 = self.history_keys().push(board_key(v1));
        let p1 = self.played().push(uci_text(mv));
        &&& after.depth_setting() == self.depth_setting()
        &&& if game_status(v1, h1) is Some {
            &&& after.board() == v1
            &&& after.history_keys() == h1
            &&& after.played() == p1
        } else {
            let reply = engine_reply(v1, h1, self.depth_setting());
            &&& reply matches Some(m) && legal_seq(v1).contains(m)
            &&& after.board() == spec_make(v1, reply->0)
            &&& after.history_keys() == h1.push(board_key(spec_make(v1, reply->0)))
            &&& after.played() == p1.push(uci_text(reply->0))
        }
    }

    /// A game from the start position, searching `depth` plies (brought into 1 to 6).
    pub fn new(depth: u8) -> (r: GameSession)
        ensures
            r.wf(),
            r.is_fresh(clamp_depth_spec(depth)),
    {
        let position = Position::startpos();
        let mut history: Vec<u64> = Vec::new();
        history.push(repetition_key(&position));
        let r = GameSession { position, history, moves: Vec::new(), depth: clamp_depth(depth) };
        proof {
            assert(r.played() =~= Seq::<Seq<char>>::empty());
            assert(r.history_keys() =~= seq![board_key(start_view())]);
        }
        r
    }

    /// Starts a new game, changing the depth when one is given.
    pub fn reset(&mut self, depth: Option<u8>)
        requires
            old(self).wf(),
        ensures
            final(self).wf(),
            final(self).is_fresh(
                match depth {
                    Some(d) => clamp_depth_spec(d),
                    None => old(self).depth_setting(),
                },
            ),
    {
        match depth {
            Some(d) => {
                self.depth = clamp_depth(d);
            },
            None => {},
        }
        self.position = Position::startpos();
        let mut history: Vec<u64> = Vec::new();
        history.push(repetition_key(&self.position));
        self.history = history;
        self.moves = Vec::new();
        proof {
            assert(self.played() =~= Seq::<Seq<char>>::empty());
            assert(self.history_keys() =~= seq![board_key(start_view())]);
        }
    }

    /// How the game ended, if it did.
    fn terminal_status(&mut self) -> (r: Option<String>)
        requires
            old(self).wf(),
        ensures
            *final(self) == *old(self),
            match r {
                Some(s) => game_status(old(self).board(), old(self).history_keys()) == Some(s@),
                None => game_status(old(self).board(), old(self).history_keys()) is None,
            },
    {
        let legal = legal_moves(&mut self.position);
        if legal.len() == 0 {
            let text = if in_check(&self.position, self.position.side_to_move()) {
                if self.position.side_to_move().is_white() {
                    "Checkmate — Black wins."
                } else {
                    "Checkmate — White wins."
                }
            } else {
                "Draw — stalemate."
            };
            return Some(string_of(&chars_of(text)));
        }
        if self.position.is_insufficient_material() {
            return Some(string_of(&chars_of("Draw — insufficient material.")));
        }
        if self.position.halfmove_clock() >= 100 {
            return Some(string_of(&chars_of("Draw — fifty-move rule.")));
        }
        let current = repetition_key(&self.position);
        let mut count: usize = 0;
        let mut i: usize = 0;
        while i < self.history.len()
            invariant
                0 <= i <= self.history@.len(),
                count == occurrences(self.history@.take(i as int), current),
                count <= i,
            decreases self.history@.len() - i,
        {
            proof {
                assert(self.history@.take(i + 1).drop_last() =~= self.history@.take(i as int));
            }
            if self.history[i] == current {
                count = count + 1;
            }
            i = i + 1;
        }
        proof {
            assert(self.history@.take(i as int) =~= self.history@);
        }
        if count >= 3 {
            return Some(string_of(&chars_of("Draw — threefold repetition.")));
        }
        None
    }

    /// The game's JSON state for the browser.
    pub fn state_json(&mut self) -> (r: String)
        requires
            old(self).wf(),
        ensures
            *final(self) == *old(self),
            r@ == old(self).state(),
    {
        let ghost v = self.position@;
        let ghost h = self.history@;
        let status = self.terminal_status();
        let white = self.position.side_to_move().is_white();
        let mut out = String::new();
        append_str(&mut out, "{\"fen\":\"");
        let fen = self.position.to_fen();
        append_escaped(&mut out, &chars_of(fen.as_str()));
        append_str(&mut out, "\",\"legalMoves\":[");
        if white && status.is_none() {
            let legal = legal_moves(&mut self.position);
            append_move_list(&mut out, &legal);
        } else {
            proof {
                assert(quoted_list(Seq::<Seq<char>>::empty()) == Seq::<char>::empty());
            }
        }
        append_str(&mut out, "],\"moves\":[");
        append_text_list(&mut out, &self.moves);
        append_str(&mut out, "],\"status\":\"");
        match &status {
            Some(t) => {
                append_escaped(&mut out, &chars_of(t.as_str()));
            },
            None => {
                if white {
                    append_escaped(&mut out, &chars_of("Your move"));
                } else {
                    append_escaped(&mut out, &chars_of("Engine to move"));
                }
            },
        }
        append_str(&mut out, "\",\"terminal\":");
        if status.is_some() {
            append_str(&mut out, "true");
        } else {
            append_str(&mut out, "false");
        }
        append_str(&mut out, ",\"depth\":");
        push_decimal(&mut out, self.depth as u64);
        append_str(&mut out, ",\"sideToMove\":\"");
        if white {
            append_str(&mut out, "white");
        } else {
            append_str(&mut out, "black");
        }
        append_str(&mut out, "\",\"thinking\":false}");
        proof {
            assert(out@ =~= state_text(v, h, self.played(), self.depth));
        }
        out
    }
}

/// `depth` brought into the range 1 to 6.
pub open spec fn clamp_depth_spec(depth: u8) -> u8 {
    if depth < MIN_DEPTH {
        MIN_DEPTH
    } else if depth > MAX_DEPTH {
        MAX_DEPTH
    } else {
        depth
    }
}

proof fn lemma_quoted_list_take(items: Seq<Seq<char>>, i: int)
    requires
        0 <= i < items.len(),
    ensures
        quoted_list(items.take(i + 1)) == quoted_list(items.take(i)) + (if i > 0 {
            seq![',']
        } else {
            seq![]
        }) + quoted(items[i]),
{
    assert(items.take(i + 1).drop_last() =~= items.take(i));
    if i == 0 {
        assert(quoted_list(items.take(0)) =~= Seq::<char>::empty());
    }
}

/// Appends the moves, quoted and comma separated, to `out`.
fn append_move_list(out: &mut String, moves: &Vec<Move>)
    ensures
        final(out)@ == old(out)@ + quoted_list(moves@.map_values(|m: Move| uci_text(m))),
{
    let ghost o0 = out@;
    let ghost items = moves@.map_values(|m: Move| uci_text(m));
    let mut i: usize = 0;
    while i < moves.len()
        invariant
            0 <= i <= moves@.len(),
            items == moves@.map_values(|m: Move| uci_text(m)),
            out@ == o0 + quoted_list(items.take(i as int)),
        decreases moves@.len() - i,
    {
        proof {
            lemma_quoted_list_take(items, i as int);
        }
        if i > 0 {
            push_char(out, ',');
        }
        push_char(out, '"');
        append_str(out, moves[i].to_uci().as_str());
        push_char(out, '"');
        proof {
            assert(out@ =~= o0 + quoted_list(items.take(i + 1)));
        }
        i = i + 1;
    }
    proof {
        assert(items.take(i as int) =~= items);
    }
}

/// Appends the texts, quoted and comma separated, to `out`.
fn append_text_list(out: &mut String, texts: &Vec<String>)
    ensures
        final(out)@ == old(out)@ + quoted_list(texts@.map_values(|s: String| s@)),
{
    let ghost o0 = out@;
    let ghost items = texts@.map_values(|s: String| s@);
    let mut i: usize = 0;
    while i < texts.len()
        invariant
            0 <= i <= texts@.len(),
            items == texts@.map_values(|s: String| s@),
            out@ == o0 + quoted_list(items.take(i as int)),
        decreases texts@.len() - i,
    {
        proof {
            lemma_quoted_list_take(items, i as int);
        }
        if i > 0 {
            push_char(out, ',');
        }
        push_char(out, '"');
        append_str(out, texts[i].as_str());
        push_char(out, '"');
        proof {
            assert(out@ =~= o0 + quoted_list(items.take(i + 1)));
        }
        i = i + 1;
    }
    proof {
        assert(items.take(i as int) =~= items);
    }
}

/// A suffix of `s` holds `k` no more often than `s`.
proof fn lemma_occurrences_suffix(s: Seq<u64>, start: int, k: u64)
    requires
        0 <= start <= s.len(),
    ensures
        occurrences(s.subrange(start, s.len() as int), k) <= occurrences(s, k),
    decreases s.len(),
{
    if start < s.len() {
        let t = s.subrange(start, s.len() as int);
        assert(t.drop_last() =~= s.drop_last().subrange(start, s.len() - 1));
        lemma_occurrences_suffix(s.drop_last(), start, k);
    } else {
        assert(s.subrange(start, s.len() as int) =~= Seq::<u64>::empty());
    }
}

/// The engine's move in `v`, the game's positions having the repetition keys `history` (`v`'s
/// last): iterative deepening to `depth` plies with the transposition table, from the
/// positions that the reversible moves since the last irreversible one could repeat.
pub open spec fn engine_reply(v: PositionView, history: Seq<u64>, depth: u8) -> Option<Move> {
    deepened(v, root_path(history.drop_last(), v.halfmove as int, board_key(v)), depth as int, true).1
}

/// A position that the game's status calls unfinished needs a search from its root: the
/// search's repetition path is a suffix of the game's history.
proof fn lemma_unfinished_root_unsettled(v: PositionView, history: Seq<u64>)
    requires
        history.len() > 0,
        history.last() == board_key(v),
        game_status(v, history) is None,
    ensures
        settled_value(v, root_path(history.drop_last(), v.halfmove as int, board_key(v)), 0) is None,
{
    let prior = history.drop_last();
    let path = root_path(prior, v.halfmove as int, board_key(v));
    let start = if prior.len() >= v.halfmove {
        prior.len() - v.halfmove
    } else {
        0
    };
    assert(path =~= history.subrange(start, history.len() as int));
    lemma_occurrences_suffix(history, start, board_key(v));
    assert(!is_repeated(path));
    assert(!is_drawn(v, path));
}

impl GameSession {
    /// Plays `mv` and records it.
    fn apply(&mut self, mv: Move)
        requires
            old(self).wf(),
            move_ok(old(self).board(), mv),
        ensures
            final(self).wf(),
            final(self).board() == spec_make(old(self).board(), mv),
            final(self).history_keys() == old(self).history_keys().push(board_key(final(self).board())),
            final(self).played() == old(self).played().push(uci_text(mv)),
            final(self).depth_setting() == old(self).depth_setting(),
    {
        let _ = self.position.make_move(mv);
        self.moves.push(mv.to_uci());
        self.history.push(repetition_key(&self.position));
        proof {
            assert(self.played() =~= old(self).played().push(uci_text(mv)));
        }
    }

    /// Plays the player's move, given in UCI notation, then lets the engine answer unless the
    /// game has ended.
    pub fn play_human_move(&mut self, uci: &str) -> (r: Result<(), String>)
        requires
            old(self).wf(),
        ensures
            final(self).wf(),
            match human_move(old(self).board(), old(self).history_keys(), uci@) {
                Err(e) => r is Err && r->Err_0@ == e && *final(self) == *old(self),
                Ok(mv) => r is Ok && old(self).after_human_move(*final(self), mv),
            },
    {
        let ghost s0 = *self;
        match self.terminal_status() {
            Some(_) => {
                return Err(string_of(&chars_of("This game has already finished. Start a new game.")));
            },
            None => {},
        }
        if !self.position.side_to_move().is_white() {
            return Err(string_of(&chars_of("Please wait for the engine's move.")));
        }
        let parsed = match Move::from_uci(uci) {
            Some(m) => m,
            None => {
                return Err(string_of(&chars_of("Move must be a UCI move such as e2e4.")));
            },
        };
        let legal = legal_moves(&mut self.position);
        let mut found: Option<usize> = None;
        let mut i: usize = 0;
        while i < legal.len() && found.is_none()
            invariant
                0 <= i <= legal@.len(),
                found matches Some(k) ==> k < legal@.len() && legal@[k as int] == parsed,
                found is None ==> forall|j: int| 0 <= j < i ==> legal@[j] != parsed,
            decreases legal@.len() - i, (if found is None { 1int } else { 0int }),
        {
            if legal[i] == parsed {
                found = Some(i);
            } else {
                i = i + 1;
            }
        }
        let k = match found {
            Some(k) => k,
            None => {
                proof {
                    assert(!legal_seq(s0.board()).contains(parsed));
                }
                return Err(string_of(&chars_of("That move is not legal in the current position.")));
            },
        };
        let mv = legal[k];
        proof {
            assert(legal_seq(s0.board()).contains(parsed));
            assert(move_ok(s0.board(), legal@[k as int]));
        }
        self.apply(mv);
        let ghost after_human = *self;
        if self.terminal_status().is_none() {
            let n = self.history.len();
            let mut prior: Vec<u64> = Vec::new();
            let mut j: usize = 0;
            while j + 1 < n
                invariant
                    0 <= j <= n - 1,
                    n == self.history@.len(),
                    n >= 1,
                    prior@ == self.history@.take(j as int),
                decreases n - j,
            {
                prior.push(self.history[j]);
                proof {
                    assert(prior@ =~= self.history@.take(j + 1));
                }
                j = j + 1;
            }
            proof {
                assert(prior@ =~= self.history@.drop_last());
                lemma_unfinished_root_unsettled(self.board(), self.history@);
            }
            let mut searcher = Searcher::new();
            let result = searcher.search_with_history(&mut self.position, self.depth, None, prior.as_slice());
            match result.best_move {
                Some(reply) => {
                    let ghost v1 = self.board();
                    let check = legal_moves(&mut self.position);
                    proof {
                        let idx = choose|idx: int| 0 <= idx < legal_seq(v1).len() && legal_seq(v1)[idx] == reply;
                        assert(move_ok(v1, check@[idx]));
                    }
                    self.apply(reply);
                    proof {
                        assert(legal_seq(v1).contains(reply));
                    }
                },
                None => {},
            }
        }
        Ok(())
    }
}

/// What `route` answers and does to the session for a request with `method`, `path` and
/// `body`.
pub open spec fn route_outcome(
    before: GameSession,
    after: GameSession,
    method: Seq<char>,
    path: Seq<char>,
    body: Seq<char>,
    assets: WebAssets,
    r: Response,
) -> bool {
    let json = "application/json; charset=utf-8"@;
    if method == "GET"@ && path == "/"@ {
        r.status == 200 && r.content_type@ == "text/html; charset=utf-8"@ && r.body@ == assets.index@
            && after == before
    } else if method == "GET"@ && path == "/style.css"@ {
        r.status == 200 && r.content_type@ == "text/css; charset=utf-8"@ && r.body@ == assets.style@
            && after == before
    } else if method == "GET"@ && path == "/app.js"@ {
        r.status == 200 && r.content_type@ == "application/javascript; charset=utf-8"@ && r.body@
            == assets.app@ && after == before
    } else if method == "GET"@ && path == "/api/state"@ {
        r.status == 200 && r.content_type@ == json && r.body@ == before.state() && after == before
    } else if method == "POST"@ && path == "/api/new"@ {
        match depth_request(body) {
            Ok(d) => {
                &&& after.is_fresh(
                    match d {
                        Some(d) => clamp_depth_spec(d),
                        None => before.depth_setting(),
                    },
                )
                &&& r.status == 200 && r.content_type@ == json && r.body@ == after.state()
            },
            Err(e) => r.status == 400 && r.content_type@ == json && r.body@ == error_body(e)
                && after == before,
        }
    } else if method == "POST"@ && path == "/api/move"@ {
        match string_field(body, "move"@) {
            None => r.status == 400 && r.content_type@ == json && r.body@ == error_body(
                "Expected JSON with a string move field."@,
            ) && after == before,
            Some(text) => match human_move(before.board(), before.history_keys(), text) {
                Err(e) => r.status == 400 && r.content_type@ == json && r.body@ == error_body(e)
                    && after == before,
                Ok(mv) => before.after_human_move(after, mv) && r.status == 200 && r.content_type@
                    == json && r.body@ == after.state(),
            },
        }
    } else if method == "GET"@ && has_prefix(path, "/api/"@) {
        r.status == 404 && r.content_type@ == json && r.body@ == error_body("Unknown API endpoint."@)
            && after == before
    } else {
        r.status == 404 && r.content_type@ == "text/plain; charset=utf-8"@ && r.body@
            == "Not found\n"@ && after == before
    }
}

/// Answers one request of the board's HTTP interface.
pub fn route(session: &mut GameSession, request: &Request, assets: &WebAssets) -> (r: Response)
    requires
        old(session).wf(),
    ensures
        final(session).wf(),
        route_outcome(
            *old(session),
            *final(session),
            request.method@,
            request.path@,
            request.body@,
            *assets,
            r,
        ),
{
    let method = request.method.as_str();
    let path = request.path.as_str();
    let get = is_text(method, "GET");
    let post = is_text(method, "POST");
    if get && is_text(path, "/") {
        return Response::text(200, assets.index.as_str(), "text/html; charset=utf-8");
    }
    if get && is_text(path, "/style.css") {
        return Response::text(200, assets.style.as_str(), "text/css; charset=utf-8");
    }
    if get && is_text(path, "/app.js") {
        return Response::text(200, assets.app.as_str(), "application/javascript; charset=utf-8");
    }
    if get && is_text(path, "/api/state") {
        return Response::json(200, session.state_json());
    }
    if post && is_text(path, "/api/new") {
        return match optional_depth(request.body.as_str()) {
            Ok(depth) => {
                session.reset(depth);
                Response::json(200, session.state_json())
            },
            Err(message) => Response::error(400, message.as_str()),
        };
    }
    if post && is_text(path, "/api/move") {
        return match json_string_field(request.body.as_str(), "move") {
            Some(mv) => match session.play_human_move(mv.as_str()) {
                Ok(()) => Response::json(200, session.state_json()),
                Err(message) => Response::error(400, message.as_str()),
            },
            None => Response::error(400, "Expected JSON with a string move field."),
        };
    }
    if get && begins_with(&chars_of(path), "/api/") {
        return Response::error(404, "Unknown API endpoint.");
    }
    Response::text(404, "Not found\n", "text/plain; charset=utf-8")
}

// ---------------------------------------------------------------------------------------
// The request head.
// ---------------------------------------------------------------------------------------

/// `m` occurs somewhere in `s`.
pub open spec fn contains_text(s: Seq<char>, m: Seq<char>) -> bool {
    first_occurrence(s, m) is Some
}

/// The method and path of an acceptable request line, or why it is refused: it must fit the
/// header limit and be `GET` or `POST`, an absolute path without a query or `..`, and
/// `HTTP/1.1`.
pub open spec fn request_line(line: Seq<char>) -> Result<(Seq<char>, Seq<char>), Seq<char>> {
    let t = tokens(line);
    if utf8_len(line) > MAX_HEADER_BYTES {
        Err("Request header is too large."@)
    } else if t.len() < 3 {
        Err("Malformed request line."@)
    } else if t.len() > 3 || t[2] != "HTTP/1.1"@ || !(t[0] == "GET"@ || t[0] == "POST"@)
        || !has_prefix(t[1], "/"@) || t[1].contains('?') || contains_text(t[1], seq!['.', '.']) {
        Err("Malformed request."@)
    } else {
        Ok((t[0], t[1]))
    }
}

/// `a` and `b` are equal up to ASCII case.
pub open spec fn same_ignoring_case(a: Seq<char>, b: Seq<char>) -> bool {
    a.len() == b.len() && forall|i: int| 0 <= i < a.len() ==> ascii_lower(#[trigger] a[i]) == ascii_lower(b[i])
}

/// The effect of one more header line, given the bytes of the head read so far and the
/// content length seen so far: the new byte count and content length, and whether the line
/// ended the head; or why the request is refused.
pub open spec fn header_line(bytes: nat, content_length: nat, line: Seq<char>) -> Result<(nat, nat, bool), Seq<char>> {
    let total = bytes + utf8_len(line);
    if total > MAX_HEADER_BYTES {
        Err("Request header is too large."@)
    } else if line == "\r\n"@ || line == "\n"@ {
        Ok((total, content_length, true))
    } else {
        match declared_content_length(trim_end(line)) {
            Ok(Some(n)) => Ok((total, n, false)),
            Ok(None) => Ok((total, content_length, false)),
            Err(e) => Err(e),
        }
    }
}

/// The request line and headers read so far.
pub struct RequestHead {
    method: String,
    path: String,
    content_length: usize,
    bytes: usize,
}

impl RequestHead {
    pub closed spec fn method_text(&self) -> Seq<char> {
        self.method@
    }

    pub closed spec fn path_text(&self) -> Seq<char> {
        self.path@
    }

    /// The declared body length.
    pub closed spec fn declared_length(&self) -> nat {
        self.content_length as nat
    }

    /// Bytes of the head read so far.
    pub closed spec fn head_bytes(&self) -> nat {
        self.bytes as nat
    }

    /// Checks the request line (as read, line end included) and starts a request head.
    pub fn from_request_line(line: &str) -> (r: Result<RequestHead, String>)
        ensures
            match request_line(line@) {
                Ok((method, path)) => r matches Ok(h) && h.method_text() == method && h.path_text()
                    == path && h.declared_length() == 0 && h.head_bytes() == utf8_len(line@),
                Err(e) => r is Err && r->Err_0@ == e,
            },
    {
        let cs = chars_of(line);
        let bytes = utf8_length(&cs);
        if bytes > MAX_HEADER_BYTES {
            return Err(string_of(&chars_of("Request header is too large.")));
        }
        let t = split_tokens(&cs);
        if t.len() < 3 {
            return Err(string_of(&chars_of("Malformed request line.")));
        }
        let method = &t[0];
        let path = &t[1];
        let bad_version = !crate::text::same_chars(&t[2], &chars_of("HTTP/1.1"));
        let bad_method = !crate::text::same_chars(method, &chars_of("GET")) && !crate::text::same_chars(
            method,
            &chars_of("POST"),
        );
        let relative = !begins_with(path, "/");
        let mut query = false;
        let mut i: usize = 0;
        while i < path.len()
            invariant
                0 <= i <= path@.len(),
                query == exists|j: int| 0 <= j < i && path@[j] == '?',
            decreases path@.len() - i,
        {
            if path[i] == '?' {
                query = true;
            }
            i = i + 1;
        }
        let mut dot_dot: Vec<char> = Vec::new();
        dot_dot.push('.');
        dot_dot.push('.');
        proof {
            assert(dot_dot@ =~= seq!['.', '.']);
        }
        let dots = find_chars(path, &dot_dot).is_some();
        proof {
            assert(views(t@)[0] == t@[0]@);
            assert(views(t@)[1] == t@[1]@);
            assert(views(t@)[2] == t@[2]@);
            if query {
                let j = choose|j: int| 0 <= j < path@.len() && path@[j] == '?';
                assert(path@.contains('?'));
            }
            if path@.contains('?') {
                let j = choose|j: int| 0 <= j < path@.len() && path@[j] == '?';
                assert(query);
            }
        }
        if t.len() > 3 || bad_version || bad_method || relative || query || dots {
            return Err(string_of(&chars_of("Malformed request.")));
        }
        Ok(
            RequestHead {
                method: string_of(method),
                path: string_of(path),
                content_length: 0,
                bytes,
            },
        )
    }

    /// Takes one header line (as read, line end included); `Ok(true)` once the blank line
    /// that ends the head has come.
    pub fn add_header_line(&mut self, line: &str) -> (r: Result<bool, String>)
        requires
            old(self).head_bytes() <= MAX_HEADER_BYTES,
        ensures
            match header_line(old(self).head_bytes(), old(self).declared_length(), line@) {
                Ok((bytes, length, done)) => r == Ok::<bool, String>(done) && final(self).head_bytes()
                    == bytes && final(self).declared_length() == length && final(self).method_text()
                    == old(self).method_text() && final(self).path_text() == old(self).path_text(),
                Err(e) => r is Err && r->Err_0@ == e,
            },
            final(self).head_bytes() <= MAX_HEADER_BYTES,
    {
        let cs = chars_of(line);
        let width = utf8_length(&cs);
        if width > MAX_HEADER_BYTES - self.bytes {
            return Err(string_of(&chars_of("Request header is too large.")));
        }
        self.bytes = self.bytes + width;
        if crate::text::same_chars(&cs, &chars_of("\r\n")) || crate::text::same_chars(&cs, &chars_of("\n")) {
            return Ok(true);
        }
        let t = trimmed_end(&cs);
        match content_length_field(&t) {
            Ok(Some(n)) => {
                self.content_length = n;
            },
            Ok(None) => {},
            Err(e) => {
                return Err(e);
            },
        }
        Ok(false)
    }

    /// The body length to read, if it is within the limit.
    pub fn body_length(&self) -> (r: Result<usize, String>)
        ensures
            self.declared_length() > MAX_BODY_BYTES ==> r is Err && r->Err_0@
                == "Request body is too large."@,
            self.declared_length() <= MAX_BODY_BYTES ==> r == Ok::<usize, String>(
                self.declared_length() as usize,
            ),
    {
        if self.content_length > MAX_BODY_BYTES {
            Err(string_of(&chars_of("Request body is too large.")))
        } else {
            Ok(self.content_length)
        }
    }

    /// The request, with the body read after the head.
    pub fn into_request(self, body: String) -> (r: Request)
        ensures
            r.method@ == self.method_text(),
            r.path@ == self.path_text(),
            r.body@ == body@,
    {
        Request { method: self.method, path: self.path, body }
    }
}

/// The content length a header line (without its line end) declares: `Some` for a
/// `Content-Length` header with a valid value, `None` for another header or a line without
/// a colon.
pub open spec fn declared_content_length(t: Seq<char>) -> Result<Option<nat>, Seq<char>> {
    match first_occurrence(t, seq![':']) {
        Some(i) => if same_ignoring_case(t.take(i), "content-length"@) {
            match parse_unsigned(trim(t.skip(i + 1)), usize::MAX as int) {
                Some(n) => Ok(Some(n as nat)),
                None => Err("Invalid Content-Length."@),
            }
        } else {
            Ok(None)
        },
        None => Ok(None),
    }
}

fn content_length_field(t: &Vec<char>) -> (r: Result<Option<usize>, String>)
    ensures
        match declared_content_length(t@) {
            Ok(Some(n)) => r == Ok::<Option<usize>, String>(Some(n as usize)) && n <= usize::MAX,
            Ok(None) => r == Ok::<Option<usize>, String>(None),
            Err(e) => r is Err && r->Err_0@ == e,
        },
{
    let mut colon: Vec<char> = Vec::new();
    colon.push(':');
    proof {
        assert(colon@ =~= seq![':']);
    }
    match find_chars(t, &colon) {
        Some(at) => {
            let tlen = t.len();
            assert(at + 1 <= tlen);
            let name = crate::text::chars_until(t, at);
            let expected = chars_of("content-length");
            if same_ignoring_ascii_case(&name, &expected) {
                let value = trimmed(&chars_from(t, at + 1));
                match parse_number(&value, usize::MAX as u64) {
                    Some(n) => Ok(Some(n as usize)),
                    None => Err(string_of(&chars_of("Invalid Content-Length."))),
                }
            } else {
                Ok(None)
            }
        },
        None => Ok(None),
    }
}

/// Whether `a` and `b` are equal up to ASCII case.
fn same_ignoring_ascii_case(a: &Vec<char>, b: &Vec<char>) -> (r: bool)
    ensures
        r == same_ignoring_case(a@, b@),
{
    if a.len() != b.len() {
        return false;
    }
    let mut i: usize = 0;
    while i < a.len()
        invariant
            0 <= i <= a@.len(),
            a@.len() == b@.len(),
            forall|k: int| 0 <= k < i ==> ascii_lower(#[trigger] a@[k]) == ascii_lower(b@[k]),
        decreases a@.len() - i,
    {
        let x = lower_ascii(a[i]);
        let y = lower_ascii(b[i]);
        if x != y {
            return false;
        }
        i = i + 1;
    }
    true
}

fn lower_ascii(c: char) -> (r: char)
    ensures
        r == ascii_lower(c),
{
    if 'A' <= c && c <= 'Z' {
        ((c as u8) + 32) as char
    } else {
        c
    }
}

/// The reason phrase sent with a status code.
pub open spec fn reason_phrase(status: u16) -> Seq<char> {
    if status == 200 {
        "OK"@
    } else if status == 400 {
        "Bad Request"@
    } else if status == 404 {
        "Not Found"@
    } else {
        "Error"@
    }
}

/// The bytes sent for a response: status line, headers, a blank line, and the body.
pub open spec fn response_text(status: u16, content_type: Seq<char>, body: Seq<char>) -> Seq<char> {
    "HTTP/1.1 "@ + decimal(status as nat) + " "@ + reason_phrase(status) + "\r\nContent-Type: "@
        + content_type + "\r\nContent-Length: "@ + decimal(utf8_len(body)) + "\r\nCache-Control: no-store\r\nConnection: close\r\n\r\n"@ + body
}

/// The full text of `response` as sent on the wire.
pub fn render_response(response: &Response) -> (r: String)
    requires
        utf8_len(response.body@) <= usize::MAX,
    ensures
        r@ == response_text(response.status, response.content_type@, response.body@),
{
    let mut out = String::new();
    append_str(&mut out, "HTTP/1.1 ");
    push_decimal(&mut out, response.status as u64);
    append_str(&mut out, " ");
    let reason = if response.status == 200 {
        "OK"
    } else if response.status == 400 {
        "Bad Request"
    } else if response.status == 404 {
        "Not Found"
    } else {
        "Error"
    };
    append_str(&mut out, reason);
    append_str(&mut out, "\r\nContent-Type: ");
    append_str(&mut out, response.content_type);
    append_str(&mut out, "\r\nContent-Length: ");
    let body = chars_of(response.body.as_str());
    let length = utf8_length(&body);
    push_decimal(&mut out, length as u64);
    append_str(&mut out, "\r\nCache-Control: no-store\r\nConnection: close\r\n\r\n");
    append_chars(&mut out, &body);
    proof {
        assert(out@ =~= response_text(response.status, response.content_type@, response.body@));
    }
    out
}

} // verus!
