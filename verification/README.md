# Rookery

Rookery is a small bitboard chess engine whose library is written in Verus: the functions in
`src/` carry contracts that Verus proves. The exceptions are four small trusted wrappers in
`src/search.rs` and `src/text.rs` around the standard library (`Instant::now`,
`Instant::checked_add`, comparing two `Instant`s, and `String::push`) and the declaration of
`std::time::Instant`; their contracts are believed, not proved.

## Layout

- `src/bits.rs`, `src/bitboard.rs`, `src/attacks.rs` — squares, colors, pieces and the
  attack sets of each piece, specified square by square.
- `src/chess_move.rs` — moves in UCI notation (`e2e4`, `e7e8q`), with the round trip between
  a move and its text.
- `src/position.rs` — the board and game state, make/unmake (taking a move back restores the
  position exactly), king lookup and the insufficient-material rule.
- `src/movegen.rs` — attack detection, pseudo-legal and legal move generation, perft (also
  in a checked form that answers `None` when the count does not fit in `u64`).
- `src/fen.rs`, `src/fen_roundtrip.rs` — FEN parsing (with the exact error for each kind of
  malformed input) and writing; writing a position and parsing the text gives it back. A
  castling field must name each right at most once: a repeated letter is refused as a
  duplicate. The letters may come in any order, because the field stands for a set of rights
  and the order carries nothing; written positions always spell them `KQkq`.
- `src/hash.rs` — Zobrist keys: the repetition key (which ignores the clocks and an
  en-passant square no legal capture can use) and the transposition key.
- `src/move_laws.rs` — what the generator produces: every pseudo-legal move takes an own
  piece to an empty square or onto an enemy piece other than the king, promotes exactly when a
  pawn reaches the last rank (with all four promotions), and no move comes twice; every legal
  move can be made and taken back, and a whole line of legal moves taken back in reverse order
  restores the starting position.
- `src/material_laws.rs` — the dead-material rule read off the piece bitboards.
- Positions read from FEN, and positions reached from them by legal moves, can always be
  written back (`fen_roundtrip.rs`), so the write-then-read round trip covers every position
  the library builds.
- `src/en_passant.rs` — the en-passant part of the repetition key against the legal moves:
  with one king of the side to move, the key names the target exactly when a legal move
  takes a pawn onto it, so the key then differs from that of the position without the
  en-passant square.
- `src/search.rs`, `src/search_values.rs` — iterative-deepening alpha-beta search with
  quiescence, draw rules and a transposition table. The recursive values the searches compute
  are specified in `search_values.rs`: with or without the table, the searches return exactly
  those values (and leave exactly the table they specify), and an unlimited search reports
  what iterative deepening over them chooses. Without the table, both searches also agree with
  the plain minimax values inside every window, and the root search reports the best move's
  value. The node counts are specified too, and a search cut short by its time limit or
  cancel flag reports the result of its last completed iteration that chose a move.
- `src/web.rs` — the playable board's game session, JSON state, routing and request-head
  checks.
- `src/uci.rs` — the UCI front end's decisions: command classification, `position` set-up,
  `go` depth and time budget, and result reports.
- `src/uci_loop.rs` — the UCI loop's state: lines that arrive during a search wait and are
  handled oldest first afterwards, and after `quit` (or the end of input) during a search the
  engine leaves without reporting that search.
- `app/` — the programs: a UCI engine on standard input/output, and with the argument `web`
  (optionally followed by an address) the local web board, which serves
  `web/index.html`, `web/style.css` and `web/app.js` from the working directory.
- `tests/` — regression and scenario tests.
