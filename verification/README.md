# Sable

A UCI chess engine whose board, search and protocol are verified with Verus.

`src/` is the engine: everything that computes. The contracts there say what is
returned and what is changed, and Verus proves them; nothing is taken on trust.
`app/` is the console around it: a clock, standard input and output,
and the network file. `tests/` runs the engine on concrete positions.

## What is proved

- **The rules.** `rules` says what a legal move is, square by square; `movegen`
  generates exactly those moves (`legal`), `make` plays and takes them back
  without a trace, `checks` foresees checks, `fen` reads and writes positions
  (`fenlaw`).
- **The evaluation.** `eval`, `net` and `infer` compute the hand-crafted and the
  network score; `mirror` and `netlaw` prove them colour-symmetric.
- **The table.** `tt` finds again what was stored, rebases mate scores, and never
  answers from a torn entry.
- **The search.** `tree` defines what a search computes as a function of the
  position and of everything remembered (`mind`, `learn`). `quiet`, `search` and
  `think` compute exactly that, unless they are stopped. `host` keeps an account
  of what the program around the engine was asked and answered, and `clock` says
  which answers stop a search: it goes on as long as none gives a reason to end.
  A search never goes over its node budget, and `tally` shows that
  one which the budget stopped would have. `twin` shows what a search depends
  on: cleared searchers repeat each other, whatever they did before, and so does
  the benchmark. The best move is always legal. `searchlaw` holds the laws of the
  search.
- **The protocol.** `text`, `orders`, `place`, `perft`, `board`, `io` and `uci`
  turn lines into actions and answers, and what is answered is what the host is
  shown; `input` cuts bytes into lines without losing any; `benchlaw` shows that
  the positions of the benchmark can all be searched; `datagen` plays training
  games.

## Layout

| Layer | Modules |
|---|---|
| Squares and sets | `bits`, `geom`, `bb` |
| Positions and moves | `moves`, `zobrist`, `tables`, `pos`, `rules`, `make`, `movegen`, `legal`, `checks`, `fen`, `fenlaw`, `validate` |
| Evaluation | `eval`, `mirror`, `net`, `infer`, `netlaw`, `see` |
| Search | `tt`, `mind`, `learn`, `host`, `clock`, `tree`, `tally`, `twin`, `quiet`, `search`, `think`, `searchlaw` |
| Protocol | `io`, `text`, `perft`, `orders`, `place`, `board`, `benchlaw`, `uci`, `input`, `datagen` |

A position is checked once, by `Position::is_wf`; the functions that play on it
take that for granted. Laws are the public proof functions whose names begin
with `law_`.
