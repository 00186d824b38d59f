//! Sable: a chess engine core whose rules are proved.
pub mod bits;
pub mod geom;
pub mod bb;
pub mod moves;
pub mod zobrist;
pub mod tables;
pub mod pos;
pub mod rules;
pub mod make;
pub mod movegen;
pub mod legal;
pub mod checks;
pub mod fen;
pub mod fenlaw;
pub mod validate;
pub mod eval;
pub mod mirror;
pub mod net;
pub mod infer;
pub mod netlaw;
pub mod tt;
pub mod see;
pub mod mind;
pub mod learn;
pub mod clock;
pub mod host;
pub mod tree;
pub mod tally;
pub mod twin;
pub mod lines;
pub mod quiet;
pub mod search;
pub mod io;
pub mod think;
pub mod text;
pub mod perft;
pub mod orders;
pub mod place;
pub mod board;
pub mod benchlaw;
pub mod uci;
pub mod input;
pub mod datagen;
pub mod searchlaw;
pub mod rootlaw;
pub mod saylaw;
pub mod evallaw;
pub mod nodelaw;
pub mod learnlaw;
pub mod tradelaw;
pub mod movelaw;
