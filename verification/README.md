# pleco (verified core)

The core data structures of a chess engine, written in Verus with their
contracts proved:

- `tt`: the transposition table — clusters of entries keyed by Zobrist keys,
  probing, replacement by depth and age, sizing and clearing.
- `piece_move`, `templates`, `bitboard`, `attacks`, `board`: moves packed in 16
  bits, bitboards and how they are walked, the squares pieces attack, and a
  position with its checkers and pinned pieces.
- `movegen`: legal and pseudo-legal move generation of every kind, and
  `move_properties`, what holds of every generated move: it is well aimed, it
  is generated once, a quiet check gives check, a legal move leaves the king
  unattacked, and the legality test keeps exactly the moves that leave the
  king unattacked; and that generation misses none of the moves the rules
  allow: out of check, the steps of pieces, pawn moves and castling; in check,
  every move that leaves the king unattacked (in double check only the king's
  can).
- `threads`: the decisions of the search threads as state machines.

`app/` holds what stays outside the verified library: the thread loops that
drive those state machines with locks and channels, and the table's fill ratio
as a floating-point number.
