# play2048_ai

A 2048 engine on packed 64-bit boards (sixteen 4-bit cells), written in
Verus with its behaviour stated in contracts and proved.

- `src/` is the verified library: the board primitives (`board`, `line`), the
  move and score tables (`tables`), the greedy strategy and the search settings
  (`algorithms`), the engine's selectable state (`engine`), and the endgame
  engine (`endgame`): board symmetries, tile statistics, the row evaluation,
  the search cache, the masking of large tiles, the endgame search itself,
  the per-move decisions, and the tablebase file format with its lookups.
- `tests/` runs the library on concrete boards.
- `app/` is the C interface around the library, with the parts that work in
  floating point: the expectimax search, its heuristic table, and the endgame
  engine's time budget and win-rate handling. The endgame tablebase is read
  from `data/endgame_tablebase.bin` at run time.

Laws of the library are public proof functions named `lemma_*`, for example
`tables::lemma_move_result_unique`, `endgame::moves::lemma_move_through_symmetry`,
`endgame::moves::lemma_move_keeps_board_sum`, `endgame::symmetry::lemma_symmetry_compose`,
`endgame::cache::lemma_update_then_lookup` and `endgame::player::lemma_override_scores`.
