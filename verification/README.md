# coup_constraint

Card counting for the game Coup, verified with Verus.

The library tracks, along a game's public moves, what is known of where the fifteen cards
(three copies each of Ambassador, Assassin, Captain, Duke and Contessa) are: the dead cards of
each player, the cards each player and the pile are known to hold, groups of players (and
the pile) known to share copies of a card, and which cards each of them cannot hold. Looking
back over the history, it can learn what a blind redraw must have drawn, record it, and
replay every later move from the first entry (the proofs state that each replayed entry's
dead cards are the discards its history records; the other facts of a replayed entry are
recomputed but not stated).

Layout:

- `src/card.rs`: the cards and counting over sequences of cards.
- `src/group.rs`: `CompressedGroupConstraint`, a group of participants sharing copies of a
  card, with its counts kept within three.
- `src/path_dependent_collective_constraint.rs` and the modules under
  `src/path_dependent_collective_constraint/`: the state (`PathDependentCollectiveConstraint`),
  its history of moves, and the moves, pruning, inference and look-back over it.
- `src/path_dependent_prob.rs`: `PathDependentCardCountManager`, the stack of states that
  records public actions and takes them back.
- `tests/`: tests on concrete games.
- `app/`: logging of states, outside the verified library.
