# futarch

A deterministic, transport-agnostic state machine for futarchy-based chat
moderation, written in Verus. Participants place secret directional bets on a
proposed action (remove a message, restrict a user for a duration); when the
supporting side clears a relative threshold and a floor, the action executes
and the winning side takes the pot.

`src/` is the verified library. Every public function states in its contract
what it returns or changes, and the room-wide rules are proved. `Room::sound`
gathers them; `Room::genesis` and `Room::from_log` build sound rooms (when the
founders' tokens fit a `u64`), `Room::tick` keeps them sound, and `Room::apply`
keeps them sound unless it returns `Overflow` or opens a proposal under an id
that is already open:

- every command that succeeds or leaves the cache untouched keeps the balance
  cache equal to a replay of genesis plus the settlement log, with the supply
  equal to the sum of balances (`Room::apply`);
- one open proposal per proposer and per `(target, action)` pair, every open
  proposal's action valid for its target, and at most one outstanding free
  commitment per user (`Room::apply`, `room::law_one_open_proposal_per_proposer`);
- no user ever has more locked than their balance, so `available` is the
  balance less the locks exactly; settling a due proposal succeeds when the
  supply has room for one token per commitment on it, and otherwise can fail
  only with `Overflow` (`Room::apply`);
- genesis grants one token per founder, free mints set a balance to one token
  and never add, the supply moves only by burns and mints, and replay is a
  fold of the settlement effect over the log (`balances`);
- the hashed encodings are unambiguous: a settlement's hash covers every field
  but `this_hash`, and genesis and proposal-id bodies determine their inputs
  (`decode`);
- appending to the log never lifts or shortens a restriction, and a longer one
  takes over from its start (`restriction`);
- the pot split never pays out more than the pot, and free committers never
  share it (`payout`, `room`);
- an honest opening opens, and the committed messages determine the opening
  (`proposal`, `commitment`).

SHA-256 comes from the `sha2` crate through one trusted wrapper,
`crypto::sha256`, whose contract names the digest and says nothing more.

`tests/` runs the library on concrete scenarios. `app/` holds host-side glue:
an error type with readable messages and a display for amounts.
