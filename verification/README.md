# rust_game_common

Building blocks for a small survival game, split in two:

- `src/` is the verified library (Verus). It holds everything whose state is
  made of integers, characters and lists: the compass `Direction` and the
  step it makes, the list operations of item containers (keeping, splitting,
  taking out and stably ordering stacks), the error and signal enums, the
  character `ConsoleMap` with its redraw bookkeeping and the status gauge,
  the selection made from independent random draws, and the in-world clock
  arithmetic. Each public function carries a contract, and the laws that
  relate several of them are proof functions next to them.
- `app/` is the unverified layer: the types whose state is floating point
  (`Position`, `BoundedStatus`, item stacks and containers, `GameTime`),
  the random draws themselves (`rand`), loading RON files (`ron`, `serde`)
  and printing to the terminal. It calls the library for every decision that
  does not depend on a floating-point value.
