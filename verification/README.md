# h5i_db_backtest

An event-driven backtester, verified with Verus.

- `src/` is the library: fixed-point arithmetic, books, orders, matching,
  margin, complete-set operations, the run loop, settlement, and the rows a
  run reads and writes. Everything in it is verified against its contracts.
- `app/` is the edge: Arrow batches, a database trait, asynchronous loading,
  and floating-point conversions.
- `tests/` runs the library with its outside crates linked.

The laws the library keeps are public proof functions beside what they speak
of:

- a merge loses nothing and orders totally (`replay`), timers fire in one
  order (`clock`), and what is sent arrives once its latency has elapsed, in
  one order, as it stands by then (`wire`);
- a command, a call of the strategy, a fill and the matching of an order have
  one outcome each (`outcome`, `ledger`), and so has a whole run (`rerun`):
  engines built from the same settings (`builder`), run over the same records
  by strategies that ask for the same of the same calls, end with the same
  report; a replayed strategy asks for what its script and what it is shown
  make of it (`strategy`);
- no fill precedes the data it rests on, and a run that was finished can be
  finished again and reports the same (`kernel`);
- every mark is the one its sources give, and a gap in the data leaves it as it
  was (`market`);
- positions, profit and commissions are what the fills make of them unless a
  split restated them (`kernel`, `position`);
- a conversion is a redemption, and a redemption of what was minted is not
  refused and undoes the mint but for the costs (`complete`); a complete set settles for one (`settlement`);
- an order-by-order book is what it has heard, in the order it joined (`l3`);
  walking a book conserves quantity, and only a fresh book shows anything
  (`book`); a book is never replayed across a gap (`store`);
- a schedule hands over everything it was given (`request`);
- a fee tier follows the volume of the trailing window, and rounding is given
  back over the fills of an order (`models`);
- every forecast is scored or counted as unscored, once (`run`);
- what is written to a table is what is read from it (`feed`, `prints`,
  `catalogue`, `outputs`, `decimal`).
