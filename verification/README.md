# social_schedule

Schedules for social tournaments: every round the players are split over the
tables, and a good schedule lets each player meet many different opponents and
play at many different tables.

- `src/` is the verified library (Verus):
  - `schedule` scores schedules and improves them by trading players
    (`Schedule`, `Generator`), with the laws that bound the scores by their ideals;
  - `scheduler`, `bits`, `word` and `search` are the exhaustive solver that
    works on packed search buffers, and `compact` a solver state for one fixed
    problem size;
  - `batch` is the wire format in which a server hands out search buffers and
    clients send back results, `solve` the server's share-out of the search and
    `client` what the server keeps about each client;
  - `database` holds the club's players, groups, events and match results
    (the browser pages that edit them are not part of this crate);
  - `text` writes numbers into the text grids of schedules.
- `app/` is the command line program around it: the schedule generator, the
  websocket server and the solving client.
- `tests/` runs the library on concrete values.
