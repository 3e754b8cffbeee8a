# chiripa

Melate numbers by pure statistics. The library reads the official draw history,
counts what can be counted in it, and makes tickets with eight strategies. Every
function of it carries a contract that Verus proves, but for two that are believed:
`random_below` in `src/chance.rs`, which draws a number with the `rand` crate, and
the specification of std's `String::push` in `src/text.rs`.

- `src/draw.rs`: the history and its CSV form
- `src/stats.rs`, `src/ranking.rs`: frequencies, gaps, co-occurrences, percentiles,
  weights and ranks
- `src/chance.rs`, `src/tickets.rs`: dice, sampling by weight, and the strategies
- `src/planning.rs`: what is asked for, and the tickets that answer it
- `src/calendar.rs`: civil dates and the date of the next draw
- `src/pot.rs`: the advertised pot
- `src/summary.rs`, `src/site.rs`: what the site shows, and the steps of a refresh
- `src/combinatorics.rs`, `src/sort.rs`, `src/text.rs`: binomials, stable sorting,
  and text as characters
- `app/`: the web service around the library

Weights are integers: popularities count in tenths, and the weights of a strategy
are scaled by a common factor, which leaves the chances as they are. The bayes
strategy ranks the numbers by draws from their posterior that the service makes.

The service reads `assets/Melate.csv`, the seed history, and `app.template.html`
from the directory it is started in. Without environment variables it runs without
a backup; for the bucket set `AWS_ENDPOINT_URL_S3`, `AWS_REGION`,
`AWS_ACCESS_KEY_ID`, `AWS_SECRET_ACCESS_KEY` and `BUCKET_NAME`.

| Endpoint | Returns |
|---|---|
| `GET /api/stats` | statistics per number, pot, next draw |
| `GET /api/tickets?strategies=hot,cold&count=8&k=6` | tickets (k from 6 to 10) |
| `GET /health` | how the service is doing |
