# rins

A discrete-event simulation of a Lloyd's-style property insurance market: insureds
request cover, a broker routes each request to ranked insurers, insurers price and
gate their quotes against their capital, policies bind and expire, attritional and
catastrophe losses become claims, and the recorded event stream is audited and
summarised year by year.

## Layout

- `src/` — the verified library (Verus). Every function carries a contract.
  - `types` — identifiers, simulation days and years, the year-to-date accumulator.
  - `config` — the insured asset value, the roster of insureds a run starts with, and
    how many insurers each request solicits.
  - `events` — the event vocabulary, risks, and the append-only event log.
  - `schedule` — the event queue (earliest day first, same-day events in the order
    scheduled) and the log it feeds; a causally scheduled run logs in day order.
  - `calendar` — year boundaries, renewal timing, first-year request spread, entry
    cooldown, the insured's answer to a quote.
  - `broker` — ranking of insurers (standing, then round-robin), lead retry on
    decline, presentation, dropped submissions.
  - `insurer` — an insurer's book: quote gating, premium and claims, insolvency
    (one notice, never undone), profit distribution and the year-end report.
  - `market` — the policy lifecycle and loss routing, with the annual cap on claims.
  - `coordinator` — the dispatcher: for each dispatched event it calls the broker,
    the market or the insurer's book, schedules what they answer, back-fills the log
    and keeps the year's counters; every handler keeps the run causal.
  - `perils` — placement of catastrophe events in the year, drawn from the seeded
    ChaCha20 generator.
  - `stats` — per-year statistics of a recorded run.
  - `analysis`, `integrity`, `stream` — the mechanics and integrity audits of a
    recorded run and the stream indexes they are specified against.
- `app/` — the command-line program: configuration, pricing and experience rating,
  the insureds' acceptance, loss sampling, relationship scores and capital entry, the
  loop that drives the dispatcher, NDJSON output and reports. These are floating
  point or I/O and are not verified.
- `tests/` — tests of the library.
