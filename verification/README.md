# Predict-o-matic

A webapp for running internal prediction markets: users deposit points into
markets, trade outcome shares against an automated market maker, and are
paid out when an administrator resolves the market.

The crate is in two parts.

- `src/` is the library, verified with Verus. It holds the double-entry
  ledger (accounts, events, transfers), the market operations on it
  (deposit, trade, resolution, market creation), amounts and their decimal
  text, the reading of forms and request paths, the decisions of the web
  handlers, and the user manual's sections. The contracts of the public
  functions say what each returns and how it changes the ledger, and, for a
  trade, which of its steps stay when the ledger refuses one; `laws.rs`
  and `model::law_amount_text_reads_back` state properties across them.
- `app/` is the program around it: the HTTP server, the HTML pages, the
  SQLite storage of the ledger, the TOML configuration file, and the prices
  of the market maker, which are computed with floating point.

`src/` modules:

| module      | contents                                                        |
|-------------|-----------------------------------------------------------------|
| `text`      | decimal text of integers, `i64::from_str`, string helpers       |
| `decimal`   | the `integral.fraction` notation of amounts                     |
| `ledger`    | the ledger's rows, its consistency, and its basic operations    |
| `model`     | amounts, accounts, markets, deposits, trades and resolution; `place_trade` deposits what a trade needs and refuses trades outside the market's dates |
| `finance`, `market` | the first edition of amounts and of markets             |
| `config`    | the configuration values, datetimes as ISO-8601 text, and when a market takes trades |
| `endpoints` | validation of user text, how emails are shown                   |
| `routes`    | forms, handlers and the pages and actions that paths name       |
| `server`    | who makes a request, and the path within the app                |
| `help`      | the user manual cut into sections                               |
| `ranking`   | the order of the tables: largest first, ties as they came       |
| `laws`      | zero sum, neutral positions, closed markets, no withdrawal      |
