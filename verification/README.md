# invest_dash

A terminal investment dashboard: portfolios, their buy/sell/dividend
transactions, the holdings those add up to (shares, average cost, invested
cost, realized gain), live quotes with a per-symbol circuit breaker and a
thirty-second cache, a search of the transaction history by symbol, and
buy/sell advice towards each portfolio's target allocations.

The library under `src/` is verified with Verus:

- `amount` — exact decimals as `rust_decimal` holds them (mantissa and scale);
  arithmetic and parsing are done by `rust_decimal`, whose sums, differences,
  products and even quotients are exact where they fit.
- `text` — byte-wise text order and equality, substring search, decimal
  notation.
- `order` — stable ordering of rows.
- `ledger` — transactions, holdings, and the holdings calculation: shares
  held are the net of purchases and sales, and without sales the invested
  cost is what the purchases cost, wherever the decimals are exact.
- `records` — portfolio and transaction records with fresh identifiers.
- `store` — the two tables and the reads and writes made of them; every
  transaction belongs to a stored portfolio.
- `search` — the symbol filter of the transaction log.
- `targets` — the target allocations, a JSON object of percentages such as
  `{"AAPL": 60, "VOO": 40}`.
- `rebalance` — current value against target value for each symbol, and the
  advice to buy, sell or hold.
- `watchlist` — the watched tickers of `config.json`
  (`{"tickers": ["AAPL", "TSLA"]}`) and the symbols whose quotes are fetched.
- `breaker` — the circuit breaker.
- `quotes` — what to do for each symbol when quotes are refreshed, and when
  the periodic refresh is due.
- `ui` — the screen state and what each key does.

`app/` is the program around it: the SQLite file behind the tables, the Yahoo
Finance quotes, the portfolio summary (floating point), the reading of
`config.json` again whenever it changes, and the terminal drawing.
