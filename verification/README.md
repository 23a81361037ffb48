# quant_trader

A verified library for quantitative trading of perpetual futures, and a program
around it that trades on an exchange.

The library computes; the program talks. Everything that decides something stands
in `src/`, is written in Verus, and has its behaviour stated and proved. `app/`
reads the environment and the clock, calls the exchange, and writes the log.

## Numbers

All quantities are binary64 numbers, held as bit patterns (`num::Real`). The four
operations and the square root are proved to be correctly rounded, so that every
contract is exact to the last bit. Exponentials, logarithms and their kin differ
between machines: the caller supplies them as one function, and the library is
verified for every such function.

## Modules

| Module | What it holds |
|---|---|
| `num` | numbers, rounding, order, sums, small matrices |
| `data` | market data: bars, books, trades, funding, and their ingestion |
| `estimation` | dual Kalman filter for state and parameters |
| `features` | technical, funding and frequency features, feature rows |
| `orderbook` | book features, arrivals of orders |
| `ensemble` | probabilistic signals and their fusion |
| `optimizer` | sizing, subset selection, joint orders, and what they keep |
| `risk` | limits, kill switches, pre-trade checks, the portfolio |
| `execution` | execution costs, the orders of a signal and of a position |
| `signals` | trade signals |
| `backtest` | walk-forward evaluation |
| `hmm`, `ml`, `stats` | regimes, boosted trees, volatility, spreads, distributions |
| `live` | what the trading loop computes between its calls to the exchange |

## Laws

Properties that span functions are public proof functions, next to what they speak
of: an order keeps its limits, its cost budget and its exposure
(`optimizer::laws`, `optimizer::exposure`), weights keep their floor, follow the
evidence and sum to one (`ensemble::weights`), a backtest looks at nothing ahead
(`backtest::engine`), and so on.
