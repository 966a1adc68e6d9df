# pfollow

Position following for trading accounts: an account follows other accounts
with given ratios, per symbol. The library reads follow entries
(`ac,fac,ratio,symbol` lines), keeps them merged by key, numbers the
accounts, and builds one ratio table per symbol; it also holds the symbol
table (read from JSON) and reads the byte layout of position packets.

- `src/` — the verified library (Verus): `text` (trimming, splitting,
  integer parsing), `entry` (follow entries), `symbols` (symbol table),
  `ratio` (entry set, account index, ratio tables), `matrix` (the `ndarray`
  matrix behind a ratio table), `message` (packet layout), `config`
  (settings), `assoc` (association lists).
- `app/` — the program: file and network I/O, threads, the global symbol
  table, and the floating-point position arithmetic.
- `tests/` — tests of the library.
