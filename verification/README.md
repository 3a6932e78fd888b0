# mochi-brain

The decoding brain of a pinyin/English mixed input method: it turns a raw
key stream into ranked candidates and learns from what the user commits.

## Layout

- `src/` — the verified library (Verus). Its functions carry contracts
  that Verus proves, except the small trusted wrappers around outside
  calls: the Fx maps and sets in `tables`, the system clock in `clock`
  (`today` reads it and states nothing of the day it gets; `day_of_secs`
  carries the arithmetic), and `String::push` in `text`. Each of those
  says in its doc comment what its contract claims of the call.
  - `text` — string helpers: chars, lines, splitting, ASCII lowercase.
  - `tables` — the `rustc_hash` Fx maps and sets behind the library, with
    the contents each operation leaves.
  - `interner` — token interning (string ↔ `u32` id).
  - `lattice` — exact-match dictionaries (`Matcher`), the lattice of
    pinyin / English / fallback arcs over a key stream, with fuzzy-pinyin
    and typing-ahead arcs, and syllable segmentation.
  - `artifacts` — the structure of the artifact files: rows and columns,
    header values, the dictionary tables (top candidates per pinyin key,
    readings per hanzi, syllable inventory) and the English word list.
  - `readings` — readings per hanzi, longest first.
  - `decoder` — reading a candidate off a decoder path (text, preedit,
    the untyped "ghost" part) and the final candidate order.
  - `personal`, `tokenize`, `cold_start`, `recent`, `clock` — personal
    memory: splitting a commit into units, aligning it with the typed keys,
    tokenizing it by greedy longest match, personal arcs, the cold-start
    file, correction detection and the day counter.
  - `lm` — packed n-gram keys.
  - `protocol`, `transport` — what a pipe request is answered with, and
    UTF-16 pipe names.
- `app/` — the service around the library: file and pipe I/O, JSON, the
  floating-point language models and beam search, the engine and the
  command line.
- `tests/` — tests of the library.
