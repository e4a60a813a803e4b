# number_words

Turns words into numbers through the sounds of their pronunciation: a
digit–sound table (`number=symbol,symbol,...` per line) gives each IPA symbol a
digit, and a word's number is the digits of its symbols in turn. Words come from
the CMU pronouncing dictionary (ARPAbet) and the NST lexicon (X-SAMPA,
Windows-1252), both turned into IPA; English pronunciations can also be pulled
out of a Wiktionary XML dump.

Layout:

- `src/` — the library, verified with Verus. Parsers are functions from text
  or bytes to values, each with a contract over spec functions that say what
  the file format means; the translator, the symbol tables and the dump
  reader state what every operation keeps and returns. Public `law_*` proof
  functions state properties that span several operations.
- `tests/` — tests of the library on concrete inputs.
- `app/` — the program: reads the files, runs the read–answer loop, writes the
  caches and logs, and spreads the dump reading over threads.
