# ord

A small dictionary kept in a terminal program: words with
their variants, phones, definition and part of speech, looked up by variant
(exactly, fuzzily or by regular expression), by phone, or by the text of
their definitions, edited in a form, and added from word lists.

## Layout

- `src/` is the library, verified with Verus:
  - `text.rs`: characters, UTF-8 widths, splitting and lines;
  - `lang.rs`: words, parts of speech, and the regular forms of nouns,
    descriptors and verbs;
  - `parser.rs`: the command line and its errors;
  - `index.rs`: an index from keys to word ids;
  - `matching.rs`: regular expressions (`regex`) and fresh ids (`uuid`);
  - `db.rs`: the stored words, the variant and phone indexes, the lookups,
    how a word is shown, the phone settings, and word lists;
  - `doc.rs`: styled text;
  - `session.rs`: what the lookup commands show, sorted;
  - `ui.rs`: keys, drop-down lists, focus in a form, scrolling, lists of
    choices;
  - `edit.rs`: the word form of the editor.
- `tests/` runs the library on concrete values.
- `app/` is the terminal program: the database file, drawing with ratatui,
  and the event loops.
