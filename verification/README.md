# ini_preserve

A format-preserving INI library, verified with Verus: read INI text, query and
change it, and write it back without losing comments, ordering, spacing or
line breaks.

- `src/text.rs`: whitespace, trimming, searching and line splitting, as spec
  functions over `Seq<char>` with executable counterparts.
- `src/model.rs`: the model of a document (a sequence of `LineView`s, each
  with its line break) and the meaning of every operation as a spec function.
- `src/ini.rs`: the `Ini` document; each operation is proved to compute its
  spec function.
- `src/lemmas.rs`, `src/shape.rs`: facts about the model.
- `src/laws.rs`, `src/effect_laws.rs`, `src/section_laws.rs`,
  `src/parse_laws.rs`, `src/reparse_laws.rs`: the laws of the library (round
  trip, `get` after `set`, what `set`, `remove`, `add_section` and
  `remove_section` change and leave alone, the keys that parsing gives, and
  reading back the text of a changed document).
- `app/lib.rs`: loading from and saving to files.
