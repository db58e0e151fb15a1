# karukan

Japanese input-method logic with machine-checked contracts, written in Verus.

- `src/` is the verified library: romaji and kana handling, the composing and
  conversion state machine of the input-method engine, live-conversion
  suggestions, segmented conversion, learned segment corrections and their
  text format, reading-indexed dictionaries with the live user-dictionary
  span selection and the dictionary lattice search, morphological reading
  alignment, and the importers of the dictionary sources (line by line).
- `tests/` runs the library on concrete inputs.
- `app/` is the command-line tool around it: file and network access,
  serialization, argument parsing and the morphological analyzer.
