# rusty_json

A small JSON reader and writer whose behaviour is stated in Verus contracts and proved.

A JSON value is a `JsonObject`: `Null`, an `Object` of named fields (a `JsonMap`, kept
in name order), a `Value` holding a scalar's text, or an `Array`. `JsonObject::to_json`
writes a value as text; `JsonObject::try_from` reads a text back. `from_json`,
`into_json` and `to_json` combine these with the `TryFrom<JsonObject>` and
`Into<JsonObject>` conversions, which the library gives the integer types, `bool`,
`char` and `String`.

## Layout

- `src/json.rs`: the value types, their mathematical model (`Json`), the name-ordered
  map, and the writer entry points.
- `src/serialize.rs`: how values are written (`json_text`), string escaping.
- `src/parse.rs`: how texts are read (`parse_text` and the readers it is made of).
- `src/scan.rs`: the search for separators outside strings, objects and arrays.
- `src/text.rs`, `src/chars.rs`, `src/number.rs`: trimming, character classes, and the
  number grammar that decides which values are written without quotes.
- `src/primitives.rs`, `src/integers.rs`: conversions of primitive values.
- `src/round_trip.rs`: the proofs that the reader gives back what the writer wrote.
- `src/reader_laws.rs`: laws of the reader on scalars, fields, arrays, objects and the
  separator search.
- `src/deriving.rs`: for deriving a struct's conversions, the shape of each field's type
  and the plans of the code that writes and reads the field.
- `app/`: what is not verified: floating-point conversions, and the derive's reading of
  syn's syntax trees and rendering of the plans as token streams with quote.
- `tests/`: the tests, run against the compiled library.

## Laws proved

- `round_trip::law_read_after_write`: for every readable value `j`,
  `parse_text(json_text(j)) == Ok(j)`; `round_trip::law_object_read_after_write` states
  it for every `JsonObject`, whose maps always keep their names in increasing order
  (`json::lemma_object_ordered`).
- `round_trip::law_string_read_after_write` and the `law_*_text_round_trip` functions:
  strings and primitive values survive writing and reading.
- `primitives::law_serializations_agree`: a value is written the same way whether it
  is converted itself or through a reference.
- `json::law_map_insert`: a lookup after an insertion sees the inserted value.
- `scan::law_find_chars`, `reader_laws::law_find_chars_counts`, `text::law_slice_trim`:
  the separator search and the trim.
- `reader_laws`: bare words and quoted strings are read as they stand, control
  characters and spaces in bare words are refused, and fields, arrays and objects are
  read part by part.
