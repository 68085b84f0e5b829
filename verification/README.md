# serde_edn

Reading and writing EDN (Extensible Data Notation), the data format of
Clojure, with the reader, the writer and the data model verified by Verus.

## Layout

- `src/` — the verified library.
  - `value.rs`: the `Value` type and its mathematical view `EdnValue`.
  - `grammar.rs`: the reader as a function on sequences of characters.
  - `de.rs`: the reader (`EdnDeserializer`, `parse_str`), proved equal to
    the grammar, with line and column for syntax errors.
  - `ser.rs`: the writer (`Serializer` and the serializers of collections,
    structs and variants), proved equal to `write_value`.
  - `tags.rs`: `#inst` and `#uuid`, through `chrono` and `uuid`.
  - `decode.rs`: values from the strings that stand for them.
  - `edn_types.rs`: `EdnList`, `EdnSet`, and the `FromEdn` / `ToEdn`
    traits behind the crate's `from_str` and `to_string`.
  - `roundtrip.rs`: the proof that writing a value and reading the text
    back gives the value again, for the values of `reads_back`.
  - `read_back.rs`: the proof that every value read from a text is one of
    them when it holds no `#inst` instant and no character `u` right under
    another tag, so that reading, writing and reading again gives the same
    value.
  - `chars.rs`: character classes and conversions.
- `tests/` — tests of the library.
- `app/` — serde support: `from_str` and `to_string` for any `Deserialize` /
  `Serialize` type, serde impls for the library's types, and the registry of
  tag handlers.
