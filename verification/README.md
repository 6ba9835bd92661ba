# json_objects_to_csv

Converts JSON objects into CSV rows. Each object is flattened with
`flatten_json_object` into keys and plain values; the header row is the union
of the keys of all objects, sorted, or in the order in which keys are first met
when `preserve_key_order` is set; every object then gives one record. Two keys
that differ but look the same once flattened are reported as an error.

Layout:

- `src/` is the verified library (Verus):
  - `config.rs`: the flattening settings (`Flattener`, `ArrayFormatting`);
  - `flat.rs`: flattened objects and the call into `flatten_json_object`;
  - `text.rs`: characters, replacement of a pattern, lexicographic order;
  - `headers.rs`: `HeaderCollection`, sorted or in order of first insertion;
  - `restore.rs`: the converter's own separators and how keys are restored;
  - `collect.rs`: collecting headers object by object (`HeaderState`);
  - `record.rs`: the CSV record of a flattened object;
  - `convert.rs`: `Json2Csv` and `convert_from_array`;
  - `laws.rs`: properties of the conversion as a whole.
  The sets of headers are kept as strictly sorted vectors of distinct
  strings (`HeaderCollection`) rather than as `BTreeSet<String>`: vstd's
  specifications of `BTreeSet` hold only for keys whose `Ord` is known to obey
  its laws (`obeys_cmp`), which vstd does not establish for `String`, so with
  a `BTreeSet<String>` nothing about its contents or its order would be known.
- `app/` is ordinary Rust around it: writing rows with `csv`, and converting a
  stream of JSON objects through a temporary file (`convert_from_reader`).
- `tests/` runs the library on concrete inputs.
