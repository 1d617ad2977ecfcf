# korpus

A word index over a text corpus, verified with Verus.

`src/` is the library:

- `map_latin_one`: mapping words from the token list and from user input to the index's alphabet, where 'å', 'ä' and 'ö' are one letter.
- `hash_func`: the three-character prefix hash that names a bucket.
- `base255`: numbers as base-255 digits that are never 0.
- `token_table`: reading the token list (`<word> <position>` per line) into buckets.
- `bucket_file`: the keys file and the values file of a bucket.
- `list_file`, `index_values`: reading a keys file's header, the binary search over its records (also as single steps, so that a caller reading the file probes at most floor(log2 n) + 1 records), and reading stored positions.
- `lookup`: reading a word's positions back through its record, with the proof that what `bucket_file` writes is read back.
- `context`: what is shown around each occurrence.
- `text`: the few std string operations the library relies on, with their contracts.

`app/main.rs` is the command-line program: `korpus _compile` writes the index files, `korpus <word>` looks a word up.
