# codec_lucene9

Readers and writers of the Lucene 9.12 index format. Every file is built and
read as bytes in memory; `app/` holds the directory that puts them on disk.

## Layout

* `bytes`, `num`, `bits`, `strings`, `float`: numbers and strings as bytes.
* `io`, `codec_util`: inputs, outputs, headers, footers and checksums.
* `packed`, `for_util`, `postings_ll`: packed blocks of numbers.
* `field_infos`: the fields of a segment.
* `doc_values`, `disi`, `terms_dict`, `lz4_block`: writing values per document;
  `doc_values_read`, `doc_values_reader` read them.
* `points`, `point_order`, `point_index`, `leaf_block`, `doc_ids`: writing
  points; `points_read`, `points_reader` read them.
* `postings`, `doc_postings`, `positions`, `block_tree`: writing terms and their
  postings; `postings_read`, `enum_core`, `positions_read` go through them, and
  `postings_walk` says how, whatever the files hold. `doc_parse` and
  `position_parse` say what a term's bytes are read as.
* `fst`, `fst_compiler`: transducers. `automaton`: patterns with wildcards.

Modules that end in `_laws` or `_unique`, and functions that begin with `law_`,
state what holds across functions: what a reader gives back of what a writer
wrote, and that bytes belong to one value only.

## What is taken on trust

`String::from_utf8`, `Vec::capacity`, `crc32fast::hash`, and `compress` and
`decompress` of `lz4::block`. The doc comment above each wrapper says what is
claimed of it.
