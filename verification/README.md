# squishi

A text compressor that looks at the shape of its input first: JSON, a diff, a log, search results,
prose. Each shape has a technique of its own, and a few more tools work on session transcripts.

- `src/` is the library. It is written in Verus: every function has a contract, and the contracts are
  proved. What a function computes is stated by spec functions over sequences of characters and over
  `JsonModel`, the model of a JSON value. Properties that go beyond one function stand as public proof
  functions, most of them at the end of their module.
- `app/` is the program around it: arguments, files, models, clocks. Nothing in it is proved.
- `tests/` runs the library with the crates it calls.

## Modules

| | |
|-|-|
| `text`, `order`, `patterns`, `json` | strings, stable orders, regular expressions, JSON values |
| `content_detect`, `route`, `report` | what kind of content a text is, what is done with it, what is said of it |
| `base64_strip`, `line_number_strip`, `line_dedup` | passes that suit every kind |
| `json_compress`, `compaction`, `invariants`, `error_keywords` | JSON arrays |
| `diff_compress`, `log_compress`, `search_compress` | diffs, logs, search results |
| `sentences`, `semantic_dedup`, `cascade_dedup`, `kompress`, `punctuation_restore`, `stage_timing` | prose |
| `toon`, `toon_round_trip`, `pixel` | other forms of the same content |
| `session_prune`, `session_digest`, `session_stats` | session transcripts |
| `doctor` | diagnosis of an installation |

## What is believed without proof

The calls into `regex`, `serde_json`, `image`, `spleen-font` and a few functions of the standard
library stand in small functions marked `external_body`, or in an `assume_specification`. Each says in
its doc comment what it claims. Most claim only that the result is a function of the arguments, and give
that function a name.

Models that score sentences, words or bytes are not part of the library. Where a decision depends on
them, the library takes what they say as an argument, and its contracts hold whatever that is.
