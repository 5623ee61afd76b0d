# axil_core

The core of an embedded memory database: records with JSON data, and around them a
graph, a vector index, a full-text index and a time index that hosts plug in.

`src/` is the library. It is written in Verus: what every function returns or changes
is stated in its contract and proved, and the laws that relate several functions are
public proof functions beside them.

| Module | What it decides |
| --- | --- |
| `record`, `json`, `text`, `time`, `hash` | records, values, texts, instants, digests |
| `entity`, `importance`, `inference`, `lineage` | what is read out of records and edges |
| `db` | what writes, searches, recalls, repairs and summaries do |
| `portable` | what an export holds, and what an import makes of it |
| `event_log`, `metrics`, `diagnostics`, `detectors` | what is logged, measured and reported |
| `feedback`, `prefetch` | what is learnt from queries |
| `llm`, `llm_http` | when a model is asked, what it is asked, and how a reply is read |
| `plugin`, `extension`, `error` | what hosts implement, and what they get back |
| `order`, `ratio` | sorting, and exact comparisons of shares |

Numbers with a fraction are held by the bits of their IEEE form, scores by integers
that are ordered as they are. Calls into other crates stand behind small trusted
functions, each with a comment that says what is taken for granted.

`app/` is ordinary Rust around the library: files, locks, network, telemetry and
floating-point arithmetic. `tests/` holds the tests of the library.
