# satori

Semantic search over Chinese jargon and internet memes: a corpus of cards
(term, plain meaning, explanation, examples, queries, tags), validated,
ranked by keyword for a query, turned into index documents for an embedding
index, and grown by importing an external markdown corpus.

The library in `src/` is verified with Verus:

- `text`: whitespace, trimming, searching, splitting and joining over `Seq<char>`.
- `card`: the card, its searchable text and its index document.
- `validate`: validation of a card collection and its report.
- `search`: query normalisation and keyword ranking, with the ranking laws.
- `index`: a validated collection that searches and finds cards by id.
- `segment`, `import`: the import of the external corpus and its stable ids.
- `api`: request parameters, error answers, configuration and vector-match resolution.
- `load`: the check on a freshly parsed card collection.

`app/` holds the HTTP server (axum), the indexer command line, file I/O,
the serde copies of the records, and the floating-point and Arrow code of
the vector search.
