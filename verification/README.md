# rag_search

The core of a desktop assistant that indexes folders of documents, searches them
by keyword and by meaning, and answers questions about them with a language
model. The core is written in Rust and verified with Verus: each function states
what it returns, and the proofs stand beside the code.

- `src/` is the verified library.
  - `text`, `order`, `select`, `score`: strings, sorting, picking, floating-point
    bits.
  - `json`, `identity`: the calls into `serde_json`, `uuid` and `sha2`.
  - `parser`, `indexer`, `embedding`: from a file to chunks, keyword documents and
    batches of vectors.
  - `search`: the vector index, its files, and how results are merged.
  - `ai`: requests, replies, model choice and memory of the language model.
  - `commands`: what the application does: index, search, chat, settings.
  - `watcher`: which changes on disk are taken up.
- `app/` is ordinary Rust around it: files, the database, the network, the search
  engines and the window.
- `tests/` runs the library on concrete values.

Text is modelled as a sequence of characters, time as seconds that the caller
hands in, and a floating-point number as its bits. Properties that span several
functions are the proof functions whose names begin with `law_`.
