# semsearch

Local semantic search over a directory of Markdown and text notes.

- `src/` is the verified library: splitting text into paragraph chunks (`chunk`,
  with its laws in `chunk_laws`), whitespace and trimming (`text`), choosing the
  note files of a directory walk (`discover`), numbering the chunks of the files
  read (`collect`), the inputs handed to the embedding model and its cache
  directory (`embed_input`), and ranking scores for a search (`rank`).
- `app/` is the command-line program: directory walking, file and index I/O,
  the embedding model, cosine similarity of embeddings, and the CLI.
- `tests/` runs the library on concrete inputs.
