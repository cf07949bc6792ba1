# sloop

A local memory for conversations with a model, and a harness that branches them. The
decisions are a library verified with Verus; what reads, embeds, stores and sends is
ordinary Rust around it.

## The library, `src/`

- `tree`: a conversation as a tree of content blocks, with forks, labels and the messages
  that a branch replays to.
- `transcript`: a session as a note. `transcript_index` and `live_branch` prove what is
  left of it once the note is chunked: a dropped branch stays marked as dropped in every
  chunk, and the live one is not marked, unless a live block itself puts a heading that
  ends in the marking words nearest above.
- `chunk`: notes and queries in pieces that the embedding model can read, with
  `chunk_laws`.
- `index`, `store`, `hash`: what changed, what is written for it, and under which ids, with
  `index_laws`.
- `recall`, `daemon`, `hook`, `mcp`, `cli`, `proto`: from raw hits to what a reader is
  shown, and what each request is answered with.
- `api`: the stream of the messages API, from bytes to finished blocks.
- `harness`: where a turn forks, and what is said of each branch.
- `config`, `embed`: what is read from the environment, and what the model is handed.
- `text`, `line_laws`, `order`, `number`, `path`, `json`: texts, numbers and paths.

Texts are modelled as sequences of characters, single-precision numbers as their bits.
What comes from outside (SHA-256, JSON, the lossy reading of bytes) stands behind a few
trusted functions, each of which says what is believed of it.

## The programs, `app/`

`sloop-memory` indexes labelled directories of markdown, watches them and answers
searches, a prompt hook and a tool server. `sloop-harness` runs a branching conversation
and records it. One executable serves as both, by the name it is started under.

| Variable | What it holds |
| --- | --- |
| `SLOOP_MEMORY_ROOTS` | `label=path` pairs, separated by `:` |
| `SLOOP_MEMORY_MODEL` | the directory of the embedding model |
| `SLOOP_MEMORY_STATE` | where the database and the socket are kept |
| `SLOOP_HARNESS_MODEL` | the model that the harness talks to |
| `ANTHROPIC_API_KEY` | the harness's credential |
