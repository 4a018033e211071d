# mdgo

The logic of a local knowledge base, written in Rust and verified with Verus.

- `agent` holds an agent that talks to a language model: the log of a session and the history
  that is read from it, the streams of the model, the windows in which tools run, and the turn
  as a machine of states.
- `graph` holds the knowledge graph of a directory of documents: its tables, walks and paths,
  how it is built from files, links, imports, parts and entities, its clusters, the queue of
  documents for a model, and what a model's answers do to it.
- `bookmark` holds the bookmarks of a browser: their addresses, how they are taken in, shown,
  searched, fetched and summed up.
- `indexer` holds what an index of documents decides: which files are taken together, how far
  a run is, and which hits of a search are shown.
- `text`, `json` and `rows` hold what the others share.

What a function returns or changes stands in its contract; what holds of several functions
together stands in the proof functions whose names begin with `law_`. What other crates
compute (JSON, regular expressions, web pages, addresses) is called through a few small
functions whose doc comments say what is taken on trust.

`app` holds the services around the library: the network, SQLite, the file system and the
clock. Scores and shares are integers in the library and floating-point numbers there.
