# ubuntu-desktop-help

An LLM-based assistant that answers questions about using the Ubuntu desktop, with
its core logic verified by Verus.

- `src/` is the verified library:
  - `text`: whitespace, trimming, prefixes, ASCII case folding and joining, over
    sequences of characters;
  - `docs`: markdown documentation to plain-text chunks, and which files of the
    documentation directory are read and in what order;
  - `search_provider`: the GNOME Shell search provider's decisions (questions typed
    after `??` in the overview, the single result, its metadata);
  - `llm`: chat messages, the chat endpoint, and the reassembly of a streamed reply;
  - `chat`: the interactive chat session of the command line;
  - `gui`: the answer window's heading and its reaction to the streamed answer;
  - `vectordb`: whether the index's collection exists, point payloads and search results.
- `app/` is the program around it: the command line, terminal I/O, HTTP streaming to
  Ollama, the Qdrant index with fastembed embeddings, the D-Bus search provider and
  the GTK answer window.
- `tests/` exercises the library on concrete inputs.
