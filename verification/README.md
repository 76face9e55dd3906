# myownllm

A local AI host: it picks the model each mode (text, vision, code,
transcribe) should run on this machine from a provider's manifest, keeps the
configuration of providers, sources and pinned models, serves an
OpenAI-compatible API in front of Ollama, and turns audio into transcript
segments.

## Layout

- `src/` — the library, verified with Verus. Every public function states
  what it returns or changes in its `ensures`, over the mathematical model
  of its types (`JsonV` for JSON documents, character sequences for text).
  - `json`, `json_text`, `text`, `num`, `sorted`, `iso`: documents, their
    text, strings, decimal numbers, sorted string sets and timestamps.
  - `resolver`, `manifest`, `hardware`, `config`: manifests and how a mode
    resolves to a tag on given hardware; the configuration and its defaults.
  - `cli`, `preload`, `purge`, `conversations`: the commands' edits of the
    configuration, the preload state machine, purge reports, chat storage.
  - `api`, `api_models`, `ollama`: the HTTP API's authentication, flags,
    model rewriting and listings; what the Ollama daemon answers.
  - `transcribe`, `parakeet`, `moonshine`, `segmenter`, `embedder`,
    `ort_setup`: sessions, chunk bookkeeping, token decoding, speaker
    slices and the runtime library search.
  - `laws`: properties that span several functions, proved once.
- `tests/` — tests on concrete values.
- `app/` — the program around the library: the command line, files, HTTP,
  the Ollama process and hardware probing.
