# dw

A dictionary wrapper: it looks words and sentences up in online translators
(Google Translate, Youdao) and in local MDict dictionaries (`.mdx`/`.mdd`), and
prints the answers for a terminal or as markdown, either directly or through a
small lookup server.

- `src/` is the library, verified with Verus: the MDict file format (header,
  key blocks, record blocks, checksums, UTF-16 text), the request forms and the
  reading of the translators' JSON answers, the Google token, the request
  signature of Youdao, the text joiner and language guess, the renderers, the
  history file, and the lookup reply of the server.
- `app/` is the program around it: command line, configuration file, HTTP and
  WebSocket traffic, files, and the tasks that ask the backends.
- `tests/` runs the library on concrete inputs.
