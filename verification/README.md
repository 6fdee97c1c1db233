# AnimePet

A Live2D desktop pet (Katou Megumi, or Rem) floating on a Wayland
layer-shell overlay, with a DeepSeek chat, a long-term memory and user
profile kept in Markdown files, and replies spoken through GPT-SoVITS or
`espeak-ng`.

## Layout

- `src/` is the verified library (Verus). It takes every decision of the
  program: persona documents, identity-update blocks in replies, the bounded
  memory and profile files, the streamed reply (which never shows an identity
  block), the conversation and its short history, the speech plan, HTTP
  routing, percent-decoding and asset paths, content types, the window's input
  region and the page's title messages.
- `app/main.rs` is the program around it: the GTK window and WebKit view,
  the `tiny_http` server, the `ureq` client, files, the clock and the
  `espeak-ng` process.
- `tests/` runs the library on concrete values.

Paths are read as on Unix.
