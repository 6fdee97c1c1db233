//! AnimePet's verified core: everything the desktop pet decides, proved
//! against its contracts. The window, the HTTP server and client, files and
//! processes stand around it in `app/`.
//!
//! - `text`: the character-level model of trimming, searching and prefixes.
//! - `config`: the settings and their defaults.
//! - `soul`: persona documents (frontmatter and body) and the persona prompt.
//! - `identity`: identity-update blocks in replies and the profile notes.
//! - `journal`: memory entries and size-bounded appends to the user's files.
//! - `stream`: the streamed reply, which never shows an identity block.
//! - `chat`: the system prompt, the conversation sent, the short history.
//! - `tts`: how and in which language a reply is spoken.
//! - `http`: routing, URL paths, asset paths, content types, body limits.
//! - `path`: Unix path components and containment.
//! - `region`: the window's input region and the page's title messages.
pub mod text;
pub mod config;
pub mod soul;
pub mod identity;
pub mod journal;
pub mod stream;
pub mod chat;
pub mod tts;
pub mod http;
pub mod region;
pub mod path;
