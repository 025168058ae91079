//! Retrieval-augmented help assistant for the Ubuntu desktop: the verified core.
//!
//! The library holds the logic of the assistant: turning markdown documentation into
//! plain-text chunks, recognising questions typed into the GNOME overview, keeping a
//! chat conversation, splitting the model's streamed reply into lines, and deciding
//! what the answer window shows.
pub mod text;
pub mod search_provider;
pub mod docs;
pub mod llm;
pub mod chat;
pub mod gui;
pub mod vectordb;
