//! Verified core of a translator for arXiv papers.

pub mod address_laws;
pub mod arxiv;
pub mod arxiv_laws;
pub mod command;
pub mod command_laws;
pub mod compiler;
pub mod compiler_laws;
pub mod config;
pub mod config_laws;
pub mod latex;
pub mod outside;
pub mod patterns;
pub mod profiles;
pub mod source;
pub mod source_laws;
pub mod text;
pub mod text_laws;
pub mod translator;
pub mod utf;
