//! Search over datasets of flat records, by text and by meaning, between clients and a server
//! that share nothing but a folder.
//!
//! A dataset has a schema ([`schema`]). Its records are prepared ([`index`]), cut into chunks
//! ([`chunking`]) and written to a record database ([`database`], [`sql`],
//! [`sql_meaning`]), a text index
//! ([`text_index`]) and a vector index ([`embedding`], [`vector_index`]). A search asks these and
//! ranks what they find ([`search`]), and lists it ([`results`], [`snippet`]). Requests and answers
//! ([`protocol`]) are files in the shared folder ([`shared_folder`], [`server`], [`client`]).
pub mod chunking;
pub mod cli;
pub mod client;
pub mod clock;
pub mod config;
pub mod database;
pub mod embedding;
pub mod facets;
pub mod index;
pub mod json;
pub mod mediawiki;
pub mod order;
pub mod protocol;
pub mod results;
pub mod schema;
pub mod search;
pub mod server;
pub mod shared_folder;
pub mod snippet;
pub mod sql;
pub mod sql_meaning;
pub mod text;
pub mod text_index;
pub mod text_map;
pub mod vector_index;
pub mod wiki_markup;
