//! Verified core of the Strix corpus pipeline: the text utilities, the JSON
//! value model, the XML event handlers that cut a corpus into parts, the
//! conversion of Sparv corpus configurations into Strix configurations, the
//! tasks of a corpus's texts and the transformer input made of their parts.

pub mod text;
pub mod json;
pub mod hashed;
pub mod encode;
pub mod mappingutil;
pub mod xmlparser;
pub mod config;
pub mod sparv_decoder;
pub mod insertdata;
pub mod pipeline;
pub mod shared;
pub mod options;
