pub mod text;
pub mod seqset;
pub mod types;
pub mod error;
pub mod response;
pub mod store;
pub mod fetch;
pub mod search;
pub mod select;
pub mod bodystructure;
pub mod codec;
pub mod tracker;
pub mod roundtrip;
pub mod writer;
pub mod conn;
pub mod cmd;
pub mod backend;
