//! Capture JSON HTTP responses (or file contents) under caller-chosen
//! endpoint aliases, persist them in a key-value store, and rebuild a route
//! table from the persisted records so a mock server can replay them.

pub mod codec;
pub mod errors;
pub mod headers;
pub mod record;
pub mod response;
pub mod routes;
pub mod storage;
pub mod text;

pub use codec::decode;
pub use codec::decode_url;
pub use codec::encode;
pub use codec::encode_url;
pub use errors::AddError;
pub use errors::DecodeError;
pub use errors::SerializationError;
pub use headers::HeaderMap;
pub use response::capture_file;
pub use response::capture_response;
pub use response::headers_to_map;
pub use response::StorableResponse;
pub use routes::materialize;
pub use routes::RouteTable;
pub use storage::RouteManager;
pub use storage::StoreBucket;
pub use text::ascii_bytes_to_string;
pub use text::chars_to_string;
pub use text::string_to_chars;
