pub mod agreement;
pub mod archive;
pub mod bytes;
pub mod cursor;
pub mod format;
pub mod remove;
pub mod types;

pub use format::detect_format;
pub use remove::gif::GifRemover;
pub use remove::heic::HeicRemover;
pub use remove::mp3::Mp3Remover;
pub use remove::webp::WebpRemover;
pub use types::{Error, ErrorKind, FileFormat, MetadataRemover, Outcome, RemovalOptions};
