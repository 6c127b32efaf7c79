pub mod field;
pub mod encoding;
pub mod opening;
pub mod srs;
pub mod commit;
