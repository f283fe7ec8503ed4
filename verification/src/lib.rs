//! A password-encrypted, single-file table store: named tables with a fixed
//! column list, rows addressed by equality queries, and an authenticated
//! cipher codec for the bytes that are kept at rest.

pub mod cipher;
pub mod database;
pub mod hexcode;
pub mod record;
pub mod table;
pub mod text;
