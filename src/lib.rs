//! An encrypted-at-rest store of domain, username and password records.
//!
//! The vault is one sealed blob: the record collection written as a JSON
//! array, sealed with XChaCha20-Poly1305. Every operation reads the whole
//! blob, works on the records in memory, and hands back a freshly sealed blob
//! for the caller to put in place of the old one.
pub mod codec;
pub mod envelope;
pub mod keys;
pub mod record;
pub mod replace;
pub mod store;
pub mod ui;

pub use codec::{decode_records, encode_records};
pub use record::{Error, Password, PasswordView};
pub use envelope::{decrypt_data, encrypt_data, VaultKey};
pub use keys::{derive_key, new_salt};
pub use store::{add_password_to_db, create_vault, get_password_at, read_db, remove_password_at_index};
pub use ui::{clear_input, InputMode, InputState, MenuItem};
