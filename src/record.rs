use vstd::prelude::*;

verus! {

/// One stored credential.
pub struct Password {
    pub domain: String,
    pub username: String,
    pub password: String,
}

/// The mathematical value of a [`Password`]: its three texts.
pub struct PasswordView {
    pub domain: Seq<char>,
    pub username: Seq<char>,
    pub password: Seq<char>,
}

impl View for Password {
    type V = PasswordView;

    open spec fn view(&self) -> PasswordView {
        PasswordView { domain: self.domain@, username: self.username@, password: self.password@ }
    }
}

/// The records that a vector holds, as values.
pub open spec fn passwords_view(v: Seq<Password>) -> Seq<PasswordView> {
    v.map_values(|p: Password| p@)
}

impl Password {
    pub fn new(domain: String, username: String, password: String) -> (r: Password)
        ensures
            r@ == (PasswordView { domain: domain@, username: username@, password: password@ }),
    {
        Password { domain, username, password }
    }

    pub fn clone_password(&self) -> (r: Password)
        ensures
            r@ == self@,
    {
        Password {
            domain: self.domain.clone(),
            username: self.username.clone(),
            password: self.password.clone(),
        }
    }
}

/// What can go wrong when the vault is read or changed.
#[derive(Debug, Clone, Copy, PartialEq, Eq, Structural)]
pub enum Error {
    /// The vault could not be read or written.
    StorageError,
    /// The blob did not open under the key: wrong key, or tampered or truncated data.
    AuthenticationError,
    /// The blob opened, but its contents are not a record collection.
    FormatError,
    /// A record index is out of range.
    IndexError,
    /// Sealing the new contents failed.
    SealError,
    /// No key could be derived from the passphrase and salt.
    KeyDerivationError,
}

} // verus!
