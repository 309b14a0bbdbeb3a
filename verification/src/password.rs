//! Password credentials: a salted PBKDF2-HMAC-SHA256 hash per user, checked in
//! constant time. Where the credentials are stored is the caller's business.
use vstd::prelude::*;

verus! {

/// The length of a credential: the output length of SHA-256.
pub const CREDENTIAL_LEN: usize = 32;

/// Inputs shorter than this many bytes are within what SHA-256 accepts (2^61 bytes,
/// HMAC's padding included).
pub const INPUT_LIMIT: u64 = 0x1000_0000_0000_0000;

pub enum PasswDbError {
    WrongUsername,
    WrongPassword,
    Internal,
}

/// The `len` bytes that PBKDF2 with HMAC-SHA256 derives from `secret` and `salt` in
/// `iterations` rounds.
pub uninterp spec fn pbkdf2_sha256(iterations: nat, salt: Seq<u8>, secret: Seq<u8>, len: nat) -> Seq<u8>;

/// `stored` is a credential that PBKDF2 derives from `secret` and `salt`, of its length.
pub open spec fn matches_credential(iterations: nat, salt: Seq<u8>, secret: Seq<u8>, stored: Seq<u8>) -> bool {
    stored.len() > 0 && stored == pbkdf2_sha256(iterations, salt, secret, stored.len())
}

/// `ring::pbkdf2::derive` with `PBKDF2_HMAC_SHA256` into a buffer of `CREDENTIAL_LEN`
/// bytes. What it derives is named, not stated; by ring's documentation it panics only
/// for inputs far longer than `INPUT_LIMIT`.
#[verifier::external_body]
fn derive(iterations: u32, salt: &[u8], secret: &[u8]) -> (r: Vec<u8>)
    requires
        iterations > 0,
        salt@.len() < INPUT_LIMIT,
        secret@.len() < INPUT_LIMIT,
    ensures
        r@.len() == CREDENTIAL_LEN,
        r@ == pbkdf2_sha256(iterations as nat, salt@, secret@, CREDENTIAL_LEN as nat),
{
    let mut out = [0u8; CREDENTIAL_LEN];
    let iterations = std::num::NonZeroU32::new(iterations).unwrap();
    ring::pbkdf2::derive(ring::pbkdf2::PBKDF2_HMAC_SHA256, iterations, salt, secret, &mut out);
    out.to_vec()
}

/// `ring::pbkdf2::verify` with `PBKDF2_HMAC_SHA256`: by ring's source it succeeds only
/// where `previously_derived` is not empty and equals what `derive` gives for its length;
/// and then it does, unless the inputs are too long for the hash function, which those
/// under `INPUT_LIMIT` are not.
#[verifier::external_body]
fn verify(iterations: u32, salt: &[u8], secret: &[u8], previously_derived: &[u8]) -> (r: bool)
    requires
        iterations > 0,
    ensures
        r ==> matches_credential(iterations as nat, salt@, secret@, previously_derived@),
        salt@.len() < INPUT_LIMIT && secret@.len() < INPUT_LIMIT && previously_derived@.len()
            < INPUT_LIMIT && matches_credential(
            iterations as nat,
            salt@,
            secret@,
            previously_derived@,
        ) ==> r,
{
    let iterations = std::num::NonZeroU32::new(iterations).unwrap();
    ring::pbkdf2::verify(
        ring::pbkdf2::PBKDF2_HMAC_SHA256,
        iterations,
        salt,
        secret,
        previously_derived,
    ).is_ok()
}

/// How credentials are derived: the number of PBKDF2 rounds and the part of the salt
/// that is the same for every user of this database.
pub struct PasswordDatabase {
    pub pbkdf2_iterations: u32,
    pub db_salt_component: [u8; 16],
}

impl PasswordDatabase {
    pub open spec fn wf(&self) -> bool {
        self.pbkdf2_iterations > 0
    }

    /// The settings this server derives credentials with.
    pub fn new() -> (db: PasswordDatabase)
        ensures
            db.wf(),
            db.pbkdf2_iterations == 100_000,
            db.db_salt_component@ == seq![
                0xd6u8, 0x26, 0x98, 0xda, 0xf4, 0xdc, 0x50, 0x52, 0x24, 0xf2, 0x27, 0xd1, 0xfe,
                0x39, 0x01, 0x8a,
            ],
    {
        let db = PasswordDatabase {
            pbkdf2_iterations: 100_000,
            db_salt_component: [
                0xd6, 0x26, 0x98, 0xda, 0xf4, 0xdc, 0x50, 0x52, 0x24, 0xf2, 0x27, 0xd1, 0xfe,
                0x39, 0x01, 0x8a,
            ],
        };
        assert(db.db_salt_component@ =~= seq![
            0xd6u8, 0x26, 0x98, 0xda, 0xf4, 0xdc, 0x50, 0x52, 0x24, 0xf2, 0x27, 0xd1, 0xfe,
            0x39, 0x01, 0x8a,
        ]);
        db
    }

    /// The salt of a user: the database's component, then the user name.
    pub open spec fn salt_of(&self, username: Seq<u8>) -> Seq<u8> {
        self.db_salt_component@ + username
    }

    /// The salt of a user: the database's component, then the user name; so that one
    /// cracked password serves neither for other users nor for other databases.
    pub fn salt(&self, username: &[u8]) -> (salt: Vec<u8>)
        ensures
            salt@ == self.salt_of(username@),
    {
        let mut salt: Vec<u8> = Vec::new();
        let mut i: usize = 0;
        while i < 16
            invariant
                i <= 16,
                salt@ == self.db_salt_component@.take(i as int),
            decreases 16 - i,
        {
            salt.push(self.db_salt_component[i]);
            i = i + 1;
            assert(salt@ =~= self.db_salt_component@.take(i as int));
        }
        let mut j: usize = 0;
        while j < username.len()
            invariant
                j <= username@.len(),
                salt@ == self.db_salt_component@ + username@.take(j as int),
            decreases username@.len() - j,
        {
            salt.push(username[j]);
            j = j + 1;
            assert(salt@ =~= self.db_salt_component@ + username@.take(j as int));
        }
        assert(username@.take(j as int) =~= username@);
        salt
    }

    /// The credential to store for `username` with `password`.
    pub fn credential(&self, username: &[u8], password: &[u8]) -> (c: Vec<u8>)
        requires
            self.wf(),
            username@.len() < INPUT_LIMIT - 16,
            password@.len() < INPUT_LIMIT,
        ensures
            c@.len() == CREDENTIAL_LEN,
            c@ == pbkdf2_sha256(
                self.pbkdf2_iterations as nat,
                self.salt_of(username@),
                password@,
                CREDENTIAL_LEN as nat,
            ),
    {
        let salt = self.salt(username);
        derive(self.pbkdf2_iterations, salt.as_slice(), password)
    }

    /// Checks an attempted password against the credential stored for `username`:
    /// `stored` is what looking it up gave, `Err` where the lookup failed.
    pub fn verify_password(
        &self,
        stored: Result<Option<Vec<u8>>, ()>,
        username: &[u8],
        attempted_password: &[u8],
    ) -> (r: Result<(), PasswDbError>)
        requires
            self.wf(),
        ensures
            match stored {
                Err(()) => r matches Err(PasswDbError::Internal),
                Ok(None) => r matches Err(PasswDbError::WrongUsername),
                Ok(Some(c)) => {
                    &&& (r is Ok ==> matches_credential(
                        self.pbkdf2_iterations as nat,
                        self.salt_of(username@),
                        attempted_password@,
                        c@,
                    ))
                    &&& (r is Err ==> r matches Err(PasswDbError::WrongPassword))
                    &&& (username@.len() < INPUT_LIMIT - 16 && attempted_password@.len()
                        < INPUT_LIMIT && c@.len() < INPUT_LIMIT && matches_credential(
                        self.pbkdf2_iterations as nat,
                        self.salt_of(username@),
                        attempted_password@,
                        c@,
                    ) ==> r is Ok)
                },
            },
    {
        match stored {
            Err(()) => Err(PasswDbError::Internal),
            Ok(None) => Err(PasswDbError::WrongUsername),
            Ok(Some(credential)) => {
                let salt = self.salt(username);
                if verify(
                    self.pbkdf2_iterations,
                    salt.as_slice(),
                    attempted_password,
                    credential.as_slice(),
                ) {
                    Ok(())
                } else {
                    Err(PasswDbError::WrongPassword)
                }
            },
        }
    }
}

/// A password that was set is accepted: the credential derived for a user and password
/// matches that password under that user's salt.
pub proof fn lemma_set_password_verifies(
    db: PasswordDatabase,
    username: Seq<u8>,
    password: Seq<u8>,
    credential: Seq<u8>,
)
    requires
        credential.len() == CREDENTIAL_LEN,
        credential == pbkdf2_sha256(
            db.pbkdf2_iterations as nat,
            db.salt_of(username),
            password,
            CREDENTIAL_LEN as nat,
        ),
    ensures
        matches_credential(db.pbkdf2_iterations as nat, db.salt_of(username), password, credential),
{
}

} // verus!
