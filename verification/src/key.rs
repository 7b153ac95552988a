//! Choosing the database key at start-up: the one in the OS credential store,
//! else the one in the fallback key file, else a fresh one, but never a fresh
//! one while encrypted data may exist.

use vstd::prelude::*;
use vstd::string::StringSliceAdditionalSpecFns;

use crate::crypto::{fill_random, random_source_failed, KEY_LEN};
use crate::hex::{from_hex, lemma_hex_round_trip, spec_from_hex, spec_to_hex};
use vstd::utf8::encode_utf8;

verus! {

/// What the start-up logic does about the key.
pub enum KeyDecision {
    /// A stored key was found.
    UseExisting([u8; 32]),
    /// No key may be used or created; the message says why.
    Refuse(String),
    /// There is no key and no data: a fresh key is to be made.
    CreateNew,
}

/// The mathematical form of a [`KeyDecision`].
pub enum KeyVerdict {
    UseExisting(Seq<u8>),
    Refuse(Seq<char>),
    CreateNew,
}

impl View for KeyDecision {
    type V = KeyVerdict;

    open spec fn view(&self) -> KeyVerdict {
        match self {
            KeyDecision::UseExisting(k) => KeyVerdict::UseExisting(k@),
            KeyDecision::Refuse(m) => KeyVerdict::Refuse(m@),
            KeyDecision::CreateNew => KeyVerdict::CreateNew,
        }
    }
}

/// The mathematical form of what the credential store gave: a key, no
/// entry, or an error message.
pub open spec fn keyring_view(k: Result<Option<[u8; 32]>, String>) -> Result<Option<Seq<u8>>, Seq<char>> {
    match k {
        Ok(Some(key)) => Ok(Some(key@)),
        Ok(None) => Ok(None),
        Err(e) => Err(e@),
    }
}

/// The mathematical form of the fallback key file's contents, when read.
pub open spec fn file_view(f: Option<Vec<u8>>) -> Option<Seq<u8>> {
    match f {
        Some(b) => Some(b@),
        None => None,
    }
}

/// The message given when the credential store fails while encrypted data
/// (or the key file) exists.
pub open spec fn store_unavailable_message(e: Seq<char>) -> Seq<char> {
    "secure key store is unavailable ("@ + e
        + "); not creating a new key because encrypted data already exists. Try launching again."@
}

/// What the key file decides once the credential store had no usable key.
pub open spec fn spec_decide_from_file(data_exists: bool, file: Option<Seq<u8>>) -> KeyVerdict {
    match file {
        Some(b) if b.len() == 32 => KeyVerdict::UseExisting(b),
        _ => if data_exists {
            KeyVerdict::Refuse("encrypted data exists but no decryption key was found"@)
        } else {
            KeyVerdict::CreateNew
        },
    }
}

/// The key decision: a key in the credential store wins; a failing store is
/// fatal when encrypted data or the key file exists; otherwise the key file is
/// used when it holds exactly 32 bytes; otherwise a key is created only when
/// no encrypted data exists.
pub open spec fn spec_decide_key(
    keyring: Result<Option<Seq<u8>>, Seq<char>>,
    data_exists: bool,
    fallback_exists: bool,
    file: Option<Seq<u8>>,
) -> KeyVerdict {
    match keyring {
        Ok(Some(k)) => KeyVerdict::UseExisting(k),
        Ok(None) => spec_decide_from_file(data_exists, file),
        Err(e) => if data_exists || fallback_exists {
            KeyVerdict::Refuse(store_unavailable_message(e))
        } else {
            spec_decide_from_file(data_exists, file)
        },
    }
}

fn key_from_vec(b: &Vec<u8>) -> (k: [u8; 32])
    requires
        b@.len() == 32,
    ensures
        k@ == b@,
{
    let mut k = [0u8; 32];
    let mut i: usize = 0;
    while i < 32
        invariant
            i <= 32,
            b@.len() == 32,
            k@.len() == 32,
            forall|j: int| 0 <= j < i ==> k@[j] == b@[j],
        decreases 32 - i,
    {
        k[i] = b[i];
        i = i + 1;
    }
    assert(k@ =~= b@);
    k
}

/// Reads the key out of the hex text kept in the credential store: the
/// key when the text decodes to exactly 32 bytes, else the error
/// "stored key is malformed".
pub fn key_from_stored_password(text: &str) -> (r: Result<Option<[u8; 32]>, String>)
    ensures
        match spec_from_hex(text.spec_bytes()) {
            Some(b) if b.len() == 32 => r is Ok && r->Ok_0 is Some && r->Ok_0->Some_0@ == b,
            _ => r is Err && r->Err_0@ == "stored key is malformed"@,
        },
{
    match from_hex(text) {
        Some(bytes) => {
            if bytes.len() == KEY_LEN {
                Ok(Some(key_from_vec(&bytes)))
            } else {
                Err(String::from_str("stored key is malformed"))
            }
        },
        None => Err(String::from_str("stored key is malformed")),
    }
}

/// A fresh key is never made while encrypted data exists; a key in the
/// credential store is always used; and with no entry there, a key file of
/// exactly 32 bytes is used.
pub proof fn lemma_key_decision_laws(
    keyring: Result<Option<Seq<u8>>, Seq<char>>,
    data_exists: bool,
    fallback_exists: bool,
    file: Option<Seq<u8>>,
)
    ensures
        data_exists ==> !(spec_decide_key(keyring, data_exists, fallback_exists, file) is CreateNew),
        keyring matches Ok(Some(k)) ==> spec_decide_key(keyring, data_exists, fallback_exists, file)
            == KeyVerdict::UseExisting(k),
        keyring == Ok::<Option<Seq<u8>>, Seq<char>>(None) && file is Some && file->Some_0.len()
            == 32 ==> spec_decide_key(keyring, data_exists, fallback_exists, file)
            == KeyVerdict::UseExisting(file->Some_0),
        keyring is Err && (data_exists || fallback_exists) ==> spec_decide_key(
            keyring,
            data_exists,
            fallback_exists,
            file,
        ) is Refuse,
{
}

fn decide_from_file(data_exists: bool, file: Option<Vec<u8>>) -> (d: KeyDecision)
    ensures
        d@ == spec_decide_from_file(data_exists, file_view(file)),
{
    match file {
        Some(bytes) => {
            if bytes.len() == KEY_LEN {
                return KeyDecision::UseExisting(key_from_vec(&bytes));
            }
        },
        None => {},
    }
    if data_exists {
        KeyDecision::Refuse(String::from_str("encrypted data exists but no decryption key was found"))
    } else {
        KeyDecision::CreateNew
    }
}

/// Decides what to do about the key, given what the credential store gave,
/// whether encrypted data exists, whether the fallback key file exists, and
/// the key file's contents when it could be read.
pub fn decide_key(
    keyring: Result<Option<[u8; 32]>, String>,
    data_exists: bool,
    fallback_exists: bool,
    fallback_file: Option<Vec<u8>>,
) -> (d: KeyDecision)
    ensures
        d@ == spec_decide_key(keyring_view(keyring), data_exists, fallback_exists, file_view(fallback_file)),
        // A fresh key is never minted while encrypted data exists, nor while a
        // stored key or a well-formed key file is at hand.
        d is CreateNew ==> !data_exists && !(keyring matches Ok(Some(_))) && !(fallback_file matches Some(b) && b@.len() == 32),
        // A failing credential store is fatal while encrypted data exists.
        keyring is Err && data_exists ==> d is Refuse,
{
    match keyring {
        Ok(Some(k)) => KeyDecision::UseExisting(k),
        Ok(None) => decide_from_file(data_exists, fallback_file),
        Err(e) => {
            if data_exists || fallback_exists {
                let mut m = String::from_str("secure key store is unavailable (");
                m.append(e.as_str());
                m.append(
                    "); not creating a new key because encrypted data already exists. Try launching again.",
                );
                KeyDecision::Refuse(m)
            } else {
                decide_from_file(data_exists, fallback_file)
            }
        },
    }
}

/// A fresh key, once stored, is the key of the next start: its hex text in
/// the credential store decodes back to it (so [`key_from_stored_password`]
/// gives it), and a key found in the store, or (with the store empty) in the
/// key file, is the one used, whatever else holds.
pub proof fn lemma_stored_key_is_used_next_start(
    key: Seq<u8>,
    data_exists: bool,
    fallback_exists: bool,
    file: Option<Seq<u8>>,
)
    requires
        key.len() == 32,
    ensures
        spec_from_hex(encode_utf8(spec_to_hex(key))) == Some(key),
        spec_decide_key(Ok(Some(key)), data_exists, fallback_exists, file) == KeyVerdict::UseExisting(
            key,
        ),
        spec_decide_key(Ok(None), data_exists, fallback_exists, Some(key))
            == KeyVerdict::UseExisting(key),
{
    lemma_hex_round_trip(key);
}

/// Loads the database key, or makes a fresh random one.
///
/// Returns the key and whether it was freshly made (and so has yet to be
/// stored), or the reason no key may be used. The decision is
/// [`decide_key`]'s; a fresh key comes from the operating system's random
/// source, and when that source fails no key is made and the error says so.
pub fn load_or_create_key(
    keyring: Result<Option<[u8; 32]>, String>,
    data_exists: bool,
    fallback_exists: bool,
    fallback_file: Option<Vec<u8>>,
) -> (r: Result<([u8; 32], bool), String>)
    ensures
        match spec_decide_key(keyring_view(keyring), data_exists, fallback_exists, file_view(fallback_file)) {
            KeyVerdict::UseExisting(k) => r is Ok && r->Ok_0.0@ == k && !r->Ok_0.1,
            KeyVerdict::Refuse(m) => r is Err && r->Err_0@ == m,
            KeyVerdict::CreateNew => (r is Ok && r->Ok_0.1) || (r is Err && r->Err_0@
                == random_source_failed()),
        },
{
    match decide_key(keyring, data_exists, fallback_exists, fallback_file) {
        KeyDecision::UseExisting(k) => Ok((k, false)),
        KeyDecision::Refuse(m) => Err(m),
        KeyDecision::CreateNew => {
            let mut k = [0u8; 32];
            if fill_random(&mut k).is_err() {
                return Err(String::from_str("the operating system's random source failed"));
            }
            Ok((k, true))
        },
    }
}

} // verus!
