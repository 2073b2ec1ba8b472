//! Loading a structure from what the persistence layer read.  A missing or
//! unreadable snapshot and a corrupt one both resolve to an empty structure;
//! the status tells them apart so the caller can warn about silent data
//! loss.  Loading never fails.

use vstd::prelude::*;

use crate::codec::{decode_kv, decode_profiles, spec_decode_kv, spec_decode_profiles};
use crate::profile::ProfileStore;
use crate::store::KvStore;

verus! {

/// How the starting structure came to be.
#[derive(Clone, Copy, PartialEq, Eq, Structural, Debug)]
pub enum LoadStatus {
    /// The snapshot decoded; the structure is what it held.
    Loaded,
    /// No snapshot could be read; the structure starts empty.
    Missing,
    /// Bytes were read but rejected; the structure starts empty and prior
    /// data is being discarded — worth a warning.
    Corrupt,
}

/// Build the starting key-value store from the snapshot bytes, or from
/// nothing when the file was absent or unreadable.
pub fn load_kv(bytes: Option<&Vec<u8>>) -> (r: (KvStore, LoadStatus))
    ensures
        r.0.wf(),
        match bytes {
            None => r.0.pairs() == Seq::<(Seq<char>, Seq<u8>)>::empty() && r.1 is Missing,
            Some(b) => match spec_decode_kv(b@) {
                Some(s) => r.0.pairs() == s && r.1 is Loaded,
                None => r.0.pairs() == Seq::<(Seq<char>, Seq<u8>)>::empty() && r.1 is Corrupt,
            },
        },
{
    match bytes {
        None => (KvStore::new(), LoadStatus::Missing),
        Some(b) => match decode_kv(b) {
            Some(st) => (st, LoadStatus::Loaded),
            None => (KvStore::new(), LoadStatus::Corrupt),
        },
    }
}

/// Build the starting profile store from the snapshot bytes, or from nothing
/// when the file was absent or unreadable.
pub fn load_profiles(bytes: Option<&Vec<u8>>) -> (r: (ProfileStore, LoadStatus))
    ensures
        match bytes {
            None => r.0@ == Seq::<(Seq<char>, u64)>::empty() && r.1 is Missing,
            Some(b) => match spec_decode_profiles(b@) {
                Some(s) => r.0@ == s && r.1 is Loaded,
                None => r.0@ == Seq::<(Seq<char>, u64)>::empty() && r.1 is Corrupt,
            },
        },
{
    match bytes {
        None => (ProfileStore::new(), LoadStatus::Missing),
        Some(b) => match decode_profiles(b) {
            Some(st) => (st, LoadStatus::Loaded),
            None => (ProfileStore::new(), LoadStatus::Corrupt),
        },
    }
}

} // verus!
