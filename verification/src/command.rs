//! The command dispatcher: one parsed command becomes exactly one operation
//! against the store, together with a flag saying whether the mutated
//! structure must be persisted afterwards.

use vstd::prelude::*;
use vstd::slice::slice_to_vec;
use vstd::string::StrSliceExecFns;
use vstd::utf8::encode_utf8;

use crate::profile::{records_of, Profile, ProfileStore};
use crate::store::KvStore;

verus! {

/// One key-value invocation.
pub enum KvCommand {
    Put { key: String, value: String },
    Get { key: String },
    List,
    Delete { key: String },
    Reset,
}

/// What a key-value invocation reports back.
pub enum KvReply {
    Stored,
    Found { value: Vec<u8> },
    Keys { keys: Vec<String> },
    Deleted,
    NotFound,
    Cleared,
}

/// The mapping after one command is applied to it.
pub open spec fn spec_kv_step(m: Map<Seq<char>, Seq<u8>>, cmd: &KvCommand) -> Map<
    Seq<char>,
    Seq<u8>,
> {
    match cmd {
        KvCommand::Put { key, value } => m.insert(key@, encode_utf8(value@)),
        KvCommand::Delete { key } => m.remove(key@),
        KvCommand::Reset => Map::empty(),
        _ => m,
    }
}

/// Whether the command mutated the mapping and a save is owed.
pub open spec fn spec_kv_saves(m: Map<Seq<char>, Seq<u8>>, cmd: &KvCommand) -> bool {
    match cmd {
        KvCommand::Put { .. } => true,
        KvCommand::Delete { key } => m.contains_key(key@),
        KvCommand::Reset => true,
        _ => false,
    }
}

/// Apply one command: the store steps as `spec_kv_step` says, the save flag
/// is owed exactly as `spec_kv_saves` says, and the reply reports the
/// outcome.  When no save is owed the store is untouched, pair for pair.
pub fn kv_apply(store: &mut KvStore, cmd: KvCommand) -> (r: (KvReply, bool))
    requires
        old(store).wf(),
    ensures
        final(store).wf(),
        final(store)@ == spec_kv_step(old(store)@, &cmd),
        r.1 == spec_kv_saves(old(store)@, &cmd),
        !r.1 ==> final(store).pairs() == old(store).pairs(),
        cmd matches KvCommand::Put { .. } ==> r.0 is Stored,
        cmd matches KvCommand::Get { key } ==> (match r.0 {
            KvReply::Found { value } => old(store)@.contains_key(key@) && value@ == old(
                store,
            )@[key@],
            KvReply::NotFound => !old(store)@.contains_key(key@),
            _ => false,
        }),
        cmd matches KvCommand::List ==> (match r.0 {
            KvReply::Keys { keys } => keys@.len() == old(store).pairs().len() && (forall|i: int|
                0 <= i < keys@.len() ==> keys@[i]@ == old(store).pairs()[i].0),
            _ => false,
        }),
        cmd matches KvCommand::Delete { key } ==> (match r.0 {
            KvReply::Deleted => old(store)@.contains_key(key@),
            KvReply::NotFound => !old(store)@.contains_key(key@),
            _ => false,
        }),
        cmd matches KvCommand::Reset ==> r.0 is Cleared && final(store).pairs() == Seq::<
            (Seq<char>, Seq<u8>),
        >::empty(),
{
    match cmd {
        KvCommand::Put { key, value } => {
            let bytes = value.as_str().as_bytes_vec();
            store.set(key, bytes);
            (KvReply::Stored, true)
        },
        KvCommand::Get { key } => {
            match store.get(&key) {
                Some(v) => {
                    let value = slice_to_vec(v.as_slice());
                    (KvReply::Found { value }, false)
                },
                None => (KvReply::NotFound, false),
            }
        },
        KvCommand::List => (KvReply::Keys { keys: store.keys() }, false),
        KvCommand::Delete { key } => {
            if store.delete(&key) {
                (KvReply::Deleted, true)
            } else {
                (KvReply::NotFound, false)
            }
        },
        KvCommand::Reset => {
            store.clear();
            (KvReply::Cleared, true)
        },
    }
}

/// One profile invocation.
pub enum ProfileCommand {
    Add { name: String, age: u64 },
    List,
    Delete { index: u64 },
    Reset,
}

/// What a profile invocation reports back.
pub enum ProfileReply {
    Added,
    Records { profiles: Vec<Profile> },
    Deleted,
    InvalidIndex,
    Cleared,
}

/// The record sequence after one command is applied to it.
pub open spec fn spec_profile_step(s: Seq<(Seq<char>, u64)>, cmd: &ProfileCommand) -> Seq<
    (Seq<char>, u64),
> {
    match cmd {
        ProfileCommand::Add { name, age } => s.push((name@, *age)),
        ProfileCommand::Delete { index } => if *index < s.len() {
            s.remove(*index as int)
        } else {
            s
        },
        ProfileCommand::Reset => Seq::empty(),
        _ => s,
    }
}

/// Whether the command mutated the sequence and a save is owed.
pub open spec fn spec_profile_saves(s: Seq<(Seq<char>, u64)>, cmd: &ProfileCommand) -> bool {
    match cmd {
        ProfileCommand::Add { .. } => true,
        ProfileCommand::Delete { index } => *index < s.len(),
        ProfileCommand::Reset => true,
        _ => false,
    }
}

/// Apply one profile command, the counterpart of `kv_apply`.
pub fn profile_apply(store: &mut ProfileStore, cmd: ProfileCommand) -> (r: (ProfileReply, bool))
    ensures
        final(store)@ == spec_profile_step(old(store)@, &cmd),
        r.1 == spec_profile_saves(old(store)@, &cmd),
        cmd matches ProfileCommand::Add { .. } ==> r.0 is Added,
        cmd matches ProfileCommand::List ==> (match r.0 {
            ProfileReply::Records { profiles } => records_of(profiles@) == old(store)@,
            _ => false,
        }),
        cmd matches ProfileCommand::Delete { index } ==> (match r.0 {
            ProfileReply::Deleted => index < old(store)@.len(),
            ProfileReply::InvalidIndex => index >= old(store)@.len(),
            _ => false,
        }),
        cmd matches ProfileCommand::Reset ==> r.0 is Cleared,
{
    match cmd {
        ProfileCommand::Add { name, age } => {
            store.add(name, age);
            (ProfileReply::Added, true)
        },
        ProfileCommand::List => {
            let n = store.len();
            let mut profiles: Vec<Profile> = Vec::new();
            let mut i: usize = 0;
            while i < n
                invariant
                    n == store@.len(),
                    i <= n,
                    profiles@.len() == i,
                    forall|j: int| 0 <= j < i ==> profiles@[j]@ == store@[j],
                decreases n - i,
            {
                let p = store.record_at(i);
                profiles.push(Profile { name: p.name.clone(), age: p.age });
                i += 1;
            }
            proof {
                assert(records_of(profiles@) =~= store@);
            }
            (ProfileReply::Records { profiles }, false)
        },
        ProfileCommand::Delete { index } => {
            if index < store.len() as u64 {
                store.delete(index as usize);
                (ProfileReply::Deleted, true)
            } else {
                (ProfileReply::InvalidIndex, false)
            }
        },
        ProfileCommand::Reset => {
            store.clear();
            (ProfileReply::Cleared, true)
        },
    }
}

// ---------------------------------------------------------------------------
// Laws of the dispatcher
// ---------------------------------------------------------------------------
/// Resetting twice leaves the very state — and hence the very snapshot —
/// that resetting once leaves, whatever the starting mapping was.
pub proof fn lemma_kv_reset_idempotent(m: Map<Seq<char>, Seq<u8>>)
    ensures
        spec_kv_step(spec_kv_step(m, &KvCommand::Reset), &KvCommand::Reset) == spec_kv_step(
            m,
            &KvCommand::Reset,
        ),
{
}

/// The profile counterpart: resetting twice equals resetting once.
pub proof fn lemma_profile_reset_idempotent(s: Seq<(Seq<char>, u64)>)
    ensures
        spec_profile_step(spec_profile_step(s, &ProfileCommand::Reset), &ProfileCommand::Reset)
            == spec_profile_step(s, &ProfileCommand::Reset),
{
}

/// Setting the same key twice leaves exactly the state that the second set
/// alone would leave: the later value overwrites the earlier one.
pub proof fn lemma_kv_set_overwrite(m: Map<Seq<char>, Seq<u8>>, c1: &KvCommand, c2: &KvCommand)
    requires
        c1 matches KvCommand::Put { key: k1, .. } && c2 matches KvCommand::Put { key: k2, .. }
            && k1@ == k2@,
    ensures
        spec_kv_step(spec_kv_step(m, c1), c2) == spec_kv_step(m, c2),
{
    if let KvCommand::Put { key: k1, value: v1 } = c1 {
        if let KvCommand::Put { key: k2, value: v2 } = c2 {
            assert(m.insert(k1@, encode_utf8(v1@)).insert(k2@, encode_utf8(v2@)) =~= m.insert(
                k2@,
                encode_utf8(v2@),
            ));
        }
    }
}

/// A lookup, a listing, or a delete of an absent key neither changes the
/// mapping nor asks for a save: not-found outcomes are not mutations.
pub proof fn lemma_kv_not_found_no_save(m: Map<Seq<char>, Seq<u8>>, cmd: &KvCommand)
    requires
        match cmd {
            KvCommand::Get { .. } => true,
            KvCommand::List => true,
            KvCommand::Delete { key } => !m.contains_key(key@),
            _ => false,
        },
    ensures
        spec_kv_step(m, cmd) == m,
        !spec_kv_saves(m, cmd),
{
    if let KvCommand::Delete { key } = cmd {
        assert(m.remove(key@) =~= m);
    }
}

/// A delete of an out-of-range index neither changes the record sequence nor
/// asks for a save.
pub proof fn lemma_profile_out_of_range_no_save(s: Seq<(Seq<char>, u64)>, cmd: &ProfileCommand)
    requires
        cmd matches ProfileCommand::Delete { index } && *index >= s.len(),
    ensures
        spec_profile_step(s, cmd) == s,
        !spec_profile_saves(s, cmd),
{
}

} // verus!
