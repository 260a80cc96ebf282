//! The state of the store as it is reported: one record for the store and one
//! for each of its key spaces, put together from what the key-value engine
//! says of itself.

use vstd::prelude::*;
use vstd::utf8::*;
use crate::errors::MauveError;
use crate::text::from_utf8;

verus! {

/// What is reported of one key space.
pub struct TreeStateView {
    pub checksum: u32,
    pub name: Seq<char>,
    pub len: u32,
}

/// What is reported of one key space.
#[derive(Debug)]
pub struct TreeState {
    /// Rolling checksum of the entries.
    pub checksum: u32,
    /// Name of the key space.
    pub name: String,
    /// Number of entries, as far as 32 bits hold it.
    pub len: u32,
}

impl View for TreeState {
    type V = TreeStateView;

    open spec fn view(&self) -> TreeStateView {
        TreeStateView { checksum: self.checksum, name: self.name@, len: self.len }
    }
}

/// What the engine says of one key space: its checksum, its name as bytes,
/// and the number of its entries.
pub struct TreeReading {
    pub checksum: u32,
    pub name: Vec<u8>,
    pub len: usize,
}

/// The lower 32 bits of a count.
pub open spec fn low32(n: usize) -> u32 {
    (n as int % 0x1_0000_0000) as u32
}

/// The record of a key space, if its name is UTF-8 text.
pub open spec fn tree_state(checksum: u32, name: Seq<u8>, len: usize) -> Option<TreeStateView> {
    if valid_utf8(name) {
        Some(TreeStateView { checksum, name: decode_utf8(name), len: low32(len) })
    } else {
        None
    }
}

/// The records of some key spaces, in their order, if all their names are
/// UTF-8 text.
pub open spec fn tree_states(readings: Seq<TreeReading>) -> Option<Seq<TreeStateView>>
    decreases readings.len(),
{
    if readings.len() == 0 {
        Some(Seq::empty())
    } else {
        match tree_states(readings.drop_last()) {
            Some(front) => match tree_state(
                readings.last().checksum,
                readings.last().name@,
                readings.last().len,
            ) {
                Some(last) => Some(front.push(last)),
                None => None,
            },
            None => None,
        }
    }
}

/// Once the records of the first `n` key spaces cannot be made, those of all
/// cannot.
pub proof fn lemma_tree_states_failure_stays(readings: Seq<TreeReading>, n: int)
    requires
        0 <= n <= readings.len(),
        tree_states(readings.take(n)) is None,
    ensures
        tree_states(readings) is None,
    decreases readings.len() - n,
{
    if n < readings.len() {
        assert(readings.take(n + 1).drop_last() =~= readings.take(n));
        lemma_tree_states_failure_stays(readings, n + 1);
    } else {
        assert(readings.take(n) =~= readings);
    }
}

impl TreeState {
    /// The record of a key space from what the engine says of it. A name
    /// that is not UTF-8 text is refused as `Utf8Error`. Of the number of
    /// entries the lower 32 bits are kept.
    pub fn from_raw(checksum: u32, name: Vec<u8>, len: usize) -> (r: Result<Self, MauveError>)
        ensures
            match r {
                Ok(state) => tree_state(checksum, name@, len) == Some(state@),
                Err(MauveError::Utf8Error(_)) => tree_state(checksum, name@, len) is None,
                Err(_) => false,
            },
    {
        let name = match from_utf8(name) {
            Ok(name) => name,
            Err(message) => {
                return Err(MauveError::Utf8Error(message));
            },
        };
        let len: u32 = ((len as u64) % 0x1_0000_0000) as u32;
        Ok(TreeState { checksum, name, len })
    }
}

/// What is reported of the store.
pub struct BackendStateView {
    pub checksum: u32,
    pub name: Seq<char>,
    pub size: u64,
    pub trees: Seq<TreeStateView>,
    pub recovered: bool,
}

/// The views of some records.
pub open spec fn tree_state_views(trees: Seq<TreeState>) -> Seq<TreeStateView> {
    Seq::new(trees.len(), |i: int| trees[i]@)
}

/// What is reported of the store.
#[derive(Debug)]
pub struct BackendState {
    /// Rolling checksum of the whole store.
    pub checksum: u32,
    /// Name of the store.
    pub name: String,
    /// Size of the store on disk, in bytes.
    pub size: u64,
    /// The key spaces.
    pub trees: Vec<TreeState>,
    /// Whether the store was recovered when it was opened.
    pub recovered: bool,
}

impl View for BackendState {
    type V = BackendStateView;

    open spec fn view(&self) -> BackendStateView {
        BackendStateView {
            checksum: self.checksum,
            name: self.name@,
            size: self.size,
            trees: tree_state_views(self.trees@),
            recovered: self.recovered,
        }
    }
}

/// The record of the store, if its name and the names of all its key spaces
/// are UTF-8 text.
pub open spec fn backend_state(
    name: Seq<u8>,
    checksum: u32,
    size: u64,
    recovered: bool,
    readings: Seq<TreeReading>,
) -> Option<BackendStateView> {
    if valid_utf8(name) {
        match tree_states(readings) {
            Some(trees) => Some(
                BackendStateView { checksum, name: decode_utf8(name), size, trees, recovered },
            ),
            None => None,
        }
    } else {
        None
    }
}

impl BackendState {
    /// The record of the store from what the engine says of it and of each
    /// of its key spaces. A name that is not UTF-8 text is refused as
    /// `Utf8Error`.
    pub fn from_raw(
        name: Vec<u8>,
        checksum: u32,
        size: u64,
        recovered: bool,
        readings: Vec<TreeReading>,
    ) -> (r: Result<Self, MauveError>)
        ensures
            match r {
                Ok(state) => backend_state(name@, checksum, size, recovered, readings@) == Some(
                    state@,
                ),
                Err(MauveError::Utf8Error(_)) => backend_state(
                    name@,
                    checksum,
                    size,
                    recovered,
                    readings@,
                ) is None,
                Err(_) => false,
            },
    {
        let ghost raw = name@;
        let name = match from_utf8(name) {
            Ok(name) => name,
            Err(message) => {
                return Err(MauveError::Utf8Error(message));
            },
        };
        let mut trees: Vec<TreeState> = Vec::new();
        let mut i: usize = 0;
        proof {
            assert(readings@.take(0) =~= Seq::empty());
            assert(tree_state_views(trees@) =~= Seq::empty());
        }
        while i < readings.len()
            invariant
                i <= readings@.len(),
                valid_utf8(raw),
                name@ == decode_utf8(raw),
                tree_states(readings@.take(i as int)) == Some(tree_state_views(trees@)),
            decreases readings@.len() - i,
        {
            proof {
                assert(readings@.take(i as int + 1).drop_last() =~= readings@.take(i as int));
                assert(readings@.take(i as int + 1).last() == readings@[i as int]);
            }
            let ghost earlier = tree_state_views(trees@);
            let copy = crate::tree::copy_bytes(readings[i].name.as_slice());
            match TreeState::from_raw(readings[i].checksum, copy, readings[i].len) {
                Ok(state) => {
                    let ghost added = state@;
                    trees.push(state);
                    proof {
                        assert(tree_state_views(trees@) =~= earlier.push(added));
                    }
                },
                Err(e) => {
                    proof {
                        lemma_tree_states_failure_stays(readings@, i as int + 1);
                    }
                    return Err(e);
                },
            }
            i += 1;
        }
        proof {
            assert(readings@.take(i as int) =~= readings@);
        }
        Ok(BackendState { checksum, name, size, trees, recovered })
    }
}

} // verus!
