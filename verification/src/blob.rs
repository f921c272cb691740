//! Where the batches of a trace are stored.

use std::sync::Arc;

use timely::progress::Antichain;
use vstd::prelude::*;
use vstd::string::StringExecFns;

use crate::data::Data;
use crate::frontier;
use crate::frontier::{Description, DescriptionView};
use crate::updates;
use crate::updates::Key;

verus! {

/// A batch of updates, and the range of their times.
#[derive(Debug)]
pub struct BlobTraceBatch<K, V> {
    pub desc: Description,
    pub updates: Vec<((K, V), u64, isize)>,
}

/// The value of a [`BlobTraceBatch`].
#[verifier::ext_equal]
pub struct BlobTraceBatchView<K, V> {
    pub desc: DescriptionView,
    pub updates: Seq<(Key<K, V>, isize)>,
}

impl<K: Data, V: Data> View for BlobTraceBatch<K, V> {
    type V = BlobTraceBatchView<K::V, V::V>;

    open spec fn view(&self) -> Self::V {
        BlobTraceBatchView { desc: self.desc@, updates: updates::changes_of(self.updates@) }
    }
}

/// Why a batch could not be stored or had.
#[derive(Debug, PartialEq, Eq)]
pub enum BlobError {
    /// Nothing is stored under the key.
    NotFound(String),
    /// The storage fails.
    Failed(String),
}

/// Why a trace refuses what it is asked.
#[derive(Debug, PartialEq, Eq)]
pub enum Error {
    /// The batch does not start where the trace ends.
    LowerMismatch { upper: Antichain<u64>, desc: Description },
    /// The trace does not reach beyond the time of the compaction.
    InvalidCompaction,
    /// The storage refuses.
    Blob(BlobError),
}

impl Error {
    /// The error as text.
    pub open spec fn message_spec(&self) -> Seq<char> {
        match self {
            Error::LowerMismatch { upper, desc } => "batch lower doesn't match trace upper "@
                + frontier::frontier_text(frontier::antichain_elements(*upper)) + ": "@
                + desc@.text_spec(),
            Error::InvalidCompaction => "invalid compaction"@,
            Error::Blob(BlobError::NotFound(key)) => "nothing is stored under "@ + key@,
            Error::Blob(BlobError::Failed(reason)) => reason@,
        }
    }

    /// The error as text.
    pub fn message(&self) -> (r: String)
        ensures
            r@ == self.message_spec(),
    {
        match self {
            Error::LowerMismatch { upper, desc } => {
                let mut r = "batch lower doesn't match trace upper ".to_owned();
                r.append(frontier::antichain_debug(upper).as_str());
                r.append(": ");
                r.append(desc.text().as_str());
                r
            },
            Error::InvalidCompaction => "invalid compaction".to_owned(),
            Error::Blob(BlobError::NotFound(key)) => {
                let mut r = "nothing is stored under ".to_owned();
                r.append(key.as_str());
                r
            },
            Error::Blob(BlobError::Failed(reason)) => reason.clone(),
        }
    }
}

/// What batches are stored under.
pub type Contents<K, V> = Map<Seq<char>, BlobTraceBatchView<K, V>>;

/// A storage of batches.
pub trait Blob<K: Data, V: Data>: Sized {
    /// The batches that are stored.
    spec fn contents(&self) -> Contents<K::V, V::V>;

    /// Whether the storage never fails. One that reaches beyond the memory of the
    /// process has to say no.
    spec fn reliable(&self) -> bool;

    /// Whether the storage may answer with this error when it is asked to store a batch
    /// under a key, or for the batch that is stored there.
    spec fn refuses(&self, key: Seq<char>, e: BlobError) -> bool;

    /// Stores a batch under a key.
    fn set_trace_batch(&mut self, key: String, batch: BlobTraceBatch<K, V>) -> (r: Result<
        (),
        BlobError,
    >)
        ensures
            r is Ok ==> final(self).contents() == old(self).contents().insert(key@, batch@),
            r matches Err(e) ==> final(self).contents() == old(self).contents() && old(
                self,
            ).refuses(key@, e),
            old(self).reliable() ==> r is Ok && final(self).reliable(),
    ;

    /// The batch that is stored under a key.
    fn get_trace_batch(&self, key: &String) -> (r: Result<Arc<BlobTraceBatch<K, V>>, BlobError>)
        ensures
            r matches Ok(batch) ==> self.contents().contains_key(key@) && self.contents()[key@]
                == batch@,
            r matches Err(e) ==> self.refuses(key@, e),
            self.reliable() ==> (r is Ok <==> self.contents().contains_key(key@)),
    ;
}

/// A storage in memory.
#[derive(Debug)]
pub struct MemBlob<K, V> {
    name: String,
    entries: Vec<(String, Arc<BlobTraceBatch<K, V>>)>,
}

/// What a list of entries holds: the last entry under a key counts.
spec fn entry_map<K: Data, V: Data>(entries: Seq<(String, Arc<BlobTraceBatch<K, V>>)>) -> Contents<
    K::V,
    V::V,
>
    decreases entries.len(),
{
    if entries.len() == 0 {
        Map::empty()
    } else {
        entry_map(entries.drop_last()).insert(entries.last().0@, entries.last().1@)
    }
}

impl<K: Data, V: Data> MemBlob<K, V> {
    /// A storage without batches.
    pub fn new(name: &str) -> (r: Self)
        ensures
            r.contents() == Map::<Seq<char>, BlobTraceBatchView<K::V, V::V>>::empty(),
            r.reliable(),
            r.name_spec() == name@,
    {
        MemBlob { name: name.to_owned(), entries: Vec::new() }
    }

    /// The name that the storage was given.
    pub closed spec fn name_spec(&self) -> Seq<char> {
        self.name@
    }

    /// The name that the storage was given.
    pub fn name(&self) -> (r: &str)
        ensures
            r@ == self.name_spec(),
    {
        self.name.as_str()
    }
}

impl<K: Data, V: Data> Blob<K, V> for MemBlob<K, V> {
    closed spec fn contents(&self) -> Contents<K::V, V::V> {
        entry_map(self.entries@)
    }

    open spec fn reliable(&self) -> bool {
        true
    }

    open spec fn refuses(&self, key: Seq<char>, e: BlobError) -> bool {
        &&& !self.contents().contains_key(key)
        &&& e matches BlobError::NotFound(missing) && missing@ == key
    }

    fn set_trace_batch(&mut self, key: String, batch: BlobTraceBatch<K, V>) -> (r: Result<
        (),
        BlobError,
    >)
        ensures
            final(self).name_spec() == old(self).name_spec(),
    {
        let ghost before = self.entries@;
        self.entries.push((key, Arc::new(batch)));
        assert(self.entries@.drop_last() =~= before);
        Ok(())
    }

    fn get_trace_batch(&self, key: &String) -> (r: Result<Arc<BlobTraceBatch<K, V>>, BlobError>) {
        let mut left: usize = self.entries.len();
        assert(self.entries@.take(left as int) =~= self.entries@);
        while left > 0
            invariant
                left <= self.entries.len(),
                self.contents() == entry_map(self.entries@),
                self.contents().contains_key(key@) <==> entry_map(
                    self.entries@.take(left as int),
                ).contains_key(key@),
                self.contents().contains_key(key@) ==> self.contents()[key@] == entry_map(
                    self.entries@.take(left as int),
                )[key@],
            decreases left,
        {
            let ghost held = self.entries@.take(left as int);
            assert(held.drop_last() =~= self.entries@.take(left - 1));
            assert(held.last() == self.entries@[left - 1]);
            if self.entries[left - 1].0 == *key {
                return Ok(self.entries[left - 1].1.clone());
            }
            left -= 1;
        }
        assert(self.entries@.take(0) =~= Seq::empty());
        Err(BlobError::NotFound(key.clone()))
    }
}

/// A storage in memory never fails. It refuses to give only what is not there, and then
/// says which key it was asked for.
pub proof fn law_memory_refuses_what_is_missing<K: Data, V: Data>(
    blob: MemBlob<K, V>,
    key: Seq<char>,
    e: BlobError,
)
    ensures
        blob.reliable(),
        blob.refuses(key, e) ==> !blob.contents().contains_key(key),
        blob.refuses(key, e) ==> (e matches BlobError::NotFound(missing) && missing@ == key),
{
}

} // verus!
