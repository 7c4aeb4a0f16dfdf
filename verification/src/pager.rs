//! Reading a subgraph page by page.
//!
//! A query is a series of requests. The first asks for a block no older
//! than the one the reader last saw; the following ones are pinned to the
//! block that the subgraph answered with, and each starts after the last
//! entry of the page before. An empty page ends the query. When the
//! subgraph no longer knows the pinned block, the query starts over.
//!
//! The reader decides; its caller sends the requests and hands the answers
//! back.

use vstd::prelude::*;
use crate::text::{mentions, mentions_phrase};

verus! {

/// A block, by its number and its hash as the subgraph writes it.
pub struct BlockPointer {
    pub number: u64,
    pub hash: String,
}

/// Which block a request is answered from.
pub enum BlockFilter {
    /// Any block with at least this number.
    NumberGte(u64),
    /// The block with this hash.
    Hash(String),
}

/// One request: the values of the variables `$block`, `$first` and
/// `$last`.
pub struct PageRequest {
    pub block: BlockFilter,
    pub first: u32,
    pub last: String,
}

/// What came back for a request that asked for entries.
pub struct PageData<T> {
    /// The block that the page was answered from.
    pub block: BlockPointer,
    /// The entries of the page, each as far as it could be read.
    pub results: Vec<Result<T, String>>,
    /// The `id` of the last entry, where it has one.
    pub last_id: Option<String>,
}

/// The answer to one request.
pub struct Page<T> {
    /// The messages of the errors that the subgraph reports.
    pub errors: Vec<String>,
    /// The data, if the answer has any.
    pub data: Option<PageData<T>>,
}

/// Why a query failed.
pub enum Failure {
    /// The subgraph reported errors; these are their messages.
    Query(Vec<String>),
    /// The last entry of a page has no `id` to continue from.
    MissingId,
    /// An entry could not be read; this is why.
    Entry(String),
}

/// How a query goes on after an answer.
pub enum Progress<T> {
    /// With another request.
    Fetch(PageRequest),
    /// It is complete; these are its entries.
    Done(Vec<T>),
    /// It has failed.
    Failed(Failure),
}

/// The reader of one subgraph query.
pub struct Pager<T> {
    /// The number of the block that the last complete query was answered
    /// from, or that the reader was pinned to since.
    pub latest_block: u64,
    /// How many entries a page may hold.
    pub first: u32,
    /// The `id` of the last entry of the page before; empty before the
    /// first page.
    pub last_id: String,
    /// The block that the running query is pinned to.
    pub query_block: Option<BlockPointer>,
    /// The entries read so far.
    pub results: Vec<T>,
}

/// Whether one of `errors` says that the subgraph no longer knows the block
/// of the query.
pub open spec fn reports_reorg(errors: Seq<String>) -> bool {
    exists|i: int|
        0 <= i < errors.len() && mentions_phrase(
            (#[trigger] errors[i])@,
            "no block with that hash found"@,
        )
}

/// Whether the entry at `k` is the first of `entries` that could not be
/// read.
pub open spec fn fails_at<T>(entries: Seq<Result<T, String>>, k: int) -> bool {
    &&& 0 <= k < entries.len()
    &&& entries[k] is Err
    &&& forall|j: int| 0 <= j < k ==> (#[trigger] entries[j]) is Ok
}

/// Whether every entry could be read.
pub open spec fn all_read<T>(entries: Seq<Result<T, String>>) -> bool {
    forall|j: int| 0 <= j < entries.len() ==> (#[trigger] entries[j]) is Ok
}

/// The entries that were read.
pub open spec fn values<T>(entries: Seq<Result<T, String>>) -> Seq<T> {
    Seq::new(entries.len(), |j: int| entries[j]->Ok_0)
}

fn any_reports_reorg(errors: &Vec<String>) -> (found: bool)
    ensures
        found == reports_reorg(errors@),
{
    let mut i: usize = 0;
    while i < errors.len()
        invariant
            i <= errors@.len(),
            forall|j: int|
                0 <= j < i ==> !mentions_phrase(
                    (#[trigger] errors@[j])@,
                    "no block with that hash found"@,
                ),
        decreases errors@.len() - i,
    {
        if mentions(errors[i].as_str(), "no block with that hash found") {
            return true;
        }
        i += 1;
    }
    false
}

impl<T> Pager<T> {
    /// Whether no query is under way.
    pub open spec fn at_rest(&self) -> bool {
        &&& self.last_id@ == Seq::<char>::empty()
        &&& self.query_block is None
        &&& self.results@ == Seq::<T>::empty()
    }

    /// The request that the reader would send next.
    pub open spec fn next_request(&self) -> PageRequest {
        PageRequest {
            block: match self.query_block {
                Some(block) => BlockFilter::Hash(block.hash),
                None => BlockFilter::NumberGte(self.latest_block),
            },
            first: self.first,
            last: self.last_id,
        }
    }

    /// A reader that asks for blocks from number `latest_block` on, and for
    /// `first` entries a page.
    pub fn new(latest_block: u64, first: u32) -> (pager: Self)
        ensures
            pager.at_rest(),
            pager.latest_block == latest_block,
            pager.first == first,
    {
        Pager { latest_block, first, last_id: String::new(), query_block: None, results: Vec::new() }
    }

    /// Makes the next query ask for blocks from number `block` on: after a
    /// deposit, no answer may come from before the block that holds it.
    pub fn pin(&mut self, block: u64)
        ensures
            final(self).latest_block == block,
            final(self).first == old(self).first,
            final(self).last_id == old(self).last_id,
            final(self).query_block == old(self).query_block,
            final(self).results == old(self).results,
    {
        self.latest_block = block;
    }

    /// The request to send next: the first of a query when the reader is at
    /// rest, the following one otherwise.
    pub fn request(&self) -> (r: PageRequest)
        ensures
            r == self.next_request(),
    {
        let block = match &self.query_block {
            Some(block) => BlockFilter::Hash(block.hash.clone()),
            None => BlockFilter::NumberGte(self.latest_block),
        };
        PageRequest { block, first: self.first, last: self.last_id.clone() }
    }

    /// Gives up the query that is under way, as after a request that got
    /// no answer: what was read is dropped, and the next request is again
    /// the first of a query.
    pub fn abandon(&mut self)
        ensures
            final(self).at_rest(),
            final(self).latest_block == old(self).latest_block,
            final(self).first == old(self).first,
    {
        self.last_id = String::new();
        self.query_block = None;
        self.results = Vec::new();
    }

    /// Takes the answer to the last request and says how the query goes on.
    ///
    /// - If an error says that the block of the query is not known any
    ///   more, the query starts over: what was read is dropped, and the next
    ///   request is again the first of a query.
    /// - Any other error fails the query.
    /// - An answer without data, or without entries, completes the query.
    ///   The reader keeps the number of the block that the query was pinned
    ///   to, if it was pinned.
    /// - A page whose last entry has no `id`, or with an entry that could
    ///   not be read, fails the query.
    /// - Any other page is added to what was read, and the next request is
    ///   pinned to its block and starts after its last entry.
    ///
    /// After a query has completed or failed the reader is at rest.
    #[verifier::loop_isolation(false)]
    pub fn on_page(&mut self, page: Page<T>) -> (progress: Progress<T>)
        ensures
            final(self).first == old(self).first,
            reports_reorg(page.errors@) ==> {
                &&& final(self).at_rest()
                &&& final(self).latest_block == old(self).latest_block
                &&& progress == Progress::<T>::Fetch(final(self).next_request())
            },
            !reports_reorg(page.errors@) && page.errors@.len() > 0 ==> {
                &&& final(self).at_rest()
                &&& final(self).latest_block == old(self).latest_block
                &&& progress == Progress::<T>::Failed(Failure::Query(page.errors))
            },
            page.errors@.len() == 0 && (page.data is None || page.data->Some_0.results@.len() == 0)
                ==> {
                &&& final(self).at_rest()
                &&& final(self).latest_block == (match old(self).query_block {
                    Some(block) => block.number,
                    None => old(self).latest_block,
                })
                &&& progress == Progress::Done(old(self).results)
            },
            page.errors@.len() == 0 && page.data is Some && page.data->Some_0.results@.len() > 0
                ==> {
                let data = page.data->Some_0;
                &&& final(self).latest_block == old(self).latest_block
                &&& data.last_id is None ==> final(self).at_rest() && progress == Progress::<
                    T,
                >::Failed(Failure::MissingId)
                &&& data.last_id is Some ==> forall|k: int|
                    fails_at(data.results@, k) ==> final(self).at_rest() && progress
                        == Progress::<T>::Failed(Failure::Entry(data.results@[k]->Err_0))
                &&& data.last_id is Some && all_read(data.results@) ==> {
                    &&& final(self).last_id == data.last_id->Some_0
                    &&& final(self).query_block == Some(data.block)
                    &&& final(self).results@ == old(self).results@ + values(data.results@)
                    &&& progress == Progress::<T>::Fetch(final(self).next_request())
                }
            },
    {
        let Page { errors, data } = page;
        if any_reports_reorg(&errors) {
            self.abandon();
            return Progress::Fetch(self.request());
        }
        if errors.len() > 0 {
            self.abandon();
            return Progress::Failed(Failure::Query(errors));
        }
        let data = match data {
            Some(data) => data,
            None => {
                return self.finish();
            },
        };
        if data.results.len() == 0 {
            return self.finish();
        }
        let PageData { block, results, last_id } = data;
        let last_id = match last_id {
            Some(id) => id,
            None => {
                self.abandon();
                return Progress::Failed(Failure::MissingId);
            },
        };
        let ghost all = results@;
        let ghost had = self.results@;
        let mut entries = results;
        let mut read: usize = 0;
        while entries.len() > 0
            invariant
                0 <= read <= all.len(),
                entries@ == all.skip(read as int),
                forall|j: int| 0 <= j < read ==> (#[trigger] all[j]) is Ok,
                self.results@ == had + values(all.take(read as int)),
                self.latest_block == old(self).latest_block,
                self.first == old(self).first,
            decreases entries@.len(),
        {
            let entry = entries.remove(0);
            proof {
                assert(entry == all[read as int]);
                assert(entries@ =~= all.skip(read + 1));
            }
            match entry {
                Ok(value) => {
                    self.results.push(value);
                    proof {
                        assert(values(all.take(read + 1)) =~= values(all.take(read as int)).push(
                            value,
                        ));
                        assert(self.results@ =~= had + values(all.take(read + 1)));
                    }
                },
                Err(reason) => {
                    proof {
                        assert(fails_at(all, read as int));
                        assert forall|k: int| fails_at(all, k) implies k == read by {
                            if k < read {
                                assert(all[k] is Ok);
                            } else if k > read {
                                assert(all[read as int] is Ok);
                            }
                        }
                        assert(!all_read(all));
                    }
                    self.abandon();
                    return Progress::Failed(Failure::Entry(reason));
                },
            }
            read += 1;
        }
        proof {
            assert(all.take(all.len() as int) =~= all);
            assert forall|k: int| !fails_at(all, k) by {
                if fails_at(all, k) {
                    assert(all[k] is Ok);
                }
            }
        }
        self.last_id = last_id;
        self.query_block = Some(block);
        Progress::Fetch(self.request())
    }

    fn finish(&mut self) -> (progress: Progress<T>)
        ensures
            final(self).at_rest(),
            final(self).first == old(self).first,
            final(self).latest_block == (match old(self).query_block {
                Some(block) => block.number,
                None => old(self).latest_block,
            }),
            progress == Progress::Done(old(self).results),
    {
        match &self.query_block {
            Some(block) => {
                self.latest_block = block.number;
            },
            None => {},
        }
        let mut results: Vec<T> = Vec::new();
        core::mem::swap(&mut results, &mut self.results);
        self.last_id = String::new();
        self.query_block = None;
        Progress::Done(results)
    }
}

} // verus!
