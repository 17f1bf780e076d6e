//! The two places where the largest items are asked for: the largest files
//! below a directory, and the processes that hold the most memory.
use crate::items::{FileInfo, ProcessInfo};
use crate::order::TotalOrder;
use crate::selection::{at_most, is_selection, is_top_k, lemma_top_k_bounds};
use crate::topk::{top_k_truncate, TopK};
use vstd::prelude::*;

verus! {

/// One entry met while walking a directory tree.
#[derive(Debug)]
pub struct FileRecord {
    /// Where the entry lies.
    pub path: std::path::PathBuf,
    /// Whether the entry is a regular file.
    pub is_file: bool,
    /// The entry's size in bytes, or `None` where it could not be read.
    pub size: Option<u64>,
}

impl FileRecord {
    /// The ranked file that this entry stands for: a regular file whose size
    /// could be read. Any other entry stands for none and is passed over.
    pub open spec fn ranked(self) -> Option<FileInfo> {
        if self.is_file && self.size is Some {
            Some(FileInfo { path: self.path, size: self.size->0 })
        } else {
            None
        }
    }

    /// Turns the entry into the ranked file it stands for, if any.
    pub fn into_file_info(self) -> (file: Option<FileInfo>)
        ensures
            file == self.ranked(),
    {
        if !self.is_file {
            return None;
        }
        match self.size {
            Some(size) => Some(FileInfo { path: self.path, size }),
            None => None,
        }
    }
}

/// What a walk of a directory tree reports at one step.
#[derive(Debug)]
pub enum WalkEvent {
    /// An entry was met.
    Entry(FileRecord),
    /// Something could not be read, `depth` levels below the root of the
    /// walk; at depth zero it is the root itself.
    Failure { depth: usize },
}

impl WalkEvent {
    /// The walk could not look at its root, so it has nothing to report.
    pub open spec fn is_root_failure(self) -> bool {
        self matches WalkEvent::Failure { depth } && depth == 0
    }

    /// The ranked file that this step adds: that of an entry which stands
    /// for one. A failure adds none.
    pub open spec fn ranked(self) -> Option<FileInfo> {
        match self {
            WalkEvent::Entry(record) => record.ranked(),
            WalkEvent::Failure { .. } => None,
        }
    }
}

/// Some step of the walk failed at the root.
pub open spec fn root_failed(events: Seq<WalkEvent>) -> bool {
    exists|i: int| 0 <= i < events.len() && (#[trigger] events[i]).is_root_failure()
}

/// The ranked files that the steps of a walk add, in the order of the walk.
pub open spec fn ranked_files(events: Seq<WalkEvent>) -> Seq<FileInfo>
    decreases events.len(),
{
    if events.len() == 0 {
        Seq::empty()
    } else {
        let earlier = ranked_files(events.drop_last());
        match events.last().ranked() {
            Some(file) => earlier.push(file),
            None => earlier,
        }
    }
}

/// Why no largest files can be named.
#[derive(Clone, Copy, Debug, PartialEq, Eq, Structural)]
pub enum ScanError {
    /// The directory tree could not be walked at all.
    Unreachable,
}

impl TopK<FileInfo> {
    /// Takes note of one step of a walk.
    ///
    /// A failure at the root is an error and leaves the collector as it was.
    /// The ranked file of an entry is offered. Anything else, an entry that
    /// stands for no ranked file or a failure below the root, is passed over
    /// and leaves the collector as it was.
    pub fn observe(&mut self, event: WalkEvent) -> (outcome: Result<(), ScanError>)
        ensures
            event.is_root_failure() <==> outcome == Err::<(), ScanError>(ScanError::Unreachable),
            !event.is_root_failure() <==> outcome == Ok::<(), ScanError>(()),
            event.ranked() is None ==> *final(self) == *old(self),
            event.ranked() matches Some(file) ==> final(self).limit() == old(self).limit()
                && final(self).seen() == old(self).seen().push(file),
            event.ranked() matches Some(file) ==> is_selection(
                old(self).kept().insert(file),
                final(self).limit(),
                final(self).kept(),
            ),
            event.ranked() is Some ==> is_selection(
                final(self).seen().to_multiset(),
                final(self).limit(),
                final(self).kept(),
            ),
    {
        match event {
            WalkEvent::Entry(record) => {
                match record.into_file_info() {
                    Some(file) => self.offer(file),
                    None => {},
                }
                Ok(())
            },
            WalkEvent::Failure { depth } => {
                if depth == 0 {
                    Err(ScanError::Unreachable)
                } else {
                    Ok(())
                }
            },
        }
    }
}

/// Names the `n` largest files that a walk met, largest first.
///
/// Entries that are no regular files, or whose size could not be read, are
/// passed over, and so are failures below the root; a walk that met nothing
/// gives an empty result. Only a walk that failed at its root is an error.
/// At most `n + 1` files are held at any time, however long the walk is.
pub fn find_largest_files(events: Vec<WalkEvent>, n: u8) -> (result: Result<
    Vec<FileInfo>,
    ScanError,
>)
    ensures
        root_failed(events@) <==> result == Err::<Vec<FileInfo>, ScanError>(ScanError::Unreachable),
        !root_failed(events@) <==> result is Ok,
        result matches Ok(files) ==> is_top_k(ranked_files(events@), n as nat, files@),
        result matches Ok(files) ==> forall|i: int, j: int|
            0 <= i <= j < files@.len() ==> files@[i].size >= files@[j].size,
        result matches Ok(files) ==> files@.len() == at_most(
            n as nat,
            ranked_files(events@).len(),
        ),
        result matches Ok(files) ==> (n == 0 ==> files@.len() == 0),
        result matches Ok(files) ==> (n >= ranked_files(events@).len() ==> files@.to_multiset()
            == ranked_files(events@).to_multiset()),
{
    let ghost all = events@;
    let mut collector = TopK::new(n);
    for event in it: events
        invariant
            it.seq() == all,
            collector.limit() == n,
            collector.seen() == ranked_files(all.take(it.index() as int)),
            !root_failed(all.take(it.index() as int)),
    {
        proof {
            let met = all.take(it.index() + 1);
            assert(met.drop_last() =~= all.take(it.index() as int));
            assert(met.last() == event);
        }
        match collector.observe(event) {
            Ok(()) => {
                proof {
                    let met = all.take(it.index() + 1);
                    assert forall|i: int| 0 <= i < met.len() implies !(#[trigger] met[i]).is_root_failure() by {
                        if i < it.index() {
                            assert(all.take(it.index() as int)[i] == met[i]);
                        }
                    }
                }
            },
            Err(error) => {
                assert(all[it.index() as int].is_root_failure());
                return Err(error);
            },
        }
    }
    assert(all.take(all.len() as int) =~= all);
    let files = collector.into_sorted_vec();
    proof {
        lemma_top_k_bounds(ranked_files(all), n as nat, files@);
        assert forall|i: int, j: int| 0 <= i <= j < files@.len() implies files@[i].size
            >= files@[j].size by {
            assert(files@[i].le(&files@[j]));
        }
    }
    Ok(files)
}

/// Names the `n` processes that hold the most memory, the greediest first.
///
/// All of `list` is sorted and the result cut off after `n`: a machine runs
/// few enough processes for that.
pub fn processes<'a>(list: Vec<ProcessInfo<'a>>, n: u8) -> (result: Vec<ProcessInfo<'a>>)
    ensures
        is_top_k(list@, n as nat, result@),
        forall|i: int, j: int| 0 <= i <= j < result@.len() ==> result@[i].memory >= result@[j].memory,
        result@.len() == at_most(n as nat, list@.len()),
        n == 0 ==> result@.len() == 0,
        n >= list@.len() ==> result@.to_multiset() == list@.to_multiset(),
{
    let result = top_k_truncate(list, n);
    proof {
        assert forall|i: int, j: int| 0 <= i <= j < result@.len() implies result@[i].memory
            >= result@[j].memory by {
            assert(result@[i].le(&result@[j]));
        }
    }
    result
}

} // verus!
