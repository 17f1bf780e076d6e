//! Ranked items: a payload and a metric, placed so that the larger metric
//! comes first.
use crate::order::{Order, TotalOrder};
use vstd::prelude::*;

verus! {

/// `std::path::PathBuf`, an owned file-system path. The library carries a
/// path along with the file it names and never looks inside it.
#[verifier::external_type_specification]
#[verifier::external_body]
pub struct ExPathBuf(std::path::PathBuf);

/// Compares two metrics under the inverted order that ranks items: the
/// larger metric is placed first, so `Less` means that `a` exceeds `b`.
///
/// Anything arranged in ascending order by this comparison is therefore
/// arranged by descending metric.
pub fn compare_metrics(a: u64, b: u64) -> (o: Order)
    ensures
        o is Less <==> a > b,
        o is Equal <==> a == b,
        o is Greater <==> a < b,
{
    if a > b {
        Order::Less
    } else if a < b {
        Order::Greater
    } else {
        Order::Equal
    }
}

/// A file and its size in bytes. Files are ranked by size, largest first.
#[derive(Debug)]
pub struct FileInfo {
    pub path: std::path::PathBuf,
    pub size: u64,
}

impl TotalOrder for FileInfo {
    /// A file is placed no later than another when it is at least as large.
    open spec fn le(&self, other: &Self) -> bool {
        self.size >= other.size
    }

    proof fn lemma_total(a: &Self, b: &Self) {
    }

    proof fn lemma_transitive(a: &Self, b: &Self, c: &Self) {
    }

    fn compare(&self, other: &Self) -> (o: Order) {
        compare_metrics(self.size, other.size)
    }
}

/// A running process with its disk traffic and resident memory in bytes.
/// Processes are ranked by memory, largest first.
#[derive(Debug)]
pub struct ProcessInfo<'a> {
    pub name: &'a str,
    pub read_bytes: u64,
    pub written_bytes: u64,
    pub memory: u64,
    pub status: String,
}

impl<'a> TotalOrder for ProcessInfo<'a> {
    /// A process is placed no later than another when it holds at least as
    /// much memory.
    open spec fn le(&self, other: &Self) -> bool {
        self.memory >= other.memory
    }

    proof fn lemma_total(a: &Self, b: &Self) {
    }

    proof fn lemma_transitive(a: &Self, b: &Self, c: &Self) {
    }

    fn compare(&self, other: &Self) -> (o: Order) {
        compare_metrics(self.memory, other.memory)
    }
}

} // verus!
