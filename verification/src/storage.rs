//! Rows of the index database as the rest of the library sees them, and
//! the synthetic rows and figures of the storage benchmark.

use vstd::prelude::*;
use crate::models::NodeKind;
use crate::text::{decimal_string, push_str, spec_decimal, zero_pad, zero_padded};
use std::time::Duration;

verus! {

/// One indexed path as the index database hands it back.
#[derive(Debug, Clone)]
pub struct StoredNode {
    pub stable_id: Option<Vec<u8>>,
    pub display_path: String,
    pub display_name: String,
    pub kind: NodeKind,
    pub depth: usize,
    pub size_bytes: u64,
}

/// A directory that is queued for scanning, as it is persisted so that an
/// interrupted scan can resume.
#[derive(Debug, Clone)]
pub struct PendingDirectory {
    pub path_key: Vec<u8>,
    pub display_path: String,
    pub depth: usize,
    pub priority: i64,
}

} // verus!

verus! {

/// What the storage benchmark measured: rows stored, time spent inserting
/// and counting, and the database's page count and page size.
#[derive(Debug, Clone, Copy)]
pub struct StorageBenchmark {
    pub rows: usize,
    pub insert_elapsed: Duration,
    pub count_elapsed: Duration,
    pub page_count: i64,
    pub page_size: i64,
}

/// `a * b`, held at the nearest bound where it does not fit in an `i64`.
pub open spec fn saturated_product(a: i64, b: i64) -> i64 {
    let p = a * b;
    if p > i64::MAX { i64::MAX } else if p < i64::MIN { i64::MIN } else { p as i64 }
}

impl StorageBenchmark {
    /// The size of the database in bytes: pages times page size, held at
    /// the bounds of `i64`.
    pub fn sqlite_bytes(&self) -> (bytes: i64)
        ensures
            bytes == saturated_product(self.page_count, self.page_size),
    {
        match self.page_count.checked_mul(self.page_size) {
            Some(p) => p,
            None => {
                if (self.page_count < 0) == (self.page_size < 0) {
                    proof {
                        assert(self.page_count * self.page_size >= 0) by (nonlinear_arith)
                            requires
                                (self.page_count < 0) == (self.page_size < 0),
                        ;
                    }
                    i64::MAX
                } else {
                    proof {
                        assert(self.page_count * self.page_size <= 0) by (nonlinear_arith)
                            requires
                                (self.page_count < 0) != (self.page_size < 0),
                        ;
                    }
                    i64::MIN
                }
            },
        }
    }
}

/// One row of the synthetic benchmark table.
#[derive(Debug, Clone)]
pub struct SyntheticRow {
    pub id: i64,
    pub parent_id: Option<i64>,
    pub path: String,
    pub name: String,
    pub kind: i64,
    pub depth: i64,
    pub size_bytes: i64,
    pub modified_ns: i64,
}

/// The modification time of the first synthetic row, in nanoseconds.
pub open spec fn synthetic_epoch_ns() -> int {
    1_786_280_000_000_000_000
}

/// `r` is synthetic row `index`: ids count from one; every row but the
/// first hangs under the row of its group of sixty-four; rows sit in
/// modules of ten thousand; the first row of each group of sixty-four is a
/// directory, the others files.
pub open spec fn synthetic_row_is(r: SyntheticRow, index: nat) -> bool {
    &&& r.id == index + 1
    &&& r.parent_id == (if index > 0 { Some(((index - 1) / 64 + 1) as i64) } else { None })
    &&& r.path@ == "H:/synthetic/module_"@ + zero_pad(spec_decimal(index / 10_000), 4) + "/node_"@
        + zero_pad(spec_decimal(index), 9)
    &&& r.name@ == "node_"@ + zero_pad(spec_decimal(index), 9)
    &&& r.kind == (if index % 64 == 0 { 1int } else { 2int })
    &&& r.depth == (if index == 0 { 0int } else { 2int })
    &&& r.size_bytes == index % 1_048_576
    &&& r.modified_ns == synthetic_epoch_ns() + index
}

fn padded(n: usize, width: usize) -> (s: String)
    ensures
        s@ == zero_pad(spec_decimal(n as nat), width as nat),
{
    zero_padded(decimal_string(n as u128), width)
}

/// Synthetic row `index`; see `synthetic_row_is`.
pub fn synthetic_row(index: usize) -> (r: SyntheticRow)
    requires
        index + synthetic_epoch_ns() <= i64::MAX,
    ensures
        synthetic_row_is(r, index as nat),
{
    let digits = padded(index, 9);
    let mut path = String::from_str("H:/synthetic/module_");
    push_str(&mut path, padded(index / 10_000, 4).as_str());
    push_str(&mut path, "/node_");
    push_str(&mut path, digits.as_str());
    let mut name = String::from_str("node_");
    push_str(&mut name, digits.as_str());
    let i = index as i64;
    SyntheticRow {
        id: i + 1,
        parent_id: if index > 0 { Some(((index - 1) / 64 + 1) as i64) } else { None },
        path,
        name,
        kind: if index % 64 == 0 { 1 } else { 2 },
        depth: if index == 0 { 0 } else { 2 },
        size_bytes: (index % 1_048_576) as i64,
        modified_ns: 1_786_280_000_000_000_000 + i,
    }
}

} // verus!
