//! The partition of a stream of records: each record goes to the
//! destination of its key.
//!
//! The caller reads the records and holds the open files. For each record
//! `Partition::route` says into which destination it goes, how to open that
//! destination if it is not open, and what to write.

use crate::error::PartitionError;
use crate::generator::WriterGenerator;
use crate::pool::{
    admissible, admitted, all_closed, empty_pool, request, Lease, LeaseView, PoolState, WriterPool,
};
use crate::record::{partition_key, project, projected, row_of, truncated, Row};
use crate::template::FilenameTemplate;
use vstd::prelude::*;

verus! {

/// The settings of a partition.
#[derive(Clone, Debug)]
pub struct Args {
    /// The number of destinations that may be open at a time.
    pub flag_max_open_files: usize,
    /// The template of the file names.
    pub flag_filename: FilenameTemplate,
    /// The number of bytes of a column value that make the key, if not all.
    pub flag_prefix_length: Option<usize>,
    /// Whether the key column is left out of what is written.
    pub flag_drop: bool,
    /// Whether the input has no header record.
    pub flag_no_headers: bool,
}

/// How records are keyed and written, as mathematics.
pub struct Plan {
    /// The place of the key column in a record.
    pub key_col: nat,
    /// The number of bytes of a column value that make the key, if not all.
    pub prefix_length: Option<usize>,
    /// Whether the key column is left out of what is written.
    pub drop: bool,
}

impl Plan {
    /// The key of a record.
    pub open spec fn key_of(self, row: Row) -> Seq<u8> {
        truncated(row[self.key_col as int], self.prefix_length)
    }

    /// The record as it is written.
    pub open spec fn written(self, row: Row) -> Row {
        projected(row, self.key_col as int, self.drop)
    }
}

/// A running partition, as mathematics.
pub struct PartitionState {
    /// How records are keyed and written.
    pub plan: Plan,
    /// The books of the destinations.
    pub pool: PoolState,
}

/// What is to be done with a record, as mathematics.
pub struct RoutedView {
    /// How to hold the open destination of the record.
    pub lease: LeaseView,
    /// What to write into it.
    pub record: Row,
}

/// What is to be done with a record.
#[derive(Debug)]
pub struct Routed {
    /// How to hold the open destination of the record.
    pub lease: Lease,
    /// What to write into it.
    pub record: Vec<Vec<u8>>,
}

impl View for Routed {
    type V = RoutedView;

    open spec fn view(&self) -> RoutedView {
        RoutedView { lease: self.lease@, record: row_of(self.record@) }
    }
}

/// What a partition answers a record with, and its state after: the pool is
/// asked for the destination of the record's key, and the record is written
/// as the plan says. Nothing is returned where no identifier is left for a
/// new key.
pub open spec fn routed(s: PartitionState, row: Row) -> Option<(RoutedView, PartitionState)> {
    match request(s.pool, s.plan.key_of(row)) {
        Some((lease, pool)) => Some(
            (RoutedView { lease, record: s.plan.written(row) }, PartitionState { pool, ..s }),
        ),
        None => None,
    }
}

/// A running partition.
pub struct Partition {
    pool: WriterPool,
    key_col: usize,
    prefix_length: Option<usize>,
    flag_drop: bool,
}

impl View for Partition {
    type V = PartitionState;

    closed spec fn view(&self) -> PartitionState {
        PartitionState {
            plan: Plan {
                key_col: self.key_col as nat,
                prefix_length: self.prefix_length,
                drop: self.flag_drop,
            },
            pool: self.pool@,
        }
    }
}

impl Args {
    /// The column to partition on: the one that the selection names. A
    /// selection of no column or of several is refused.
    pub fn key_column(&self, selection: &Vec<usize>) -> (column: Result<usize, PartitionError>)
        ensures
            match column {
                Ok(col) => selection@.len() == 1 && col == selection@[0],
                Err(e) => selection@.len() != 1 && e == PartitionError::KeyColumnCount,
            },
    {
        if selection.len() == 1 {
            Ok(selection[0])
        } else {
            Err(PartitionError::KeyColumnCount)
        }
    }

    /// The header record that each new destination starts with: none where
    /// the input has none, else the input's header as a record is written.
    pub open spec fn header(self, headers: Row, key_col: nat) -> Option<Row> {
        if self.flag_no_headers {
            None
        } else {
            Some(projected(headers, key_col as int, self.flag_drop))
        }
    }

    /// Begins a partition of records with the given header on the given key
    /// column: no destination exists yet. It is refused where no destination
    /// may be open, and fails where the regex engine does not take the
    /// pattern of the characters to strip from keys.
    pub fn sequential_partition(self, headers: Vec<Vec<u8>>, key_col: usize) -> (begun: Result<
        Partition,
        PartitionError,
    >)
        ensures
            match begun {
                Ok(partition) => {
                    &&& self.flag_max_open_files >= 1
                    &&& partition.wf()
                    &&& partition@.plan == Plan {
                        key_col: key_col as nat,
                        prefix_length: self.flag_prefix_length,
                        drop: self.flag_drop,
                    }
                    &&& partition@.pool == empty_pool(
                        WriterGenerator::initial(),
                        self.flag_max_open_files as nat,
                        self.flag_filename.prefix@,
                        self.flag_filename.suffix@,
                        self.header(row_of(headers@), key_col as nat),
                    )
                },
                Err(e) => if self.flag_max_open_files == 0 {
                    e == PartitionError::NoCapacity
                } else {
                    e == PartitionError::Pattern
                },
            },
    {
        if self.flag_max_open_files == 0 {
            return Err(PartitionError::NoCapacity);
        }
        let gen = match WriterGenerator::new(self.flag_filename) {
            Ok(gen) => gen,
            Err(e) => {
                return Err(e);
            },
        };
        match WriterPool::new(
            gen,
            self.flag_max_open_files,
            headers,
            key_col,
            self.flag_drop,
            self.flag_no_headers,
        ) {
            Ok(pool) => Ok(
                Partition {
                    pool,
                    key_col,
                    prefix_length: self.flag_prefix_length,
                    flag_drop: self.flag_drop,
                },
            ),
            Err(e) => Err(e),
        }
    }
}

impl Partition {
    /// Whether the books of the partition are in order.
    pub closed spec fn wf(&self) -> bool {
        self.pool.wf()
    }

    /// The number of destinations created so far.
    pub fn destinations(&self) -> (n: usize)
        ensures
            n == self@.pool.seen.len(),
    {
        self.pool.destinations()
    }

    /// The number of destinations that are open.
    pub fn open_count(&self) -> (n: usize)
        ensures
            n == self@.pool.resident.len(),
    {
        self.pool.open_count()
    }

    /// What is to be done with a record: into which destination it goes, how
    /// to open that destination if it is not open, and what to write. The
    /// record must have the key column. Where no identifier is left for a
    /// new key, the partition stays as it was.
    pub fn route(&mut self, row: &Vec<Vec<u8>>) -> (answer: Result<Routed, PartitionError>)
        requires
            old(self).wf(),
            old(self)@.plan.key_col < row@.len(),
        ensures
            final(self).wf(),
            match answer {
                Ok(answer) => routed(old(self)@, row_of(row@)) == Some((answer@, final(self)@)),
                Err(e) => e == PartitionError::IdentifiersExhausted && routed(
                    old(self)@,
                    row_of(row@),
                ) is None && final(self)@ == old(self)@,
            },
    {
        // Decide what file to put this in.
        let key = partition_key(row[self.key_col].as_slice(), self.prefix_length);
        match self.pool.writer(key) {
            Ok(lease) => {
                let record = project(row, self.key_col, self.flag_drop);
                Ok(Routed { lease, record })
            },
            Err(e) => Err(e),
        }
    }

    /// Tells the partition that the caller has opened a destination. Returns
    /// whether the destination was taken among the open ones.
    pub fn opened(&mut self, destination: usize) -> (taken: bool)
        requires
            old(self).wf(),
        ensures
            final(self).wf(),
            taken == admissible(old(self)@.pool, destination as nat),
            final(self)@ == (PartitionState {
                pool: admitted(old(self)@.pool, destination as nat),
                ..old(self)@
            }),
    {
        self.pool.opened(destination)
    }

    /// The open destinations, for the caller to flush and close at the end
    /// of the input: the least recently used first. None is open after.
    pub fn finish(&mut self) -> (closed: Vec<usize>)
        requires
            old(self).wf(),
        ensures
            final(self).wf(),
            final(self)@ == (PartitionState { pool: all_closed(old(self)@.pool), ..old(self)@ }),
            closed@.map_values(|d: usize| d as nat) == old(self)@.pool.resident.reverse(),
    {
        self.pool.close_all()
    }
}

} // verus!
