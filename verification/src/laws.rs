//! What holds of every run of a partition.
//!
//! A run is a partition and the files that its caller keeps, fed with the
//! records of an input one after the other. The caller is taken to do what
//! each answer of the partition says: to close, to open, to write the
//! header and the record, and to report each opening.

use crate::partition::{routed, PartitionState, Plan};
use crate::pool::{
    admitted, lemma_admitted_inv, lemma_enrol_inv, lemma_request_inv, request, LeaseView,
    PoolState,
};
use crate::record::Row;
use crate::template::lemma_render_injective;
use vstd::prelude::*;

verus! {

/// The files that a caller keeps, and its open handles.
pub struct World {
    /// The records of each file, by the file's name.
    pub files: Map<Seq<char>, Seq<Row>>,
    /// The open destinations, each with the name of the file it writes to.
    pub handles: Map<nat, Seq<char>>,
}

/// A partition together with the files of its caller.
pub struct Run {
    /// The partition.
    pub partition: PartitionState,
    /// The files and handles of the caller.
    pub world: World,
}

/// What a file starts with: the header record, if there is one.
pub open spec fn prelude(header: Option<Row>) -> Seq<Row> {
    match header {
        Some(header) => seq![header],
        None => Seq::empty(),
    }
}

/// The world after the caller has done what a lease says before writing:
/// the evicted destination is closed, and the destination of the lease is
/// open. A file opened to append keeps its records; another starts empty.
/// A header record, if the lease has one, is written first.
pub open spec fn opened(w: World, lease: LeaseView) -> World {
    match lease.opening {
        Some(opening) => {
            let handles = match opening.evicted {
                Some(evicted) => w.handles.remove(evicted),
                None => w.handles,
            };
            let kept = if opening.append && w.files.contains_key(opening.file_name) {
                w.files[opening.file_name]
            } else {
                Seq::empty()
            };
            World {
                files: w.files.insert(opening.file_name, kept + prelude(opening.header)),
                handles: handles.insert(lease.destination, opening.file_name),
            }
        },
        None => w,
    }
}

/// The world after a record has been written through the handle of the
/// destination `d`.
pub open spec fn wrote(w: World, d: nat, record: Row) -> World {
    let name = w.handles[d];
    World { files: w.files.insert(name, w.files[name].push(record)), ..w }
}

/// The run after one more record: the partition answers, the caller opens
/// the destination where the answer says so and reports that, and writes the
/// record. There is no such run where no identifier is left.
pub open spec fn fed(r: Run, row: Row) -> Option<Run> {
    match routed(r.partition, row) {
        Some((answer, partition)) => Some(
            Run {
                partition: if answer.lease.opening is Some {
                    PartitionState {
                        pool: admitted(partition.pool, answer.lease.destination),
                        ..partition
                    }
                } else {
                    partition
                },
                world: wrote(
                    opened(r.world, answer.lease),
                    answer.lease.destination,
                    answer.record,
                ),
            },
        ),
        None => None,
    }
}

/// The run after the records of an input, one after the other.
pub open spec fn ran(r: Run, rows: Seq<Row>) -> Option<Run>
    decreases rows.len(),
{
    if rows.len() == 0 {
        Some(r)
    } else {
        match ran(r, rows.drop_last()) {
            Some(mid) => fed(mid, rows.last()),
            None => None,
        }
    }
}

/// Whether a run is at its start: the partition has no destination, the
/// caller no open handle. Files may be there from before.
pub open spec fn at_start(r: Run) -> bool {
    &&& r.partition.pool.seen.len() == 0
    &&& r.partition.pool.resident.len() == 0
    &&& r.partition.pool.capacity >= 1
    &&& r.world.handles == Map::<nat, Seq<char>>::empty()
}

/// Whether a record has the key `key`.
pub open spec fn keyed(plan: Plan, key: Seq<u8>) -> spec_fn(Row) -> bool {
    |row: Row| plan.key_of(row) == key
}

/// The records of an input that have the key `key`, as they are written, in
/// the order of the input.
pub open spec fn written_for(plan: Plan, key: Seq<u8>, rows: Seq<Row>) -> Seq<Row> {
    rows.filter(keyed(plan, key)).map_values(|row: Row| plan.written(row))
}

/// What is written for a key after one more record.
proof fn lemma_written_push(plan: Plan, key: Seq<u8>, rows: Seq<Row>, row: Row)
    ensures
        written_for(plan, key, rows.push(row)) == if plan.key_of(row) == key {
            written_for(plan, key, rows).push(plan.written(row))
        } else {
            written_for(plan, key, rows)
        },
{
    reveal(Seq::filter);
    let more = rows.push(row);
    assert(more.drop_last() =~= rows);
    if plan.key_of(row) == key {
        assert(written_for(plan, key, more) =~= written_for(plan, key, rows).push(
            plan.written(row),
        ));
    }
}

/// Nothing is written for a key that no record has.
proof fn lemma_written_none(plan: Plan, key: Seq<u8>, rows: Seq<Row>)
    requires
        forall|i: int| 0 <= i < rows.len() ==> plan.key_of(#[trigger] rows[i]) != key,
    ensures
        written_for(plan, key, rows) == Seq::<Row>::empty(),
    decreases rows.len(),
{
    reveal(Seq::filter);
    if rows.len() > 0 {
        let before = rows.drop_last();
        assert forall|i: int| 0 <= i < before.len() implies plan.key_of(#[trigger] before[i])
            != key by {
            assert(before[i] == rows[i]);
        }
        lemma_written_none(plan, key, before);
    }
}

/// Two destinations of a pool in order have different file names.
pub proof fn lemma_file_names_differ(s: PoolState, a: int, b: int)
    requires
        s.inv(),
        0 <= a < s.seen.len(),
        0 <= b < s.seen.len(),
        a != b,
    ensures
        s.file_name(a) != s.file_name(b),
{
    if s.file_name(a) == s.file_name(b) {
        lemma_render_injective(s.prefix, s.suffix, s.seen[a].1, s.seen[b].1);
        if a < b {
            assert(s.seen[a].1 != s.seen[b].1);
        } else {
            assert(s.seen[b].1 != s.seen[a].1);
        }
    }
}

/// Whether the files and handles of a run are what its partition has on its
/// books, after the records `rows`.
pub open spec fn consistent(r: Run, rows: Seq<Row>) -> bool {
    let pool = r.partition.pool;
    let plan = r.partition.plan;
    &&& pool.inv()
    &&& forall|d: nat| #[trigger] r.world.handles.contains_key(d) <==> pool.resident.contains(d)
    &&& forall|d: nat| #[trigger]
        r.world.handles.contains_key(d) ==> r.world.handles[d] == pool.file_name(d as int)
    &&& forall|d: int|
        0 <= d < pool.seen.len() ==> r.world.files.contains_key(#[trigger] pool.file_name(d))
            && r.world.files[pool.file_name(d)] == prelude(pool.header) + written_for(
            plan,
            pool.seen[d].0,
            rows,
        )
    &&& forall|i: int| 0 <= i < rows.len() ==> pool.knows(plan.key_of(#[trigger] rows[i]))
}

/// One more record keeps a run consistent, and changes neither the plan nor
/// the settings of the pool.
proof fn lemma_fed(r: Run, rows: Seq<Row>, row: Row)
    requires
        consistent(r, rows),
        fed(r, row) is Some,
    ensures
        consistent(fed(r, row)->0, rows.push(row)),
        fed(r, row)->0.partition.plan == r.partition.plan,
        fed(r, row)->0.partition.pool.capacity == r.partition.pool.capacity,
        fed(r, row)->0.partition.pool.header == r.partition.pool.header,
{
    let plan = r.partition.plan;
    let pool = r.partition.pool;
    let key = plan.key_of(row);
    let more = rows.push(row);
    let end = fed(r, row)->0;
    let (lease, asked) = request(pool, key)->0;
    let d = lease.destination;
    let last = end.partition.pool;
    let w = r.world;
    let w1 = opened(w, lease);
    let w2 = end.world;
    let name = last.file_name(d as int);
    lemma_request_inv(pool, key);
    lemma_admitted_inv(asked, d);
    // The destinations that were there are there as they were.
    assert forall|c: int| 0 <= c < pool.seen.len() implies #[trigger] last.file_name(c)
        == pool.file_name(c) && last.seen[c] == pool.seen[c] by {}
    // Every key that had a destination keeps it, and the new key has one.
    assert forall|i: int| 0 <= i < more.len() implies last.knows(plan.key_of(#[trigger] more[i])) by {
        if i < rows.len() {
            let c = choose|c: int|
                0 <= c < pool.seen.len() && (#[trigger] pool.seen[c]).0 == plan.key_of(rows[i]);
            assert(last.seen[c].0 == plan.key_of(rows[i]));
        }
    }
    // The open handles are those of the destinations that the pool has as
    // open, and the handle of the record's destination writes to its file.
    if lease.opening is None {
        let i = pool.resident.index_of(d);
        assert(w.handles.contains_key(d));
        assert forall|c: nat| #[trigger] w2.handles.contains_key(c) <==> last.resident.contains(
            c,
        ) by {
            if w2.handles.contains_key(c) {
                let j = choose|j: int| 0 <= j < pool.resident.len() && pool.resident[j] == c;
                if j == i {
                    assert(last.resident[0] == c);
                } else if j < i {
                    assert(last.resident[j + 1] == c);
                } else {
                    assert(last.resident[j] == c);
                }
            }
        }
    } else {
        lemma_enrol_inv(pool, key);
        assert forall|c: nat| #[trigger] w2.handles.contains_key(c) <==> last.resident.contains(
            c,
        ) by {
            if w2.handles.contains_key(c) {
                if c == d {
                    assert(last.resident[0] == c);
                } else {
                    let j = choose|j: int| 0 <= j < pool.resident.len() && pool.resident[j] == c;
                    assert(last.resident[j + 1] == c);
                }
            }
        }
        if pool.knows(key) {
            // The file is there and keeps what it holds.
            assert(w1.files =~= w.files);
        } else {
            // No record before this one had the key: the file starts here.
            assert forall|i: int| 0 <= i < rows.len() implies plan.key_of(#[trigger] rows[i])
                != key by {}
            lemma_written_none(plan, key, rows);
        }
    }
    assert(w1.files[name] == prelude(pool.header) + written_for(plan, key, rows));
    assert forall|c: nat| #[trigger] w2.handles.contains_key(c) implies w2.handles[c]
        == last.file_name(c as int) by {
        if c != d {
            let j = choose|j: int| 0 <= j < pool.resident.len() && pool.resident[j] == c;
            assert(pool.resident[j] < pool.seen.len());
        }
    }
    // The record is added to the file of its key, and to no other file.
    assert forall|c: int| 0 <= c < last.seen.len() implies w2.files.contains_key(
        #[trigger] last.file_name(c),
    ) && w2.files[last.file_name(c)] == prelude(last.header) + written_for(
        plan,
        last.seen[c].0,
        more,
    ) by {
        lemma_written_push(plan, last.seen[c].0, rows, row);
        if c != d {
            lemma_file_names_differ(last, c, d as int);
            assert(last.seen[c].0 != last.seen[d as int].0);
        }
    }
}

/// A run from its start is consistent after any records.
proof fn lemma_ran(start: Run, rows: Seq<Row>)
    requires
        at_start(start),
        ran(start, rows) is Some,
    ensures
        consistent(ran(start, rows)->0, rows),
        ran(start, rows)->0.partition.plan == start.partition.plan,
        ran(start, rows)->0.partition.pool.capacity == start.partition.pool.capacity,
        ran(start, rows)->0.partition.pool.header == start.partition.pool.header,
    decreases rows.len(),
{
    if rows.len() == 0 {
        lemma_written_none(start.partition.plan, Seq::empty(), rows);
    } else {
        let mid = ran(start, rows.drop_last())->0;
        lemma_ran(start, rows.drop_last());
        lemma_fed(mid, rows.drop_last(), rows.last());
        assert(rows.drop_last().push(rows.last()) =~= rows);
    }
}

/// Whatever destinations were closed and opened again in between, the file
/// of each destination holds in the end the header record, where the
/// partition has one, and after it the records of the destination's key as
/// they are written, in the order of the input: those records, each once,
/// and nothing else. The header stands there once, at the start.
pub proof fn lemma_contents(start: Run, rows: Seq<Row>, d: int)
    requires
        at_start(start),
        ran(start, rows) is Some,
        0 <= d < ran(start, rows)->0.partition.pool.seen.len(),
    ensures
        ({
            let end = ran(start, rows)->0;
            let pool = end.partition.pool;
            &&& end.world.files.contains_key(pool.file_name(d))
            &&& end.world.files[pool.file_name(d)] == prelude(start.partition.pool.header)
                + written_for(start.partition.plan, pool.seen[d].0, rows)
        }),
{
    lemma_ran(start, rows);
}

/// Every record of the input has a file of its own key: the key has one
/// destination, and no other destination writes to the file of that one.
pub proof fn lemma_one_file_per_key(start: Run, rows: Seq<Row>, i: int, other: int)
    requires
        at_start(start),
        ran(start, rows) is Some,
        0 <= i < rows.len(),
        0 <= other < ran(start, rows)->0.partition.pool.seen.len(),
    ensures
        ({
            let pool = ran(start, rows)->0.partition.pool;
            let key = start.partition.plan.key_of(rows[i]);
            &&& pool.knows(key)
            &&& pool.number_of(key) < pool.seen.len()
            &&& pool.seen[pool.number_of(key) as int].0 == key
            &&& other != pool.number_of(key) ==> pool.seen[other].0 != key && pool.file_name(other)
                != pool.file_name(pool.number_of(key) as int)
        }),
{
    lemma_ran(start, rows);
    let pool = ran(start, rows)->0.partition.pool;
    let key = start.partition.plan.key_of(rows[i]);
    let c = pool.number_of(key) as int;
    assert(pool.knows(key));
    if other != c {
        lemma_file_names_differ(pool, other, c);
        if other < c {
            assert(pool.seen[other].0 != pool.seen[c].0);
        } else {
            assert(pool.seen[c].0 != pool.seen[other].0);
        }
    }
}

/// At no point of a run are more destinations open than the pool may keep
/// open: the caller's open handles are those of the destinations that the
/// pool has as open, and these are never more than its capacity.
pub proof fn lemma_open_bound(start: Run, rows: Seq<Row>)
    requires
        at_start(start),
        ran(start, rows) is Some,
    ensures
        ({
            let end = ran(start, rows)->0;
            &&& end.world.handles.dom() == end.partition.pool.resident.to_set()
            &&& end.world.handles.dom().finite()
            &&& end.world.handles.dom().len() == end.partition.pool.resident.len()
            &&& end.world.handles.dom().len() <= start.partition.pool.capacity
        }),
{
    lemma_ran(start, rows);
    let end = ran(start, rows)->0;
    let resident = end.partition.pool.resident;
    assert(end.world.handles.dom() =~= resident.to_set());
    vstd::seq_lib::seq_to_set_is_finite(resident);
    resident.unique_seq_to_set();
}

} // verus!
