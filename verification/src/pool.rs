//! The pool of open destinations: at most a fixed number of them at a time,
//! the least recently used one giving way to a new one.
//!
//! The pool opens nothing itself. For each key it says what its caller has
//! to do to hold the open destination of that key, and it keeps the books:
//! which keys have a destination, under which identifier, and which
//! destinations are open.

use crate::cache::{
    first_at, holds_key, lru_capacity, lru_contains, lru_entries, lru_get, lru_len, lru_new,
    lru_pop_lru, lru_put, promoted, Entry, Residents,
};
use crate::error::PartitionError;
use crate::generator::{issue, lemma_issue_fresh, GeneratorState, WriterGenerator};
use crate::index::KeyIndex;
use crate::record::{project, projected, row_of, Row};
use crate::sanitize::base_of;
use crate::template::render;
use vstd::prelude::*;
use vstd::slice::slice_to_vec;

verus! {

/// How a destination is to be opened, as mathematics.
pub struct OpeningView {
    /// The name of its file.
    pub file_name: Seq<char>,
    /// Whether the file is kept and written on at its end.
    pub append: bool,
    /// The header record to write first, if any.
    pub header: Option<Row>,
    /// The destination to flush and close before.
    pub evicted: Option<nat>,
}

/// What a caller has to do for a key, as mathematics.
pub struct LeaseView {
    /// The number of the key's destination.
    pub destination: nat,
    /// How to open it, where it is not open.
    pub opening: Option<OpeningView>,
}

/// How a destination is to be opened.
#[derive(Debug)]
pub struct Opening {
    /// The name of its file.
    pub file_name: String,
    /// Whether the file is kept and written on at its end. Otherwise it is
    /// created, or emptied if it is there.
    pub append: bool,
    /// The header record to write first, if any.
    pub header: Option<Vec<Vec<u8>>>,
    /// The destination to flush and close before this one is opened.
    pub evicted: Option<usize>,
}

/// What a caller has to do to hold the open destination of a key.
#[derive(Debug)]
pub struct Lease {
    /// The number of the key's destination.
    pub destination: usize,
    /// How to open it. `None` where it is open.
    pub opening: Option<Opening>,
}

impl View for Opening {
    type V = OpeningView;

    open spec fn view(&self) -> OpeningView {
        OpeningView {
            file_name: self.file_name@,
            append: self.append,
            header: match self.header {
                Some(header) => Some(row_of(header@)),
                None => None,
            },
            evicted: match self.evicted {
                Some(d) => Some(d as nat),
                None => None,
            },
        }
    }
}

impl View for Lease {
    type V = LeaseView;

    open spec fn view(&self) -> LeaseView {
        LeaseView {
            destination: self.destination as nat,
            opening: match self.opening {
                Some(opening) => Some(opening@),
                None => None,
            },
        }
    }
}

/// What a pool remembers, as mathematics.
pub struct PoolState {
    /// Every destination ever created, in the order of creation: its key and
    /// its identifier. The place of a destination here is its number.
    pub seen: Seq<(Seq<u8>, Seq<char>)>,
    /// The state of the identifier generator.
    pub gen: GeneratorState,
    /// The numbers of the open destinations, the most recently used first.
    pub resident: Seq<nat>,
    /// The number of destinations that may be open at a time.
    pub capacity: nat,
    /// The file name template's text before the identifier.
    pub prefix: Seq<char>,
    /// The file name template's text after the identifier.
    pub suffix: Seq<char>,
    /// The header record that a new destination starts with, if any.
    pub header: Option<Row>,
}

/// The open destinations after `d`, one of them, has been used.
pub open spec fn touched(resident: Seq<nat>, d: nat) -> Seq<nat> {
    seq![d] + resident.remove(resident.index_of(d))
}

impl PoolState {
    /// Whether the key has a destination.
    pub open spec fn knows(self, key: Seq<u8>) -> bool {
        exists|d: int| 0 <= d < self.seen.len() && (#[trigger] self.seen[d]).0 == key
    }

    /// The number of the key's destination.
    pub open spec fn number_of(self, key: Seq<u8>) -> nat {
        (choose|d: int| 0 <= d < self.seen.len() && (#[trigger] self.seen[d]).0 == key) as nat
    }

    /// Whether the key's destination is open.
    pub open spec fn is_resident(self, key: Seq<u8>) -> bool {
        self.knows(key) && self.resident.contains(self.number_of(key))
    }

    /// The file name of the destination with the number `d`.
    pub open spec fn file_name(self, d: int) -> Seq<char> {
        render(self.prefix, self.suffix, self.seen[d].1)
    }

    /// What holds of every state that a pool reaches: no more destinations
    /// are open than may be, each open one exists and is listed once, no two
    /// destinations share a key or an identifier, and the generator has
    /// every identifier on its books.
    pub open spec fn inv(self) -> bool {
        &&& self.capacity >= 1
        &&& self.resident.len() <= self.capacity
        &&& self.resident.no_duplicates()
        &&& forall|i: int|
            0 <= i < self.resident.len() ==> #[trigger] self.resident[i] < self.seen.len()
        &&& forall|a: int, b: int|
            0 <= a < b < self.seen.len() ==> (#[trigger] self.seen[a]).0 != (
            #[trigger] self.seen[b]).0
        &&& forall|a: int, b: int|
            0 <= a < b < self.seen.len() ==> (#[trigger] self.seen[a]).1 != (
            #[trigger] self.seen[b]).1
        &&& forall|a: int|
            0 <= a < self.seen.len() ==> self.gen.used.contains((#[trigger] self.seen[a]).1)
    }
}

/// The state of a pool that has created no destination.
pub open spec fn empty_pool(
    gen: GeneratorState,
    capacity: nat,
    prefix: Seq<char>,
    suffix: Seq<char>,
    header: Option<Row>,
) -> PoolState {
    PoolState { seen: Seq::empty(), gen, resident: Seq::empty(), capacity, prefix, suffix, header }
}

/// How the destination of a key that is not open is opened, and the state
/// once the key has its destination. A key that has one is opened to append,
/// under the identifier it has. A new key gets the next destination, with a
/// fresh identifier; its file is created and starts with the header.
/// Nothing is returned where no identifier is left.
pub open spec fn enrol(s: PoolState, key: Seq<u8>) -> Option<(LeaseView, PoolState)> {
    if s.knows(key) {
        let d = s.number_of(key);
        Some(
            (
                LeaseView {
                    destination: d,
                    opening: Some(
                        OpeningView {
                            file_name: s.file_name(d as int),
                            append: true,
                            header: None,
                            evicted: None,
                        },
                    ),
                },
                s,
            ),
        )
    } else {
        match issue(s.gen, base_of(key)) {
            (Some(id), gen) => Some(
                (
                    LeaseView {
                        destination: s.seen.len(),
                        opening: Some(
                            OpeningView {
                                file_name: render(s.prefix, s.suffix, id),
                                append: false,
                                header: s.header,
                                evicted: None,
                            },
                        ),
                    },
                    PoolState { seen: s.seen.push((key, id)), gen, ..s },
                ),
            ),
            (None, _) => None,
        }
    }
}

/// What a pool answers a request for a key with, and its state after. For a
/// key whose destination is open, the destination becomes the most recently
/// used. For another key the destination is to be opened as `enrol` says,
/// and where as many destinations are open as may be, the least recently
/// used of them leaves first. The destination asked for is not open yet:
/// it is once `opened` has been told so.
pub open spec fn request(s: PoolState, key: Seq<u8>) -> Option<(LeaseView, PoolState)> {
    if s.is_resident(key) {
        let d = s.number_of(key);
        Some(
            (
                LeaseView { destination: d, opening: None },
                PoolState { resident: touched(s.resident, d), ..s },
            ),
        )
    } else {
        match enrol(s, key) {
            Some((lease, known)) => {
                let full = known.resident.len() >= known.capacity;
                Some(
                    (
                        LeaseView {
                            destination: lease.destination,
                            opening: Some(
                                OpeningView {
                                    evicted: if full {
                                        Some(known.resident.last())
                                    } else {
                                        None
                                    },
                                    ..lease.opening->0
                                },
                            ),
                        },
                        PoolState {
                            resident: if full {
                                known.resident.drop_last()
                            } else {
                                known.resident
                            },
                            ..known
                        },
                    ),
                )
            },
            None => None,
        }
    }
}

/// Whether the destination `d` can be taken among the open ones: it exists,
/// is not open, and one more may be open.
pub open spec fn admissible(s: PoolState, d: nat) -> bool {
    d < s.seen.len() && !s.resident.contains(d) && s.resident.len() < s.capacity
}

/// The state after the destination `d` has been opened: it is the most
/// recently used of the open ones. Nothing changes where it cannot be taken.
pub open spec fn admitted(s: PoolState, d: nat) -> PoolState {
    if admissible(s, d) {
        PoolState { resident: seq![d] + s.resident, ..s }
    } else {
        s
    }
}

/// Every state that a request leaves is in order if the state before was,
/// and no destination changes its key or its identifier: the only change to
/// the destinations is that one may be added.
pub proof fn lemma_request_inv(s: PoolState, key: Seq<u8>)
    requires
        s.inv(),
    ensures
        match request(s, key) {
            Some((lease, t)) => {
                &&& t.inv()
                &&& t.knows(key)
                &&& lease.destination == t.number_of(key)
                &&& lease.destination < t.seen.len()
                &&& s.seen.len() <= t.seen.len() <= s.seen.len() + 1
                &&& t.seen.subrange(0, s.seen.len() as int) == s.seen
                &&& t.capacity == s.capacity && t.prefix == s.prefix && t.suffix == s.suffix
                    && t.header == s.header
                &&& lease.opening is None <==> s.is_resident(key)
                &&& lease.opening is Some ==> admissible(t, lease.destination)
            },
            None => true,
        },
{
    if s.is_resident(key) {
        let d = s.number_of(key);
        let i = s.resident.index_of(d);
        let t = request(s, key).unwrap().1;
        assert(s.resident[i] == d);
        assert(t.seen.subrange(0, s.seen.len() as int) =~= s.seen);
        assert forall|j: int| 0 <= j < t.resident.len() implies #[trigger] t.resident[j]
            < t.seen.len() by {
            if j == 0 {
            } else if j <= i {
                assert(t.resident[j] == s.resident[j - 1]);
            } else {
                assert(t.resident[j] == s.resident[j]);
            }
        }
        assert forall|a: int, b: int|
            0 <= a < t.resident.len() && 0 <= b < t.resident.len() && a != b implies t.resident[a]
            != t.resident[b] by {
            let oa = if a == 0 {
                i
            } else if a <= i {
                a - 1
            } else {
                a
            };
            let ob = if b == 0 {
                i
            } else if b <= i {
                b - 1
            } else {
                b
            };
            assert(t.resident[a] == s.resident[oa]);
            assert(t.resident[b] == s.resident[ob]);
        }
    } else {
        lemma_enrol_inv(s, key);
        if enrol(s, key) is Some {
            let (lease, known) = enrol(s, key)->0;
            let t = request(s, key).unwrap().1;
            let d = lease.destination;
            assert(t.seen == known.seen);
            assert(!known.resident.contains(d)) by {
                if known.resident.contains(d) {
                    assert(s.knows(key));
                }
            }
            if known.resident.len() >= known.capacity {
                assert forall|a: int, b: int|
                    0 <= a < t.resident.len() && 0 <= b < t.resident.len() && a
                        != b implies t.resident[a] != t.resident[b] by {
                    assert(t.resident[a] == known.resident[a]);
                    assert(t.resident[b] == known.resident[b]);
                }
                assert forall|j: int| 0 <= j < t.resident.len() implies #[trigger] t.resident[j]
                    < t.seen.len() by {
                    assert(t.resident[j] == known.resident[j]);
                }
                assert(!t.resident.contains(d)) by {
                    if t.resident.contains(d) {
                        let j = choose|j: int| 0 <= j < t.resident.len() && t.resident[j] == d;
                        assert(known.resident[j] == d);
                    }
                }
            }
        }
    }
}

/// What `lemma_request_inv` says of a request, for `enrol`.
pub proof fn lemma_enrol_inv(s: PoolState, key: Seq<u8>)
    requires
        s.inv(),
    ensures
        match enrol(s, key) {
            Some((lease, t)) => {
                &&& t.inv()
                &&& t.knows(key)
                &&& lease.destination == t.number_of(key)
                &&& lease.destination < t.seen.len()
                &&& t.seen[lease.destination as int].0 == key
                &&& s.seen.len() <= t.seen.len() <= s.seen.len() + 1
                &&& t.seen.subrange(0, s.seen.len() as int) == s.seen
                &&& t.resident == s.resident
                &&& t.capacity == s.capacity && t.prefix == s.prefix && t.suffix == s.suffix
                    && t.header == s.header
                &&& lease.opening is Some
                &&& s.knows(key) ==> t == s && lease.destination == s.number_of(key)
                &&& !s.knows(key) ==> lease.destination == s.seen.len() && t.seen == s.seen.push(
                    (key, t.seen[s.seen.len() as int].1),
                ) && !s.gen.used.contains(t.seen[s.seen.len() as int].1)
            },
            None => !s.knows(key),
        },
{
    if s.knows(key) {
        assert(s.seen.subrange(0, s.seen.len() as int) =~= s.seen);
    } else {
        lemma_issue_fresh(s.gen, base_of(key));
        if enrol(s, key) is Some {
            let (lease, t) = enrol(s, key)->0;
            let d = s.seen.len() as int;
            let id = t.seen[d].1;
            assert(t.seen.subrange(0, d) =~= s.seen);
            assert(t.seen[d].0 == key);
            assert(t.knows(key));
            assert forall|a: int, b: int| 0 <= a < b < t.seen.len() implies (#[trigger] t.seen[a]).0
                != (#[trigger] t.seen[b]).0 by {
                if b < d {
                    assert(s.seen[a].0 != s.seen[b].0);
                } else {
                    assert(s.seen[a].0 != key);
                }
            }
            assert forall|a: int, b: int| 0 <= a < b < t.seen.len() implies (#[trigger] t.seen[a]).1
                != (#[trigger] t.seen[b]).1 by {
                if b < d {
                    assert(s.seen[a].1 != s.seen[b].1);
                } else {
                    assert(s.gen.used.contains(s.seen[a].1));
                }
            }
            assert forall|a: int| 0 <= a < t.seen.len() implies t.gen.used.contains(
                (#[trigger] t.seen[a]).1,
            ) by {
                if a < d {
                    assert(s.gen.used.contains(s.seen[a].1));
                }
            }
            assert forall|j: int| 0 <= j < t.resident.len() implies #[trigger] t.resident[j]
                < t.seen.len() by {
                assert(s.resident[j] < s.seen.len());
            }
            let c = t.number_of(key) as int;
            assert(t.seen[c].0 == key);
            if c < d {
                assert(s.seen[c].0 == key);
            }
        }
    }
}

/// A key keeps its destination, and a destination its identifier and with
/// it its file name, whatever is asked of the pool after.
pub proof fn lemma_destinations_stay(s: PoolState, key: Seq<u8>, asked: Seq<u8>)
    requires
        s.inv(),
        s.knows(key),
        request(s, asked) is Some,
    ensures
        ({
            let t = request(s, asked).unwrap().1;
            &&& t.knows(key)
            &&& t.number_of(key) == s.number_of(key)
            &&& t.seen[t.number_of(key) as int] == s.seen[s.number_of(key) as int]
            &&& t.file_name(t.number_of(key) as int) == s.file_name(s.number_of(key) as int)
        }),
{
    let t = request(s, asked).unwrap().1;
    let d = s.number_of(key) as int;
    lemma_request_inv(s, asked);
    assert(s.seen[d].0 == key);
    assert(t.seen.subrange(0, s.seen.len() as int)[d] == t.seen[d]);
    assert(t.seen[d].0 == key);
    let c = t.number_of(key) as int;
    assert(t.seen[c].0 == key);
    if c < d {
        assert(t.seen[c].0 != t.seen[d].0);
    } else if d < c {
        assert(t.seen[d].0 != t.seen[c].0);
    }
}

/// A header is written only into a file that is created, and a file is
/// created only for a key that has no destination: an opening appends for a
/// key that has one, and has no header then; else it has the header of the
/// pool. For a key whose destination is open nothing is opened.
pub proof fn lemma_header_on_create(s: PoolState, key: Seq<u8>)
    ensures
        match request(s, key) {
            Some((lease, _)) => match lease.opening {
                Some(opening) => !s.is_resident(key) && opening.append == s.knows(key)
                    && opening.header == if opening.append {
                    None
                } else {
                    s.header
                },
                None => s.is_resident(key),
            },
            None => !s.knows(key),
        },
{
}

/// A state stays in order when a destination is taken among the open ones.
pub proof fn lemma_admitted_inv(s: PoolState, d: nat)
    requires
        s.inv(),
    ensures
        admitted(s, d).inv(),
        admitted(s, d).seen == s.seen,
{
    if admissible(s, d) {
        let t = admitted(s, d);
        assert forall|a: int, b: int|
            0 <= a < t.resident.len() && 0 <= b < t.resident.len() && a != b implies t.resident[a]
            != t.resident[b] by {
            if a > 0 {
                assert(t.resident[a] == s.resident[a - 1]);
            }
            if b > 0 {
                assert(t.resident[b] == s.resident[b - 1]);
            }
        }
        assert forall|j: int| 0 <= j < t.resident.len() implies #[trigger] t.resident[j]
            < t.seen.len() by {
            if j > 0 {
                assert(t.resident[j] == s.resident[j - 1]);
            }
        }
    }
}

/// A destination on the books of a pool.
struct Destination {
    key: Vec<u8>,
    identifier: String,
}

/// Whether every entry of the cache names the destination of its key.
spec fn agree(entries: Seq<Entry>, seen: Seq<Destination>) -> bool {
    forall|i: int|
        0 <= i < entries.len() ==> (#[trigger] entries[i]).1 < seen.len() && seen[entries[i].1 as int].key@
            == entries[i].0
}

/// Whether the index gives each key of a destination the number of that
/// destination, and no other key a number.
spec fn indexed(index: Map<Seq<u8>, usize>, seen: Seq<Destination>) -> bool {
    &&& forall|d: int|
        0 <= d < seen.len() ==> index.contains_key((#[trigger] seen[d]).key@)
            && index[seen[d].key@] == d
    &&& forall|key: Seq<u8>| #[trigger]
        index.contains_key(key) ==> index[key] < seen.len() && seen[index[key] as int].key@ == key
}

/// The numbers of the destinations that the entries name.
spec fn numbers(entries: Seq<Entry>) -> Seq<nat> {
    entries.map_values(|e: Entry| e.1 as nat)
}

/// The keys and identifiers of the destinations.
spec fn books(seen: Seq<Destination>) -> Seq<(Seq<u8>, Seq<char>)> {
    seen.map_values(|d: Destination| (d.key@, d.identifier@))
}

/// The state after every open destination has been closed.
pub open spec fn all_closed(s: PoolState) -> PoolState {
    PoolState { resident: Seq::empty(), ..s }
}

/// Keeps the books of the open destinations.
pub struct WriterPool {
    seen: Vec<Destination>,
    index: KeyIndex,
    gen: WriterGenerator,
    writers: Residents,
    capacity: usize,
    headers: Vec<Vec<u8>>,
    key_col: usize,
    flag_drop: bool,
    no_headers: bool,
}

impl View for WriterPool {
    type V = PoolState;

    closed spec fn view(&self) -> PoolState {
        PoolState {
            seen: books(self.seen@),
            gen: self.gen@,
            resident: numbers(lru_entries(self.writers)),
            capacity: self.capacity as nat,
            prefix: self.gen.template().prefix@,
            suffix: self.gen.template().suffix@,
            header: if self.no_headers {
                None
            } else {
                Some(projected(row_of(self.headers@), self.key_col as int, self.flag_drop))
            },
        }
    }
}

impl WriterPool {
    /// Whether the books of the pool are in order.
    pub closed spec fn wf(&self) -> bool {
        &&& self.gen.wf()
        &&& lru_capacity(self.writers) == self.capacity
        &&& agree(lru_entries(self.writers), self.seen@)
        &&& indexed(self.index@, self.seen@)
        &&& self@.inv()
    }

    /// A pool that has created no destination, for at most `capacity` open
    /// ones. A pool for none is refused.
    pub fn new(
        gen: WriterGenerator,
        capacity: usize,
        headers: Vec<Vec<u8>>,
        key_col: usize,
        flag_drop: bool,
        no_headers: bool,
    ) -> (made: Result<WriterPool, PartitionError>)
        requires
            gen.wf(),
        ensures
            match made {
                Ok(pool) => capacity >= 1 && pool.wf() && pool@ == empty_pool(
                    gen@,
                    capacity as nat,
                    gen.template().prefix@,
                    gen.template().suffix@,
                    if no_headers {
                        None
                    } else {
                        Some(projected(row_of(headers@), key_col as int, flag_drop))
                    },
                ),
                Err(e) => capacity == 0 && e == PartitionError::NoCapacity,
            },
    {
        if capacity == 0 {
            return Err(PartitionError::NoCapacity);
        }
        let pool = WriterPool {
            seen: Vec::new(),
            index: KeyIndex::new(),
            gen,
            writers: lru_new(capacity),
            capacity,
            headers,
            key_col,
            flag_drop,
            no_headers,
        };
        assert(pool@.seen =~= Seq::empty());
        assert(pool@.resident =~= Seq::empty());
        Ok(pool)
    }

    /// The number of destinations created so far.
    pub fn destinations(&self) -> (n: usize)
        ensures
            n == self@.seen.len(),
    {
        self.seen.len()
    }

    /// The number of destinations that are open.
    pub fn open_count(&self) -> (n: usize)
        ensures
            n == self@.resident.len(),
    {
        lru_len(&self.writers)
    }

    /// The number of the destination of a key, if the key has one.
    fn find(&self, key: &[u8]) -> (found: Option<usize>)
        requires
            self.wf(),
        ensures
            match found {
                Some(d) => self@.knows(key@) && d == self@.number_of(key@),
                None => !self@.knows(key@),
            },
    {
        let found = self.index.get(key);
        proof {
            let s = self@;
            if self.index@.contains_key(key@) {
                let d = self.index@[key@] as int;
                assert(s.seen[d].0 == key@);
                let c = s.number_of(key@) as int;
                assert(s.seen[c].0 == key@);
                assert(self.seen@[c].key@ == key@);
            } else if s.knows(key@) {
                let c = s.number_of(key@) as int;
                assert(s.seen[c].0 == key@);
                assert(self.seen@[c].key@ == key@);
            }
        }
        found
    }

    /// A key that the cache holds has an open destination, and the other way
    /// round; its entry is the only one with that key.
    proof fn lemma_resident(&self, key: Seq<u8>)
        requires
            self.wf(),
        ensures
            holds_key(lru_entries(self.writers), key) == self@.is_resident(key),
            holds_key(lru_entries(self.writers), key) ==> {
                let i = self@.resident.index_of(self@.number_of(key));
                &&& first_at(lru_entries(self.writers), key, i)
                &&& lru_entries(self.writers)[i].1 == self@.number_of(key)
            },
    {
        let entries = lru_entries(self.writers);
        let s = self@;
        if holds_key(entries, key) {
            let i = choose|i: int| 0 <= i < entries.len() && (#[trigger] entries[i]).0 == key;
            let d = entries[i].1 as int;
            assert(s.seen[d].0 == key);
            let c = s.number_of(key) as int;
            assert(s.seen[c].0 == key);
            assert(self.seen@[c].key@ == self.seen@[d].key@);
            assert(s.resident[i] == d);
            let k = s.resident.index_of(d as nat);
            assert(s.resident[k] == d);
            assert forall|j: int| 0 <= j < i implies (#[trigger] entries[j]).0 != key by {
                if entries[j].0 == key {
                    let dj = entries[j].1 as int;
                    assert(self.seen@[dj].key@ == self.seen@[d].key@);
                    assert(s.resident[j] == s.resident[i]);
                }
            }
        }
        if s.is_resident(key) {
            let c = s.number_of(key);
            assert(s.seen[c as int].0 == key);
            let i = choose|i: int| 0 <= i < s.resident.len() && s.resident[i] == c;
            assert(entries[i].1 == c);
        }
    }

    /// The entries of the cache still name the destinations of their keys
    /// when each of them was an entry before.
    proof fn lemma_agree(now: Seq<Entry>, before: Seq<Entry>, seen: Seq<Destination>)
        requires
            agree(before, seen),
            forall|j: int| 0 <= j < now.len() ==> before.contains(#[trigger] now[j]),
        ensures
            agree(now, seen),
    {
        assert forall|j: int| 0 <= j < now.len() implies (#[trigger] now[j]).1 < seen.len()
            && seen[now[j].1 as int].key@ == now[j].0 by {
            let i = choose|i: int| 0 <= i < before.len() && before[i] == now[j];
            assert(before[i].1 < seen.len());
        }
    }

    /// The number of the destination of a key that is not open, and how it
    /// is opened. The key gets its destination, with a fresh identifier, if
    /// it has none.
    fn new_writer(&mut self, key: &[u8]) -> (planned: Result<(usize, Opening), PartitionError>)
        requires
            old(self).wf(),
        ensures
            final(self).wf(),
            final(self).writers == old(self).writers,
            match planned {
                Ok((destination, opening)) => enrol(old(self)@, key@) == Some(
                    (
                        LeaseView { destination: destination as nat, opening: Some(opening@) },
                        final(self)@,
                    ),
                ),
                Err(e) => e == PartitionError::IdentifiersExhausted && enrol(old(self)@, key@)
                    is None && final(self)@ == old(self)@,
            },
    {
        let ghost s = self@;
        proof {
            lemma_enrol_inv(s, key@);
        }
        match self.find(key) {
            Some(destination) => {
                // We have seen this key before; its file is opened again.
                let file_name = self.gen.re_open(self.seen[destination].identifier.as_str());
                Ok((destination, Opening { file_name, append: true, header: None, evicted: None }))
            },
            None => {
                // The key needs a new file.
                match self.gen.writer(key) {
                    Ok((identifier, file_name)) => {
                        let destination: usize = self.seen.len();
                        let header = if self.no_headers {
                            None
                        } else {
                            Some(project(&self.headers, self.key_col, self.flag_drop))
                        };
                        self.index.insert(key, destination);
                        self.seen.push(Destination { key: slice_to_vec(key), identifier });
                        proof {
                            assert(self@.seen =~= s.seen.push((key@, identifier@)));
                            assert(agree(lru_entries(self.writers), self.seen@)) by {
                                let entries = lru_entries(self.writers);
                                assert forall|i: int| 0 <= i < entries.len() implies (
                                #[trigger] entries[i]).1 < self.seen@.len()
                                    && self.seen@[entries[i].1 as int].key@ == entries[i].0 by {
                                    assert(old(self).seen@[entries[i].1 as int].key@
                                        == entries[i].0);
                                }
                            }
                            assert(indexed(self.index@, self.seen@)) by {
                                assert forall|d: int| 0 <= d < self.seen@.len() implies
                                    self.index@.contains_key((#[trigger] self.seen@[d]).key@)
                                    && self.index@[self.seen@[d].key@] == d by {
                                    if d < old(self).seen@.len() {
                                        assert(self.seen@[d] == old(self).seen@[d]);
                                        assert(s.seen[d].0 != key@);
                                    }
                                }
                                assert forall|other: Seq<u8>| #[trigger]
                                    self.index@.contains_key(other) implies self.index@[other]
                                    < self.seen@.len() && self.seen@[self.index@[other] as int].key@
                                    == other by {
                                    if other != key@ {
                                        assert(old(self).index@.contains_key(other));
                                        assert(self.seen@[self.index@[other] as int] == old(
                                            self,
                                        ).seen@[self.index@[other] as int]);
                                    }
                                }
                            }
                        }
                        Ok(
                            (
                                destination,
                                Opening { file_name, append: false, header, evicted: None },
                            ),
                        )
                    },
                    Err(e) => Err(e),
                }
            },
        }
    }

    /// What the caller has to do to hold the open destination of a key.
    ///
    /// For a key whose destination is open there is nothing to do. Otherwise
    /// the lease says how to open the destination: with which file name, to
    /// append or to create, with which header, and which open destination to
    /// flush and close before. The caller tells `opened` once the destination
    /// is open. Where no identifier is left for a new key, the pool stays as
    /// it was.
    pub fn writer(&mut self, key: &[u8]) -> (lease: Result<Lease, PartitionError>)
        requires
            old(self).wf(),
        ensures
            final(self).wf(),
            match lease {
                Ok(lease) => request(old(self)@, key@) == Some((lease@, final(self)@)),
                Err(e) => e == PartitionError::IdentifiersExhausted && request(old(self)@, key@)
                    is None && final(self)@ == old(self)@,
            },
    {
        let ghost s = self@;
        let ghost entries = lru_entries(self.writers);
        proof {
            self.lemma_resident(key@);
            lemma_request_inv(s, key@);
        }
        match lru_get(&mut self.writers, key) {
            Some(destination) => {
                proof {
                    let i = s.resident.index_of(s.number_of(key@));
                    assert(lru_entries(self.writers) == promoted(entries, i));
                    assert(self@.resident =~= touched(s.resident, s.number_of(key@)));
                    Self::lemma_agree(lru_entries(self.writers), entries, self.seen@);
                }
                Ok(Lease { destination, opening: None })
            },
            None => {
                let (destination, opening) = match self.new_writer(key) {
                    Ok(planned) => planned,
                    Err(e) => {
                        return Err(e);
                    },
                };
                let ghost known = self@;
                let mut evicted: Option<usize> = None;
                if lru_len(&self.writers) >= self.capacity {
                    // Make room: the least recently used destination leaves.
                    match lru_pop_lru(&mut self.writers) {
                        Some((_, number)) => {
                            evicted = Some(number);
                        },
                        None => {},
                    }
                    proof {
                        assert(self@.resident =~= known.resident.drop_last());
                        Self::lemma_agree(lru_entries(self.writers), entries, self.seen@);
                    }
                }
                Ok(Lease { destination, opening: Some(Opening { evicted, ..opening }) })
            },
        }
    }

    /// Takes a destination among the open ones, as the most recently used,
    /// once the caller has opened it. Returns whether it was taken: it is
    /// not where it does not exist, is open, or no further one may be open.
    pub fn opened(&mut self, destination: usize) -> (taken: bool)
        requires
            old(self).wf(),
        ensures
            final(self).wf(),
            taken == admissible(old(self)@, destination as nat),
            final(self)@ == admitted(old(self)@, destination as nat),
    {
        let ghost s = self@;
        let ghost entries = lru_entries(self.writers);
        if destination >= self.seen.len() || lru_len(&self.writers) >= self.capacity {
            return false;
        }
        proof {
            let key = self.seen@[destination as int].key@;
            self.lemma_resident(key);
            lemma_admitted_inv(s, destination as nat);
            assert(s.seen[destination as int].0 == key);
            let c = s.number_of(key) as int;
            assert(s.seen[c].0 == key);
            assert(self.seen@[c].key@ == self.seen@[destination as int].key@);
        }
        if lru_contains(&self.writers, self.seen[destination].key.as_slice()) {
            return false;
        }
        let key = slice_to_vec(self.seen[destination].key.as_slice());
        let displaced = lru_put(&mut self.writers, key, destination);
        proof {
            let now = lru_entries(self.writers);
            assert(displaced is None);
            assert(now == seq![(key@, destination)] + entries);
            assert(self@.resident =~= seq![destination as nat] + s.resident);
            assert(agree(now, self.seen@)) by {
                assert forall|j: int| 0 <= j < now.len() implies (#[trigger] now[j]).1
                    < self.seen@.len() && self.seen@[now[j].1 as int].key@ == now[j].0 by {
                    if j > 0 {
                        assert(now[j] == entries[j - 1]);
                    }
                }
            }
        }
        true
    }

    /// The open destinations, for the caller to flush and close at the end
    /// of the input: the least recently used first. None is open after.
    pub fn close_all(&mut self) -> (closed: Vec<usize>)
        requires
            old(self).wf(),
        ensures
            final(self).wf(),
            final(self)@ == all_closed(old(self)@),
            closed@.map_values(|d: usize| d as nat) == old(self)@.resident.reverse(),
    {
        let ghost s = self@;
        let ghost entries = lru_entries(self.writers);
        let mut closed: Vec<usize> = Vec::new();
        while lru_len(&self.writers) > 0
            invariant
                self.wf(),
                self@ == (PoolState { resident: self@.resident, ..s }),
                closed@.len() + self@.resident.len() == s.resident.len(),
                self@.resident == s.resident.take(self@.resident.len() as int),
                forall|i: int|
                    0 <= i < closed@.len() ==> closed@[i] == s.resident[s.resident.len() - 1 - i],
            decreases lru_entries(self.writers).len(),
        {
            let ghost before = lru_entries(self.writers);
            let ghost pre = self@;
            match lru_pop_lru(&mut self.writers) {
                Some((_, number)) => {
                    closed.push(number);
                },
                None => {},
            }
            proof {
                let now = self@;
                assert(now.resident =~= pre.resident.drop_last());
                assert(pre.resident.last() == s.resident[pre.resident.len() - 1]);
                assert(now.resident =~= s.resident.take(now.resident.len() as int));
                assert(now.seen == pre.seen && now.gen == pre.gen);
                Self::lemma_agree(lru_entries(self.writers), before, self.seen@);
                assert forall|a: int, b: int|
                    0 <= a < now.resident.len() && 0 <= b < now.resident.len() && a
                        != b implies now.resident[a] != now.resident[b] by {
                    assert(now.resident[a] == pre.resident[a]);
                    assert(now.resident[b] == pre.resident[b]);
                }
                assert forall|j: int| 0 <= j < now.resident.len() implies #[trigger] now.resident[j]
                    < now.seen.len() by {
                    assert(now.resident[j] == pre.resident[j]);
                }
                assert(now.inv());
            }
        }
        proof {
            assert(self@.resident =~= Seq::empty());
            assert(closed@.map_values(|d: usize| d as nat) =~= s.resident.reverse());
        }
        closed
    }
}

} // verus!
