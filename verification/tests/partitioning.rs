use partition::error::PartitionError;
use partition::generator::WriterGenerator;
use partition::partition::{Args, Partition};
use partition::pool::WriterPool;
use partition::record::{partition_key, project};
use partition::template::FilenameTemplate;
use std::collections::HashMap;

type Record = Vec<Vec<u8>>;

fn record(fields: &[&str]) -> Record {
    fields.iter().map(|f| f.as_bytes().to_vec()).collect()
}

fn args(max_open: usize) -> Args {
    Args {
        flag_max_open_files: max_open,
        flag_filename: FilenameTemplate::default_csv(),
        flag_prefix_length: None,
        flag_drop: false,
        flag_no_headers: false,
    }
}

/// Files and open handles in memory, driven as a caller drives real ones.
struct Disk {
    files: HashMap<String, Vec<Record>>,
    handles: HashMap<usize, String>,
    most_open: usize,
    opened: Vec<(String, bool)>,
    closed: Vec<usize>,
}

impl Disk {
    fn new() -> Disk {
        Disk {
            files: HashMap::new(),
            handles: HashMap::new(),
            most_open: 0,
            opened: Vec::new(),
            closed: Vec::new(),
        }
    }

    fn feed(&mut self, partition: &mut Partition, row: &Record) {
        let routed = partition.route(row).unwrap();
        if let Some(opening) = routed.lease.opening {
            if let Some(evicted) = opening.evicted {
                assert!(self.handles.remove(&evicted).is_some());
                self.closed.push(evicted);
            }
            let content = self.files.entry(opening.file_name.clone()).or_default();
            if !opening.append {
                content.clear();
            }
            if let Some(header) = opening.header {
                content.push(header);
            }
            self.opened.push((opening.file_name.clone(), opening.append));
            assert!(self.handles.insert(routed.lease.destination, opening.file_name).is_none());
            assert!(partition.opened(routed.lease.destination));
        }
        self.most_open = self.most_open.max(self.handles.len());
        assert_eq!(self.handles.len(), partition.open_count());
        let name = self.handles.get(&routed.lease.destination).unwrap();
        self.files.get_mut(name).unwrap().push(routed.record);
    }

    fn run(partition: &mut Partition, rows: &[Record]) -> Disk {
        let mut disk = Disk::new();
        for row in rows {
            disk.feed(partition, row);
        }
        for destination in partition.finish() {
            assert!(disk.handles.remove(&destination).is_some());
        }
        assert!(disk.handles.is_empty());
        assert_eq!(partition.open_count(), 0);
        disk
    }
}

#[test]
fn one_open_file_is_enough_for_two_cities() {
    let mut partition = args(1).sequential_partition(record(&["city", "v"]), 0).unwrap();
    let rows = [record(&["NYC", "1"]), record(&["LA", "2"]), record(&["NYC", "3"])];
    let disk = Disk::run(&mut partition, &rows);
    assert_eq!(disk.files.len(), 2);
    assert_eq!(
        disk.files["NYC.csv"],
        vec![record(&["city", "v"]), record(&["NYC", "1"]), record(&["NYC", "3"])]
    );
    assert_eq!(disk.files["LA.csv"], vec![record(&["city", "v"]), record(&["LA", "2"])]);
    assert_eq!(
        disk.opened,
        vec![
            ("NYC.csv".to_string(), false),
            ("LA.csv".to_string(), false),
            ("NYC.csv".to_string(), true)
        ]
    );
    assert_eq!(disk.closed, vec![0, 1]);
    assert_eq!(disk.most_open, 1);
    assert_eq!(partition.destinations(), 2);
}

#[test]
fn keys_with_one_base_go_to_files_of_their_own() {
    let mut partition = args(4).sequential_partition(record(&["k", "v"]), 0).unwrap();
    let rows = [record(&["a!b", "1"]), record(&["a?b", "2"]), record(&["a!b", "3"])];
    let disk = Disk::run(&mut partition, &rows);
    assert_eq!(
        disk.files["ab.csv"],
        vec![record(&["k", "v"]), record(&["a!b", "1"]), record(&["a!b", "3"])]
    );
    assert_eq!(disk.files["ab_1.csv"], vec![record(&["k", "v"]), record(&["a?b", "2"])]);
    assert!(disk.closed.is_empty());
}

#[test]
fn every_file_holds_its_records_in_input_order_whatever_the_churn() {
    let keys = ["a", "b", "c", "a", "d", "b", "a", "c", "c", "e", "a", "b", "d", "e", "a"];
    for capacity in 1..=6 {
        let mut partition = args(capacity).sequential_partition(record(&["k", "n"]), 0).unwrap();
        let rows: Vec<Record> =
            keys.iter().enumerate().map(|(n, k)| record(&[k, &n.to_string()])).collect();
        let disk = Disk::run(&mut partition, &rows);
        assert_eq!(disk.files.len(), 5);
        assert!(disk.most_open <= capacity);
        for key in ["a", "b", "c", "d", "e"] {
            let mut expected = vec![record(&["k", "n"])];
            expected.extend(rows.iter().filter(|r| r[0] == key.as_bytes()).cloned());
            assert_eq!(disk.files[&format!("{}.csv", key)], expected);
        }
    }
}

#[test]
fn the_least_recently_used_destination_leaves() {
    let mut partition = args(2).sequential_partition(record(&["k"]), 0).unwrap();
    let rows =
        [record(&["a"]), record(&["b"]), record(&["a"]), record(&["c"]), record(&["b"])];
    let disk = Disk::run(&mut partition, &rows);
    // `a` was used after `b`, so `b` leaves for `c`; then `a` leaves for `b`.
    assert_eq!(disk.closed, vec![1, 0]);
    assert_eq!(
        disk.opened,
        vec![
            ("a.csv".to_string(), false),
            ("b.csv".to_string(), false),
            ("c.csv".to_string(), false),
            ("b.csv".to_string(), true)
        ]
    );
}

#[test]
fn a_resident_destination_needs_no_opening() {
    let mut partition = args(2).sequential_partition(record(&["k"]), 0).unwrap();
    let first = partition.route(&record(&["x"])).unwrap();
    assert!(first.lease.opening.is_some());
    assert!(partition.opened(first.lease.destination));
    let second = partition.route(&record(&["x"])).unwrap();
    assert_eq!(second.lease.destination, first.lease.destination);
    assert!(second.lease.opening.is_none());
    assert_eq!(partition.open_count(), 1);
}

#[test]
fn a_destination_that_was_not_opened_is_not_resident() {
    let mut partition = args(2).sequential_partition(record(&["k"]), 0).unwrap();
    let first = partition.route(&record(&["x"])).unwrap();
    assert!(!first.lease.opening.unwrap().append);
    assert_eq!(partition.open_count(), 0);
    // The caller failed to open it and asks again: the file is kept.
    let again = partition.route(&record(&["x"])).unwrap();
    assert_eq!(again.lease.destination, first.lease.destination);
    let opening = again.lease.opening.unwrap();
    assert!(opening.append);
    assert_eq!(opening.file_name, "x.csv");
    assert!(opening.header.is_none());
    assert_eq!(partition.destinations(), 1);
}

#[test]
fn opened_takes_each_destination_once_and_only_with_room() {
    let mut partition = args(1).sequential_partition(record(&["k"]), 0).unwrap();
    assert!(!partition.opened(0));
    let a = partition.route(&record(&["a"])).unwrap();
    assert!(partition.opened(a.lease.destination));
    assert!(!partition.opened(a.lease.destination));
    let b = partition.route(&record(&["b"])).unwrap();
    assert_eq!(b.lease.opening.unwrap().evicted, Some(a.lease.destination));
    assert_eq!(partition.open_count(), 0);
    assert!(partition.opened(b.lease.destination));
    assert!(!partition.opened(a.lease.destination));
    assert!(!partition.opened(7));
    assert_eq!(partition.open_count(), 1);
}

#[test]
fn the_header_is_written_once_per_file() {
    let mut partition = args(1).sequential_partition(record(&["k", "v"]), 0).unwrap();
    let rows = [record(&["a", "1"]), record(&["b", "2"]), record(&["a", "3"]), record(&["b", "4"])];
    let disk = Disk::run(&mut partition, &rows);
    for name in ["a.csv", "b.csv"] {
        let content = &disk.files[name];
        assert_eq!(content[0], record(&["k", "v"]));
        assert_eq!(content.iter().filter(|r| **r == record(&["k", "v"])).count(), 1);
        assert_eq!(content.len(), 3);
    }
}

#[test]
fn no_header_is_written_where_the_input_has_none() {
    let mut settings = args(1);
    settings.flag_no_headers = true;
    let mut partition = settings.sequential_partition(record(&["a", "1"]), 0).unwrap();
    let rows = [record(&["a", "1"]), record(&["b", "2"]), record(&["a", "3"])];
    let disk = Disk::run(&mut partition, &rows);
    assert_eq!(disk.files["a.csv"], vec![record(&["a", "1"]), record(&["a", "3"])]);
    assert_eq!(disk.files["b.csv"], vec![record(&["b", "2"])]);
}

#[test]
fn the_key_column_is_dropped_from_records_and_header() {
    let mut settings = args(2);
    settings.flag_drop = true;
    let mut partition = settings.sequential_partition(record(&["id", "city", "v"]), 1).unwrap();
    let rows = [record(&["1", "NYC", "x"]), record(&["2", "LA", "y"]), record(&["3", "NYC", "z"])];
    let disk = Disk::run(&mut partition, &rows);
    assert_eq!(
        disk.files["NYC.csv"],
        vec![record(&["id", "v"]), record(&["1", "x"]), record(&["3", "z"])]
    );
    assert_eq!(disk.files["LA.csv"], vec![record(&["id", "v"]), record(&["2", "y"])]);
}

#[test]
fn the_key_column_stays_where_it_is_not_dropped() {
    let mut partition = args(2).sequential_partition(record(&["id", "city"]), 1).unwrap();
    let disk = Disk::run(&mut partition, &[record(&["1", "NYC"])]);
    assert_eq!(disk.files["NYC.csv"], vec![record(&["id", "city"]), record(&["1", "NYC"])]);
}

#[test]
fn keys_are_cut_to_the_prefix_length() {
    let mut settings = args(4);
    settings.flag_prefix_length = Some(2);
    let mut partition = settings.sequential_partition(record(&["k"]), 0).unwrap();
    let rows = [record(&["alpha"]), record(&["alto"]), record(&["a"]), record(&["al"]), record(&["beta"])];
    let disk = Disk::run(&mut partition, &rows);
    assert_eq!(disk.files.len(), 3);
    assert_eq!(
        disk.files["al.csv"],
        vec![record(&["k"]), record(&["alpha"]), record(&["alto"]), record(&["al"])]
    );
    assert_eq!(disk.files["a.csv"], vec![record(&["k"]), record(&["a"])]);
    assert_eq!(disk.files["be.csv"], vec![record(&["k"]), record(&["beta"])]);
}

#[test]
fn partition_key_cuts_only_longer_values() {
    assert_eq!(partition_key(b"abcdef", Some(3)), b"abc");
    assert_eq!(partition_key(b"abc", Some(3)), b"abc");
    assert_eq!(partition_key(b"ab", Some(3)), b"ab");
    assert_eq!(partition_key(b"abcdef", Some(0)), b"");
    assert_eq!(partition_key(b"abcdef", None), b"abcdef");
    assert_eq!(partition_key(b"", Some(3)), b"");
}

#[test]
fn project_drops_the_key_column_only_when_asked() {
    let row = record(&["a", "b", "c"]);
    assert_eq!(project(&row, 1, true), record(&["a", "c"]));
    assert_eq!(project(&row, 0, true), record(&["b", "c"]));
    assert_eq!(project(&row, 2, true), record(&["a", "b"]));
    assert_eq!(project(&row, 1, false), row);
    assert_eq!(project(&row, 3, true), row);
    assert_eq!(project(&record(&[]), 0, true), record(&[]));
}

#[test]
fn the_template_names_the_files() {
    let mut settings = args(2);
    settings.flag_filename = FilenameTemplate::parse("out/by-{}.txt").unwrap();
    let mut partition = settings.sequential_partition(record(&["k"]), 0).unwrap();
    let disk = Disk::run(&mut partition, &[record(&["x y"]), record(&["x-y"])]);
    assert_eq!(disk.files["out/by-xy.txt"], vec![record(&["k"]), record(&["x y"])]);
    assert_eq!(disk.files["out/by-xy_1.txt"], vec![record(&["k"]), record(&["x-y"])]);
}

#[test]
fn exactly_one_key_column_is_taken() {
    let settings = args(1);
    assert!(matches!(settings.key_column(&vec![3]), Ok(3)));
    assert!(matches!(settings.key_column(&vec![]), Err(PartitionError::KeyColumnCount)));
    assert!(matches!(settings.key_column(&vec![0, 1]), Err(PartitionError::KeyColumnCount)));
}

#[test]
fn a_partition_needs_room_for_one_open_file() {
    assert!(matches!(
        args(0).sequential_partition(record(&["k"]), 0),
        Err(PartitionError::NoCapacity)
    ));
    let gen = WriterGenerator::new(FilenameTemplate::default_csv()).unwrap();
    assert!(matches!(
        WriterPool::new(gen, 0, record(&["k"]), 0, false, false),
        Err(PartitionError::NoCapacity)
    ));
}

#[test]
fn the_pool_answers_keys_directly() {
    let gen = WriterGenerator::new(FilenameTemplate::default_csv()).unwrap();
    let mut pool = WriterPool::new(gen, 2, record(&["k", "v"]), 0, true, false).unwrap();
    let lease = pool.writer(b"NYC").unwrap();
    assert_eq!(lease.destination, 0);
    let opening = lease.opening.unwrap();
    assert_eq!(opening.file_name, "NYC.csv");
    assert!(!opening.append);
    assert_eq!(opening.header, Some(record(&["v"])));
    assert_eq!(opening.evicted, None);
    assert!(pool.opened(0));
    assert_eq!(pool.open_count(), 1);
    assert_eq!(pool.destinations(), 1);
    assert!(pool.writer(b"NYC").unwrap().opening.is_none());
}

#[test]
fn a_pool_without_identifiers_left_stays_as_it_was() {
    let compiled = regex::Regex::new(r"\W");
    let gen = WriterGenerator::with_pattern(FilenameTemplate::default_csv(), usize::MAX, compiled)
        .unwrap();
    let mut pool = WriterPool::new(gen, 1, record(&["k"]), 0, false, false).unwrap();
    let first = pool.writer(b"a!").unwrap();
    assert!(pool.opened(first.destination));
    assert!(matches!(pool.writer(b"a?"), Err(PartitionError::IdentifiersExhausted)));
    assert_eq!(pool.destinations(), 1);
    assert_eq!(pool.open_count(), 1);
    assert!(pool.writer(b"a!").unwrap().opening.is_none());
}

#[test]
fn the_open_destinations_are_closed_at_the_end_oldest_first() {
    let mut partition = args(3).sequential_partition(record(&["k"]), 0).unwrap();
    let mut disk = Disk::new();
    for key in ["a", "b", "c", "a", "d"] {
        disk.feed(&mut partition, &record(&[key]));
    }
    // `b` left for `d`; of the others `c` was used longest ago, then `a`, then `d`.
    assert_eq!(disk.closed, vec![1]);
    assert_eq!(partition.finish(), vec![2, 0, 3]);
    assert_eq!(partition.open_count(), 0);
    assert_eq!(partition.finish(), Vec::<usize>::new());
    // The destinations stay on the books: a later record is appended.
    let routed = partition.route(&record(&["a"])).unwrap();
    assert!(routed.lease.opening.unwrap().append);
}
