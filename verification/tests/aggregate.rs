use di::cli::Opt;
use di::scan::{parent_of, Aggregator, EntryKind, ScanResult};

fn weights(items: &[di::util::Info]) -> Vec<u64> {
    items.iter().map(|i| i.0).collect()
}

#[test]
fn scan_result_new_is_zeroed() {
    let r = ScanResult::new(String::from("/data"), 5);
    assert_eq!(r.root, "/data");
    assert_eq!(r.files, 0);
    assert_eq!(r.directories, 0);
    assert_eq!(r.symlinks, 0);
    assert_eq!(r.bytes, 0);
    assert_eq!(r.largest_dirs.len(), 0);
    assert_eq!(r.largest_files.len(), 0);
    assert_eq!(r.largest_dirs.limit, 5);
    assert_eq!(r.largest_files.limit, 5);
}

#[test]
fn three_files_top_two() {
    // A tree with files of sizes {10, 50, 5} under one directory, N = 2.
    let mut agg = Aggregator::new(String::from("/data"), 2);
    agg.observe(String::from("/data"), EntryKind::Directory, 0);
    agg.observe(String::from("/data/a"), EntryKind::File, 10);
    agg.observe(String::from("/data/b"), EntryKind::File, 50);
    agg.observe(String::from("/data/c"), EntryKind::File, 5);
    let r = agg.finish();
    assert_eq!(r.files, 3);
    assert_eq!(r.directories, 1);
    assert_eq!(r.symlinks, 0);
    assert_eq!(r.bytes, 65);
    let files = r.largest_files.drain_sorted();
    assert_eq!(weights(&files), vec![50, 10]);
    assert_eq!(files[0].1, "/data/b");
    assert_eq!(files[1].1, "/data/a");
    let dirs = r.largest_dirs.drain_sorted();
    assert_eq!(dirs.len(), 1);
    assert_eq!(dirs[0].0, 65);
    assert_eq!(dirs[0].1, "/data");
}

#[test]
fn directory_totals_count_direct_children_only() {
    // Nested subdirectories: a parent's total excludes grandchildren.
    let mut agg = Aggregator::new(String::from("/a"), 5);
    agg.observe(String::from("/a"), EntryKind::Directory, 0);
    agg.observe(String::from("/a/f1"), EntryKind::File, 10);
    agg.observe(String::from("/a/b"), EntryKind::Directory, 0);
    agg.observe(String::from("/a/b/f2"), EntryKind::File, 20);
    agg.observe(String::from("/a/b/f3"), EntryKind::File, 7);
    let r = agg.finish();
    assert_eq!(r.bytes, 37);
    let dirs = r.largest_dirs.drain_sorted();
    assert_eq!(dirs.len(), 2);
    assert_eq!(dirs[0].0, 27);
    assert_eq!(dirs[0].1, "/a/b");
    assert_eq!(dirs[1].0, 10);
    assert_eq!(dirs[1].1, "/a");
}

#[test]
fn counters_sum_to_observed_entries() {
    let mut agg = Aggregator::new(String::from("/"), 3);
    agg.observe(String::from("/x"), EntryKind::File, 1);
    agg.observe(String::from("/y"), EntryKind::Directory, 0);
    agg.observe(String::from("/z"), EntryKind::Symlink, 0);
    agg.observe(String::from("/y/w"), EntryKind::File, 2);
    agg.observe(String::from("/v"), EntryKind::Symlink, 0);
    let r = agg.finish();
    assert_eq!(r.files + r.directories + r.symlinks, 5);
    assert_eq!(r.files, 2);
    assert_eq!(r.directories, 1);
    assert_eq!(r.symlinks, 2);
    assert_eq!(r.bytes, 3);
}

#[test]
fn no_observations_yield_zeroes_and_empty_selectors() {
    let agg = Aggregator::new(String::from("/empty"), 5);
    let r = agg.finish();
    assert_eq!(r.files, 0);
    assert_eq!(r.directories, 0);
    assert_eq!(r.symlinks, 0);
    assert_eq!(r.bytes, 0);
    assert_eq!(r.largest_files.len(), 0);
    assert_eq!(r.largest_dirs.len(), 0);
}

#[test]
fn zero_capacity_selectors_stay_empty() {
    let mut agg = Aggregator::new(String::from("/data"), 0);
    for i in 0..100u64 {
        agg.observe(format!("/data/f{}", i), EntryKind::File, i * 1000);
    }
    let r = agg.finish();
    assert_eq!(r.files, 100);
    assert_eq!(r.largest_files.len(), 0);
    assert_eq!(r.largest_dirs.len(), 0);
}

#[test]
fn delivery_order_does_not_change_the_result() {
    // The same observations in two different interleavings.
    let obs = [
        ("/r", EntryKind::Directory, 0u64),
        ("/r/a", EntryKind::File, 10),
        ("/r/b", EntryKind::File, 50),
        ("/r/s", EntryKind::Symlink, 0),
        ("/r/d", EntryKind::Directory, 0),
        ("/r/d/c", EntryKind::File, 5),
    ];
    let order_a = [0usize, 1, 2, 3, 4, 5];
    let order_b = [5usize, 3, 1, 4, 2, 0];

    let mut run = |order: &[usize]| {
        let mut agg = Aggregator::new(String::from("/r"), 2);
        for &i in order {
            let (p, k, s) = obs[i];
            agg.observe(String::from(p), k, s);
        }
        agg.finish()
    };
    let ra = run(&order_a);
    let rb = run(&order_b);
    assert_eq!(ra.files, rb.files);
    assert_eq!(ra.directories, rb.directories);
    assert_eq!(ra.symlinks, rb.symlinks);
    assert_eq!(ra.bytes, rb.bytes);
    let wa = weights(&ra.largest_files.drain_sorted());
    let wb = weights(&rb.largest_files.drain_sorted());
    assert_eq!(wa, wb);
    let da = weights(&ra.largest_dirs.drain_sorted());
    let db = weights(&rb.largest_dirs.drain_sorted());
    assert_eq!(da, db);
}

#[test]
fn file_without_parent_counts_but_feeds_no_directory() {
    let mut agg = Aggregator::new(String::from("."), 3);
    agg.observe(String::from("loose"), EntryKind::File, 42);
    let r = agg.finish();
    assert_eq!(r.files, 1);
    assert_eq!(r.bytes, 42);
    assert_eq!(r.largest_files.len(), 1);
    assert_eq!(r.largest_dirs.len(), 0);
}

#[test]
fn parent_of_follows_the_path_model() {
    assert_eq!(parent_of("/a/b"), Some(String::from("/a")));
    assert_eq!(parent_of("/a"), Some(String::from("/")));
    assert_eq!(parent_of("/"), None);
    assert_eq!(parent_of("a"), None);
    assert_eq!(parent_of(""), None);
    assert_eq!(parent_of("a/b"), Some(String::from("a")));
    assert_eq!(parent_of("/a/b/c.txt"), Some(String::from("/a/b")));
}

#[test]
fn effective_threads_defaults_to_available() {
    let with = Opt {
        verbosity: 0,
        threads: Some(3),
        n_items: 5,
        root: String::from("."),
    };
    let without = Opt { verbosity: 0, threads: None, n_items: 5, root: String::from(".") };
    assert_eq!(with.effective_threads(8), 3);
    assert_eq!(without.effective_threads(8), 8);
}
