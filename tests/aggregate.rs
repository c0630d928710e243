use disk_usage_cli::export::{encode, Format};
use disk_usage_cli::format::{block_column, format_human_readable};
use disk_usage_cli::key::{key_less, resolve_key, Key};
use disk_usage_cli::mode::{reportable_size, Mode};
use disk_usage_cli::order::sort_rows;
use disk_usage_cli::report::{entry_size, report_rows};
use disk_usage_cli::table::{Entry, Row, Table};

fn key(parts: &[&str]) -> Key {
    parts.iter().map(|p| p.as_bytes().to_vec()).collect()
}

fn entry(parts: &[&str], is_file: bool, ignored: bool, size: u64) -> Entry {
    Entry { path: key(parts), is_file, ignored, size }
}

fn scenario_entries() -> Vec<Entry> {
    vec![
        entry(&[], false, false, 0),
        entry(&["keep.txt"], true, false, 4096),
        entry(&["build"], false, true, 0),
        entry(&["build", "out.log"], true, true, 8192),
    ]
}

fn build(entries: &[Entry], max_depth: Option<u64>, roll_up: bool) -> Vec<Row> {
    let mut t = Table::new(max_depth, roll_up);
    for e in entries {
        t.add_entry(e);
    }
    t.into_rows()
}

fn find(rows: &[Row], k: &[&str]) -> Option<(u64, u64, bool)> {
    let k = key(k);
    rows.iter().find(|r| r.0 == k).map(|r| r.1)
}

#[test]
fn end_to_end_scan() {
    let rows = build(&scenario_entries(), None, true);
    assert_eq!(rows.len(), 2);
    let root = find(&rows, &[]).unwrap();
    assert_eq!((root.0, root.1), (4096, 8192));
    let b = find(&rows, &["build"]).unwrap();
    assert_eq!((b.0, b.1), (0, 8192));
    let sorted = sort_rows(rows);
    assert_eq!(sorted[0].0, key(&[]));
    assert_eq!(sorted[1].0, key(&["build"]));
    let lines = report_rows(&sorted, Mode::Du, false);
    assert_eq!(lines, vec![(key(&[]), 12288), (key(&["build"]), 8192)]);
    let t = {
        let mut t = Table::new(None, true);
        for e in &scenario_entries() {
            t.add_entry(e);
        }
        t
    };
    assert_eq!(t.max_size(), 12288);
}

#[test]
fn roll_up_root_is_sum_of_entries() {
    let es = vec![
        entry(&["a", "b", "f1"], true, false, 100),
        entry(&["a", "f2"], true, true, 20),
        entry(&["c", "d"], false, false, 3),
        entry(&["g"], true, true, 7),
    ];
    let rows = build(&es, None, true);
    let root = find(&rows, &[]).unwrap();
    assert_eq!(root.0 + root.1, 130);
    assert_eq!(find(&rows, &["a"]).unwrap(), (100, 20, true));
    assert_eq!(find(&rows, &["a", "b"]).unwrap(), (100, 0, true));
    assert_eq!(find(&rows, &["c", "d"]).unwrap(), (3, 0, false));
}

#[test]
fn direct_size_counts_own_key_only() {
    let es = vec![
        entry(&["a", "b", "f1"], true, false, 100),
        entry(&["a", "f2"], true, true, 20),
    ];
    let rows = build(&es, None, false);
    assert_eq!(rows.len(), 2);
    assert_eq!(find(&rows, &["a", "b"]).unwrap(), (100, 0, true));
    assert_eq!(find(&rows, &["a"]).unwrap(), (0, 20, true));
    assert!(find(&rows, &[]).is_none());
}

#[test]
fn summary_mode_single_root_row() {
    let es = scenario_entries();
    for roll_up in [true, false] {
        let rows = build(&es, Some(0), roll_up);
        assert_eq!(rows.len(), 1);
        assert_eq!(rows[0].0, key(&[]));
        assert_eq!(rows[0].1 .0 + rows[0].1 .1, 12288);
    }
}

#[test]
fn depth_bound_truncates_keys() {
    let p = key(&["a", "b", "c", "f.txt"]);
    assert_eq!(resolve_key(&p, true, None), key(&["a", "b", "c"]));
    assert_eq!(resolve_key(&p, false, None), p);
    assert_eq!(resolve_key(&p, true, Some(2)), key(&["a", "b"]));
    assert_eq!(resolve_key(&p, false, Some(0)), key(&[]));
    assert_eq!(resolve_key(&key(&[]), true, None), key(&[]));
}

#[test]
fn mode_selection_adds_up() {
    let c = (300u64, 45u64, false);
    assert_eq!(reportable_size(c, Mode::Du), 345);
    assert_eq!(reportable_size(c, Mode::Ignored), 45);
    assert_eq!(reportable_size(c, Mode::NotIgnored), 300);
    assert_eq!(
        reportable_size(c, Mode::Du),
        reportable_size(c, Mode::Ignored) + reportable_size(c, Mode::NotIgnored)
    );
}

#[test]
fn prefix_sorts_first() {
    assert!(key_less(&key(&["a"]), &key(&["a", "b"])));
    assert!(!key_less(&key(&["a", "b"]), &key(&["a"])));
    assert!(key_less(&key(&["a", "z"]), &key(&["ab"])));
    let rows: Vec<Row> = vec![
        (key(&["b"]), (1, 0, false)),
        (key(&["a", "b"]), (2, 0, false)),
        (key(&["a", "a"]), (3, 0, false)),
        (key(&["a"]), (4, 0, false)),
        (key(&[]), (5, 0, false)),
    ];
    let sorted = sort_rows(rows);
    let keys: Vec<Key> = sorted.into_iter().map(|r| r.0).collect();
    assert_eq!(keys, vec![key(&[]), key(&["a"]), key(&["a", "a"]), key(&["a", "b"]), key(&["b"])]);
}

#[test]
fn leaf_detection_by_next_row() {
    let rows: Vec<Row> = vec![
        (key(&[]), (10, 7, false)),
        (key(&["a"]), (10, 5, false)),
        (key(&["a", "b"]), (10, 5, false)),
        (key(&["c"]), (0, 2, false)),
    ];
    let m = encode(&rows).unwrap();
    assert_eq!(m.leaves.len(), 2);
    assert_eq!(m.leaves[0].path, key(&["a", "b"]));
    assert_eq!(m.leaves[0].bytes, 15);
    assert_eq!(m.leaves[0].format, Some(Format::Both));
    assert_eq!(m.leaves[1].path, key(&["c"]));
    assert_eq!(m.leaves[1].bytes, 2);
    assert_eq!(m.leaves[1].format, Some(Format::Cjs));
    assert_eq!(m.total, 17);
}

#[test]
fn leaf_formats() {
    let rows: Vec<Row> = vec![(key(&["x"]), (3, 0, true)), (key(&["y"]), (0, 0, true))];
    let m = encode(&rows).unwrap();
    assert_eq!(m.leaves[0].format, Some(Format::Esm));
    assert_eq!(m.leaves[1].format, None);
    assert_eq!(m.total, 3);
}

#[test]
fn encode_overflow_is_none() {
    let rows: Vec<Row> = vec![(key(&["x"]), (u64::MAX, 0, true)), (key(&["y"]), (1, 0, true))];
    assert!(encode(&rows).is_none());
}

#[test]
fn rerun_is_identical() {
    let es = scenario_entries();
    let a = sort_rows(build(&es, None, true));
    let b = sort_rows(build(&es, None, true));
    assert_eq!(a, b);
    let ma = encode(&a).unwrap();
    let mb = encode(&b).unwrap();
    assert_eq!(ma.total, mb.total);
    assert_eq!(ma.leaves.len(), mb.leaves.len());
    for (x, y) in ma.leaves.iter().zip(mb.leaves.iter()) {
        assert_eq!(x.path, y.path);
        assert_eq!(x.bytes, y.bytes);
        assert_eq!(x.format, y.format);
    }
}

#[test]
fn directories_only_report() {
    let rows: Vec<Row> = vec![(key(&[]), (5, 1, false)), (key(&["f"]), (2, 0, true))];
    let lines = report_rows(&rows, Mode::Ignored, true);
    assert_eq!(lines, vec![(key(&[]), 1)]);
    let all = report_rows(&rows, Mode::NotIgnored, false);
    assert_eq!(all, vec![(key(&[]), 5), (key(&["f"]), 2)]);
}

#[test]
fn human_readable_sizes() {
    assert_eq!(format_human_readable(0), " 0.0B");
    assert_eq!(format_human_readable(9), " 9.0B");
    assert_eq!(format_human_readable(1023), "1023B");
    assert_eq!(format_human_readable(1024), " 1.0K");
    assert_eq!(format_human_readable(1536), " 1.5K");
    assert_eq!(format_human_readable(1280), " 1.2K");
    assert_eq!(format_human_readable(10240), "  10K");
    assert_eq!(format_human_readable(10 * 1024 * 1024 - 1), "10.0M");
    assert_eq!(format_human_readable(5 * 1024 * 1024 * 1024), " 5.0G");
    assert_eq!(format_human_readable(u64::MAX), "  16E");
}

#[test]
fn block_column_alignment() {
    assert_eq!(block_column(4096, 12288), " 8");
    assert_eq!(block_column(12288, 12288), "24");
    assert_eq!(block_column(0, 0), "0");
}

#[test]
fn entry_size_policies() {
    assert_eq!(entry_size(true, 4096, 3), 4096);
    assert_eq!(entry_size(false, 4096, 3), 1536);
}

#[test]
fn mode_names() {
    assert_eq!(Mode::Du.name(), "du");
    assert_eq!(Mode::Ignored.name(), "ignored");
    assert_eq!(Mode::NotIgnored.name(), "not-ignored");
    assert_eq!(Mode::Du.description(), "all files (both ignored and not ignored)");
    assert_eq!(Mode::NotIgnored.description(), "only files that are NOT ignored by .gitignore rules");
}
