use mpc::change::{collect_changes, Change, FileDiff, Hunk};
use mpc::fingerprint::{hash_fn, to_decimal, Checkpoint, CompileCommand, CompileCommands};
use mpc::index::{FileUsageIndex, LabeledRange};
use mpc::interval::Interval;
use mpc::report::{File, Info};
use mpc::resolve::is_assembly_path;
use mpc::storage::{UsageError, UsageStorage};

fn report(path: &str, lines: u32, skips: Vec<(u32, u32)>) -> Info {
    Info {
        tu: path.to_string(),
        args: String::new(),
        files: vec![File {
            lines,
            path: path.to_string(),
            skips: skips.into_iter().map(|(b, e)| Interval::new(b, e)).collect(),
        }],
    }
}

fn snapshot(variant: &str, infos: Vec<Info>) -> UsageStorage {
    UsageStorage::from("/repo".to_string(), Some(format!("fp-{variant}")), variant.to_string(), &infos, false)
        .unwrap()
}

fn two_variants() -> UsageStorage {
    // v1 uses lines [10, 20) of a.c, v2 uses [30, 40)
    let mut s = snapshot("v1", vec![report("a.c", 100, vec![(1, 9), (20, 100)])]);
    let s2 = snapshot("v2", vec![report("a.c", 100, vec![(1, 29), (40, 100)])]);
    s.merge_into(&s2).unwrap();
    s
}

fn sorted(mut v: Vec<String>) -> Vec<String> {
    v.sort();
    v
}

fn ranges_of(s: &UsageStorage, path: &str) -> Vec<(u32, u32, String)> {
    let mut r: Vec<(u32, u32, String)> = s
        .used_lines
        .iter()
        .filter(|e| e.0 == path)
        .flat_map(|e| e.1.ranges())
        .map(|x| (x.start, x.stop, x.variant))
        .collect();
    r.sort();
    r
}

#[test]
fn change_in_first_range_affects_first_variant() {
    let s = two_variants();
    let changes = vec![("a.c".to_string(), Change::Partly(vec![Hunk::from(15, 1).old_lines]))];
    let r = s.find_affected_variants(&None, &changes, &None, false);
    assert_eq!(r, vec!["v1".to_string()]);
}

#[test]
fn full_change_affects_every_variant_of_the_file() {
    let s = two_variants();
    let diffs = vec![FileDiff {
        old_path: "a.c".to_string(),
        hunks: vec![Hunk::from(90, 1)],
        patch: "@@ -90 +90 @@\n-#endif\n+int x;\n".to_string(),
    }];
    let changes = collect_changes(&diffs);
    assert!(matches!(changes[0].1, Change::Full));
    let r = s.find_affected_variants(&None, &changes, &None, false);
    assert_eq!(sorted(r), vec!["v1".to_string(), "v2".to_string()]);
}

#[test]
fn assembly_change_affects_every_variant() {
    let s = two_variants();
    let changes = vec![("arch/start.S".to_string(), Change::Partly(vec![Hunk::from(1, 1).old_lines]))];
    let r = s.find_affected_variants(&None, &changes, &None, true);
    assert_eq!(sorted(r), vec!["v1".to_string(), "v2".to_string()]);
    let r = s.find_affected_variants(&None, &changes, &None, false);
    assert!(r.is_empty());
}

#[test]
fn assembly_extensions() {
    assert!(is_assembly_path(&"x.s".to_string()));
    assert!(is_assembly_path(&"d/x.ASM".to_string()));
    assert!(!is_assembly_path(&"x.c".to_string()));
    assert!(!is_assembly_path(&"d/.s".to_string()));
}

#[test]
fn alarm_file_relative_to_repository_affects_every_variant() {
    let s = two_variants();
    let changes = vec![("/repo/config.h".to_string(), Change::Partly(vec![Hunk::from(1, 1).old_lines]))];
    let alarm = Some(vec!["config.h".to_string()]);
    let r = s.find_affected_variants(&None, &changes, &alarm, false);
    assert_eq!(sorted(r), vec!["v1".to_string(), "v2".to_string()]);
    let other = Some(vec!["other.h".to_string()]);
    assert!(s.find_affected_variants(&None, &changes, &other, false).is_empty());
}

#[test]
fn changed_fingerprint_affects_its_variant() {
    let s = two_variants();
    let changes: Vec<(String, Change)> = vec![];
    let updates = Some(vec![
        ("v1".to_string(), "fp-v1".to_string()),
        ("v2".to_string(), "something else".to_string()),
    ]);
    assert_eq!(s.get_affected(&updates, &changes), vec!["v2".to_string()]);
}

#[test]
fn query_that_stops_where_a_range_starts_misses_it() {
    let s = two_variants();
    // [5, 10) ends where v1's [10, 20) begins
    let changes = vec![("a.c".to_string(), Change::Partly(vec![LabeledRange::new(5, 10, String::new())]))];
    assert!(s.get_affected(&None, &changes).is_empty());
    let changes = vec![("a.c".to_string(), Change::Partly(vec![LabeledRange::new(19, 31, String::new())]))];
    assert_eq!(sorted(s.get_affected(&None, &changes)), vec!["v1".to_string(), "v2".to_string()]);
}

#[test]
fn index_find_is_half_open() {
    let idx = FileUsageIndex::from_ranges(vec![
        LabeledRange::new(10, 20, "a".to_string()),
        LabeledRange::new(15, 25, "b".to_string()),
    ]);
    assert_eq!(idx.find(20, 30).len(), 1);
    assert_eq!(idx.find(0, 10).len(), 0);
    assert_eq!(idx.find(12, 16).len(), 2);
    assert!(UsageStorage::is_using_lines(&idx, &Change::Full));
    assert!(!UsageStorage::is_using_lines(&idx, &Change::Partly(vec![LabeledRange::new(25, 30, String::new())])));
    assert!(UsageStorage::is_using_lines(&idx, &Change::Partly(vec![LabeledRange::new(24, 30, String::new())])));
}

#[test]
fn build_joins_units_of_one_file() {
    let infos = vec![
        report("h.h", 10, vec![(4, 10)]),
        report("h.h", 10, vec![(1, 3), (8, 10)]),
    ];
    let s = snapshot("v", infos);
    assert_eq!(ranges_of(&s, "h.h"), vec![(1, 8, "v".to_string())]);
    assert_eq!(s.get_all_variants(), vec!["v".to_string()]);
}

#[test]
fn build_in_used_lines_mode_keeps_ranges() {
    let infos = vec![report("u.c", 10, vec![(2, 3), (5, 6)])];
    let s = UsageStorage::from("/r".to_string(), None, "v".to_string(), &infos, true).unwrap();
    assert_eq!(ranges_of(&s, "u.c"), vec![(2, 4, "v".to_string()), (5, 7, "v".to_string())]);
}

#[test]
fn unsorted_report_is_rejected() {
    let infos = vec![report("a.c", 10, vec![(4, 5), (2, 3)])];
    let r = UsageStorage::from("/r".to_string(), None, "v".to_string(), &infos, false);
    assert!(matches!(r, Err(UsageError::MalformedInput)));
    let infos = vec![report("a.c", 10, vec![(4, 11)])];
    let r = UsageStorage::from("/r".to_string(), None, "v".to_string(), &infos, false);
    assert!(matches!(r, Err(UsageError::MalformedInput)));
}

#[test]
fn accumulating_a_variant_twice_is_refused() {
    let mut s = two_variants();
    let again = snapshot("v1", vec![report("b.c", 5, vec![])]);
    assert!(matches!(s.merge_into(&again), Err(UsageError::AccumulationConflict)));
    assert_eq!(sorted(s.get_all_variants()), vec!["v1".to_string(), "v2".to_string()]);
    assert!(ranges_of(&s, "b.c").is_empty());
}

#[test]
fn accumulation_order_does_not_matter() {
    let a = snapshot("a", vec![report("x.c", 20, vec![(5, 20)]), report("y.c", 5, vec![])]);
    let b = snapshot("b", vec![report("x.c", 20, vec![(1, 10)])]);
    let mut ab = snapshot("base", vec![report("x.c", 20, vec![(1, 15)])]);
    let mut ba = snapshot("base", vec![report("x.c", 20, vec![(1, 15)])]);
    ab.merge_into(&a).unwrap();
    ab.merge_into(&b).unwrap();
    ba.merge_into(&b).unwrap();
    ba.merge_into(&a).unwrap();
    for f in ["x.c", "y.c"] {
        assert_eq!(ranges_of(&ab, f), ranges_of(&ba, f));
    }
    assert_eq!(
        ranges_of(&ab, "x.c"),
        vec![(1, 5, "a".to_string()), (11, 21, "b".to_string()), (16, 21, "base".to_string())]
    );
    assert_eq!(sorted(ab.get_all_variants()), sorted(ba.get_all_variants()));
}

#[test]
fn decimal_digits() {
    assert_eq!(to_decimal(0), "0");
    assert_eq!(to_decimal(1234567890), "1234567890");
    assert_eq!(to_decimal(u64::MAX), u64::MAX.to_string());
}

#[test]
fn digest_depends_on_the_bytes() {
    assert_eq!(hash_fn(b"abc"), hash_fn(b"abc"));
    assert_ne!(hash_fn(b"abc"), hash_fn(b"abd"));
    assert_eq!(CompileCommands::hash(&vec!["ab".to_string(), "c".to_string()]), hash_fn(b"abc").to_string());
    assert_ne!(CompileCommands::hash(&vec!["abc".to_string()]), "abc");
}

#[test]
fn commands_sort_by_file() {
    let cmd = |f: &str| CompileCommand {
        directory: "/d".to_string(),
        file: f.to_string(),
        command: None,
        arguments: Some(vec!["cc".to_string()]),
        output: None,
    };
    let mut c = CompileCommands { commands: vec![cmd("b.c"), cmd("a.c"), cmd("c.c")] };
    c.sort_by_file();
    let files: Vec<&str> = c.commands.iter().map(|x| x.file.as_str()).collect();
    assert_eq!(files, vec!["a.c", "b.c", "c.c"]);
}

#[test]
fn checkpoint_detects_changed_digest() {
    let c = Checkpoint { file_hashes: vec![("a".to_string(), 1), ("b".to_string(), 2)] };
    assert!(!c.is_affected(&vec![1, 2]));
    assert!(c.is_affected(&vec![1, 3]));
}
