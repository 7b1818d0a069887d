use mpc::change::{collect_changes, Change, FileDiff, Hunk};
use mpc::directives::{check_hunk_balanced_directives, patch_is_balanced};

#[test]
fn endif_without_opener_is_unbalanced() {
    assert!(!check_hunk_balanced_directives("-#endif\n"));
    assert!(!check_hunk_balanced_directives("int x;\n#else\n"));
}

#[test]
fn matched_ifdef_endif_is_balanced() {
    assert!(check_hunk_balanced_directives("+#ifdef FOO\n+int x;\n+#endif\n"));
    assert!(check_hunk_balanced_directives("  #if A\n#elif B\n #else\n  # endif\n#endif"));
    assert!(check_hunk_balanced_directives(""));
}

#[test]
fn unclosed_opener_is_unbalanced() {
    assert!(!check_hunk_balanced_directives("#ifndef X\nint y;\n"));
}

#[test]
fn patch_checks_each_hunk_side() {
    let ok = "diff --git a/a.c b/a.c\n--- a/a.c\n+++ b/a.c\n@@ -3 +3 @@\n-#ifdef A\n-#endif\n+#if B\n+#endif\n";
    assert!(patch_is_balanced(ok));
    let split = "@@ -3 +3 @@\n-#ifdef A\n@@ -9 +9 @@\n-#endif\n";
    assert!(!patch_is_balanced(split));
    let added = "@@ -3,0 +4 @@\n+#else\n";
    assert!(!patch_is_balanced(added));
}

#[test]
fn hunk_of_pure_addition_claims_one_line() {
    let h = Hunk::from(7, 0);
    assert_eq!((h.old_lines.start, h.old_lines.stop), (7, 8));
    let h = Hunk::from(7, 3);
    assert_eq!((h.old_lines.start, h.old_lines.stop), (7, 10));
}

#[test]
fn unbalanced_file_becomes_full() {
    let diffs = vec![
        FileDiff {
            old_path: "a.c".to_string(),
            hunks: vec![Hunk::from(5, 1)],
            patch: "@@ -5 +5 @@\n-#endif\n+x\n".to_string(),
        },
        FileDiff {
            old_path: "b.c".to_string(),
            hunks: vec![Hunk::from(2, 1), Hunk::from(9, 0)],
            patch: "@@ -2 +2 @@\n-a\n+b\n@@ -9,0 +10 @@\n+c\n".to_string(),
        },
        FileDiff { old_path: "c.c".to_string(), hunks: vec![], patch: String::new() },
    ];
    let cs = collect_changes(&diffs);
    assert_eq!(cs.len(), 2);
    let a = cs.iter().find(|e| e.0 == "a.c").unwrap();
    assert!(matches!(a.1, Change::Full));
    let b = cs.iter().find(|e| e.0 == "b.c").unwrap();
    match &b.1 {
        Change::Partly(v) => {
            let mut r: Vec<(u32, u32)> = v.iter().map(|x| (x.start, x.stop)).collect();
            r.sort();
            assert_eq!(r, vec![(2, 3), (9, 10)]);
        }
        Change::Full => panic!("b.c is balanced"),
    }
}
