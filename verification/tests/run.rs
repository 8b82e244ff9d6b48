use file_organizer::logic::{organize_file, process_directory, FileReport, Outcome, Step};
use file_organizer::stats::StatsMap;

fn report(path: &str, outcome: Outcome) -> FileReport {
    FileReport { path: path.to_string(), outcome }
}

fn all_done(paths: &[&str]) -> Vec<FileReport> {
    paths.iter().map(|p| report(p, Outcome::Done)).collect()
}

fn sorted(stats: &StatsMap) -> Vec<(String, u64)> {
    let mut list = stats.entries();
    list.sort();
    list
}

fn total(stats: &StatsMap) -> u64 {
    stats.entries().iter().map(|e| e.1).sum()
}

fn tree() -> Vec<&'static str> {
    vec![
        "root/a.TXT",
        "root/b.txt",
        "root/README",
        "root/pdf/x.pdf",
        "root/sub/y.PDF",
        "root/sub/deep/z.pdf",
        "root/sub/Makefile",
        "root/img/p.JPG",
        "root/jpg/q.jpg",
        "root/.hidden",
    ]
}

#[test]
fn run_counts_moved_files_by_tag() {
    let stats = process_directory(&all_done(&tree()), "root", false);
    assert_eq!(
        sorted(&stats),
        vec![
            ("hidden".to_string(), 1),
            ("jpg".to_string(), 1),
            ("pdf".to_string(), 2),
            ("txt".to_string(), 2),
        ]
    );
    assert_eq!(stats.count("txt"), 2);
    assert_eq!(stats.count("pdf"), 2);
    assert_eq!(stats.count("jpg"), 1);
}

#[test]
fn run_over_no_files_counts_nothing() {
    let stats = process_directory(&vec![], "root", false);
    assert!(stats.is_empty());
}

#[test]
fn second_run_moves_nothing() {
    let first = all_done(&tree());
    let mut after: Vec<FileReport> = Vec::new();
    for r in &first {
        let place = match organize_file(&r.path, "root", false) {
            Step::Move { dest, .. } => dest,
            _ => r.path.clone(),
        };
        after.push(FileReport { path: place, outcome: Outcome::Done });
    }
    assert!(!process_directory(&first, "root", false).is_empty());
    let second = process_directory(&after, "root", false);
    assert!(second.is_empty());
    assert_eq!(second.entries(), vec![]);
    for r in &after {
        assert_eq!(organize_file(&r.path, "root", false), Step::Skip);
    }
}

#[test]
fn dry_run_reports_the_moves_of_a_real_run() {
    let mut previews: Vec<(String, String)> = Vec::new();
    let mut moves: Vec<(String, String)> = Vec::new();
    for p in tree() {
        if let Step::Preview { dest, .. } = organize_file(p, "root", true) {
            previews.push((p.to_string(), dest));
        }
        if let Step::Move { dest, .. } = organize_file(p, "root", false) {
            moves.push((p.to_string(), dest));
        }
    }
    assert_eq!(previews.len(), 6);
    assert_eq!(previews, moves);
    let dry = process_directory(&all_done(&tree()), "root", true);
    let real = process_directory(&all_done(&tree()), "root", false);
    assert_eq!(sorted(&dry), sorted(&real));
}

#[test]
fn extensionless_file_never_shows_in_the_summary() {
    let stats = process_directory(&all_done(&["root/README", "root/sub/LICENSE"]), "root", false);
    assert!(stats.is_empty());
    let with = process_directory(&all_done(&["root/a.txt", "root/README"]), "root", false);
    let without = process_directory(&all_done(&["root/a.txt"]), "root", false);
    assert_eq!(with.entries(), without.entries());
}

#[test]
fn placed_file_is_not_counted() {
    let stats = process_directory(&all_done(&["Root/pdf/x.pdf"]), "Root", false);
    assert!(stats.is_empty());
    assert_eq!(stats.count("pdf"), 0);
}

#[test]
fn failed_file_is_left_out_and_the_rest_counts() {
    let reports = vec![
        report("root/a.txt", Outcome::Done),
        report("root/locked.secret", Outcome::DirectoryFailed),
        report("root/b.txt", Outcome::Done),
        report("root/c.pdf", Outcome::RenameFailed),
        report("root/d.pdf", Outcome::Done),
    ];
    let stats = process_directory(&reports, "root", false);
    assert_eq!(sorted(&stats), vec![("pdf".to_string(), 1), ("txt".to_string(), 2)]);
    assert_eq!(stats.count("secret"), 0);
    let rest = process_directory(&all_done(&["root/a.txt", "root/b.txt", "root/d.pdf"]), "root", false);
    assert_eq!(sorted(&stats), sorted(&rest));
}

#[test]
fn each_eligible_file_counts_exactly_once() {
    let mut paths: Vec<String> = Vec::new();
    let exts = ["txt", "TXT", "pdf", "Pdf", "jpg", "md"];
    for i in 0..600 {
        paths.push(format!("root/d{}/f{}.{}", i % 7, i, exts[i % exts.len()]));
    }
    for i in 0..50 {
        paths.push(format!("root/d{}/plain{}", i % 7, i));
        paths.push(format!("root/txt/kept{}.txt", i));
    }
    let reports: Vec<FileReport> =
        paths.iter().map(|p| FileReport { path: p.clone(), outcome: Outcome::Done }).collect();
    let stats = process_directory(&reports, "root", false);
    assert_eq!(total(&stats), 600);
    assert_eq!(stats.count("txt"), 200);
    assert_eq!(stats.count("pdf"), 200);
    assert_eq!(stats.count("jpg"), 100);
    assert_eq!(stats.count("md"), 100);
}

#[test]
fn order_of_the_files_does_not_change_the_summary() {
    let forward = all_done(&tree());
    let mut backward = all_done(&tree());
    backward.reverse();
    let mut rotated = all_done(&tree());
    rotated.rotate_left(3);
    let a = process_directory(&forward, "root", false);
    let b = process_directory(&backward, "root", false);
    let c = process_directory(&rotated, "root", false);
    assert_eq!(sorted(&a), sorted(&b));
    assert_eq!(sorted(&a), sorted(&c));
}
