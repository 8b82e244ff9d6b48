use file_organizer::args::Cli;
use file_organizer::logic::{check_root, organize_file, place, Outcome, RootKind, SetupError, Step};

fn moved(tag: &str, dir: &str, dest: &str) -> Step {
    Step::Move { tag: tag.to_string(), dir: dir.to_string(), dest: dest.to_string() }
}

fn preview(tag: &str, dest: &str) -> Step {
    Step::Preview { tag: tag.to_string(), dest: dest.to_string() }
}

#[test]
fn upper_and_lower_case_extensions_share_a_folder() {
    let upper = organize_file("root/a.TXT", "root", false);
    let lower = organize_file("root/b.txt", "root", false);
    assert_eq!(upper, moved("txt", "root/txt", "root/txt/a.TXT"));
    assert_eq!(lower, moved("txt", "root/txt", "root/txt/b.txt"));
    assert_eq!(upper.counted_tag(Outcome::Done), Some("txt".to_string()));
    assert_eq!(lower.counted_tag(Outcome::Done), Some("txt".to_string()));
}

#[test]
fn mixed_case_extension_is_lowered() {
    assert_eq!(
        organize_file("Downloads/Report.PdF", "Downloads", false),
        moved("pdf", "Downloads/pdf", "Downloads/pdf/Report.PdF")
    );
    assert_eq!(
        organize_file("in/photo.JPG", "in", false),
        moved("jpg", "in/jpg", "in/jpg/photo.JPG")
    );
}

#[test]
fn extension_outside_ascii_is_lowered() {
    assert_eq!(
        organize_file("root/отчёт.ДОК", "root", false),
        moved("док", "root/док", "root/док/отчёт.ДОК")
    );
    assert_eq!(
        organize_file("root/x.ÉTÉ", "root", true),
        preview("été", "root/été/x.ÉTÉ")
    );
}

#[test]
fn file_without_extension_is_skipped() {
    assert_eq!(organize_file("root/README", "root", false), Step::Skip);
    assert_eq!(organize_file("root/README", "root", true), Step::Skip);
    assert_eq!(organize_file("root/sub.dir/Makefile", "root", false), Step::Skip);
    assert_eq!(organize_file("root/README", "root", false).counted_tag(Outcome::Done), None);
}

#[test]
fn file_at_its_destination_is_skipped() {
    assert_eq!(organize_file("Root/pdf/x.pdf", "Root", false), Step::Skip);
    assert_eq!(organize_file("Root/pdf/x.pdf", "Root", true), Step::Skip);
    assert_eq!(organize_file("Root/pdf/x.PDF", "Root", false), Step::Skip);
    assert_eq!(organize_file("Root/pdf/x.pdf", "Root/", false), Step::Skip);
    assert_eq!(organize_file("Root//pdf/x.pdf", "Root", false), Step::Skip);
    assert_eq!(organize_file("/data/jpg/a.JPG", "/data", false), Step::Skip);
}

#[test]
fn file_in_another_folder_of_the_same_name_moves() {
    assert_eq!(
        organize_file("Root/sub/pdf/x.pdf", "Root", false),
        moved("pdf", "Root/pdf", "Root/pdf/x.pdf")
    );
    assert_eq!(
        organize_file("Root/PDF/x.pdf", "Root", false),
        moved("pdf", "Root/pdf", "Root/pdf/x.pdf")
    );
    assert_eq!(
        organize_file("Root/txt/x.pdf", "Root", false),
        moved("pdf", "Root/pdf", "Root/pdf/x.pdf")
    );
}

#[test]
fn file_deep_in_the_tree_moves_to_the_top_folder() {
    assert_eq!(
        organize_file("root/a/b/c/notes.md", "root", false),
        moved("md", "root/md", "root/md/notes.md")
    );
}

#[test]
fn dry_run_previews_the_same_move() {
    assert_eq!(
        organize_file("root/sub/a.PDF", "root", true),
        preview("pdf", "root/pdf/a.PDF")
    );
    assert_eq!(
        organize_file("root/sub/a.PDF", "root", false),
        moved("pdf", "root/pdf", "root/pdf/a.PDF")
    );
}

#[test]
fn name_with_an_empty_stem_has_a_tag() {
    assert_eq!(
        organize_file("root/.profile", "root", false),
        moved("profile", "root/profile", "root/profile/.profile")
    );
    assert_eq!(organize_file("root/profile/.profile", "root", false), Step::Skip);
}

#[test]
fn name_that_ends_in_a_dot_has_the_empty_tag() {
    assert_eq!(organize_file("root/sub/a.", "root", false), moved("", "root/", "root/a."));
    assert_eq!(organize_file("root/a.", "root", false), Step::Skip);
}

#[test]
fn path_without_a_file_name_is_skipped() {
    assert_eq!(organize_file("root/a.txt/..", "root", false), Step::Skip);
    assert_eq!(organize_file("", "root", false), Step::Skip);
    assert_eq!(organize_file("/", "root", false), Step::Skip);
    assert_eq!(place("root/..", "root", "txt".to_string(), false), Step::Skip);
}

#[test]
fn an_empty_root_gives_a_relative_destination() {
    assert_eq!(organize_file("a.txt", "", false), moved("txt", "txt", "txt/a.txt"));
    assert_eq!(organize_file("txt/a.txt", "", false), Step::Skip);
}

#[test]
fn moved_file_is_skipped_the_next_time() {
    for (file, root) in [
        ("root/a.TXT", "root"),
        ("root/deep/er/b.tar.GZ", "root"),
        ("/abs/x/.hidden", "/abs"),
        ("rel/./y/Z.Jpeg", "rel/"),
        ("sub/a.", ""),
    ] {
        match organize_file(file, root, false) {
            Step::Move { dest, .. } => {
                assert_eq!(organize_file(&dest, root, false), Step::Skip, "file {:?}", file);
                assert_eq!(organize_file(&dest, root, true), Step::Skip, "file {:?}", file);
            }
            other => panic!("{:?} should move, got {:?}", file, other),
        }
    }
}

#[test]
fn place_takes_the_tag_as_given() {
    assert_eq!(
        place("root/a.TXT", "root", "txt".to_string(), false),
        moved("txt", "root/txt", "root/txt/a.TXT")
    );
    assert_eq!(
        place("root/a.TXT", "root", "TXT".to_string(), true),
        preview("TXT", "root/TXT/a.TXT")
    );
    assert_eq!(place("root/txt/a.TXT", "root", "txt".to_string(), false), Step::Skip);
    assert_eq!(
        place("root/txt/a.TXT", "root", "doc".to_string(), false),
        moved("doc", "root/doc", "root/doc/a.TXT")
    );
    assert_eq!(
        place("root/README", "root", "misc".to_string(), false),
        moved("misc", "root/misc", "root/misc/README")
    );
}

#[test]
fn only_a_step_that_was_carried_out_counts() {
    let step = moved("pdf", "root/pdf", "root/pdf/a.pdf");
    assert_eq!(step.counted_tag(Outcome::Done), Some("pdf".to_string()));
    assert_eq!(step.counted_tag(Outcome::DirectoryFailed), None);
    assert_eq!(step.counted_tag(Outcome::RenameFailed), None);
    let shown = preview("pdf", "root/pdf/a.pdf");
    assert_eq!(shown.counted_tag(Outcome::Done), Some("pdf".to_string()));
    assert_eq!(shown.counted_tag(Outcome::RenameFailed), None);
    assert_eq!(Step::Skip.counted_tag(Outcome::Done), None);
    assert_eq!(Step::Skip.counted_tag(Outcome::DirectoryFailed), None);
}

#[test]
fn a_run_starts_only_on_a_directory() {
    assert_eq!(check_root(RootKind::Directory), Ok(()));
    assert_eq!(check_root(RootKind::NotADirectory), Err(SetupError::RootNotADirectory));
    assert_eq!(check_root(RootKind::Inaccessible), Err(SetupError::RootInaccessible));
}

#[test]
fn cli_holds_the_two_settings() {
    let cli = Cli { path: "Downloads".to_string(), dry_run: true };
    assert_eq!(cli.path, "Downloads");
    assert!(cli.dry_run);
    assert_eq!(
        organize_file("Downloads/a.PDF", &cli.path, cli.dry_run),
        preview("pdf", "Downloads/pdf/a.PDF")
    );
}
