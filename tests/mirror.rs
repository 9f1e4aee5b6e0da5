use store::config::Config;
use store::log::failure_record;
use store::mirror::plan;
use store::path::{map_path, path_ends_with};
use store::sync::{
    first_step, must_write, next_step, same_contents, sizes_match, stale_after_reads, FileOp,
    Strategy, SyncOutcome, SyncStep,
};
use store::walk::{eligible_files, is_disallowed_dir, is_exclusion_marker, Node};

fn cfg(src: &str, dst: &str, dirs: &[&str], markers: &[&str]) -> Config {
    Config::new(
        src.to_string(),
        dst.to_string(),
        dirs.iter().map(|d| d.to_string()).collect(),
        markers.iter().map(|m| m.to_string()).collect(),
    )
}

fn file(p: &str) -> Node {
    Node::File(p.to_string())
}

fn dir(p: &str, children: Vec<Node>) -> Node {
    Node::Dir(p.to_string(), children)
}

#[test]
fn map_keeps_volume_prefix() {
    let c = cfg("in", "out", &[], &[]);
    assert_eq!(
        map_path(&c, "C:\\in\\sub\\file.txt"),
        Some("C:\\out\\sub\\file.txt".to_string())
    );
}

#[test]
fn map_nested_src_and_dst() {
    let c = cfg("a\\b", "x\\y", &[], &[]);
    assert_eq!(map_path(&c, "D:\\a\\b\\f.txt"), Some("D:\\x\\y\\f.txt".to_string()));
}

#[test]
fn map_rejects_path_outside_src() {
    let c = cfg("in", "out", &[], &[]);
    assert_eq!(map_path(&c, "C:\\other\\file.txt"), None);
    assert_eq!(map_path(&c, "C:\\inner\\file.txt"), None);
    assert_eq!(map_path(&c, "no_separator"), None);
}

#[test]
fn map_empty_src_keeps_rest() {
    let c = cfg("", "out", &[], &[]);
    assert_eq!(map_path(&c, "C:\\f.txt"), Some("C:\\out\\f.txt".to_string()));
}

#[test]
fn ends_with_matches_whole_components() {
    assert!(path_ends_with("C:\\in\\build", "build"));
    assert!(path_ends_with("build", "build"));
    assert!(path_ends_with("C:\\in\\x\\build", "x\\build"));
    assert!(!path_ends_with("C:\\in\\rebuild", "build"));
    assert!(path_ends_with("C:\\in", ""));
    assert!(!path_ends_with("ld", "build"));
}

#[test]
fn name_predicates_use_config_lists() {
    let c = cfg("in", "out", &["build", "target"], &["marker.txt"]);
    assert!(is_disallowed_dir(&c, "C:\\in\\a\\target"));
    assert!(!is_disallowed_dir(&c, "C:\\in\\a\\src"));
    assert!(is_exclusion_marker(&c, "C:\\in\\a\\marker.txt"));
    assert!(!is_exclusion_marker(&c, "C:\\in\\a\\notmarker.txt"));
}

fn sample_tree() -> Node {
    dir(
        "C:\\in",
        vec![
            file("C:\\in\\a.txt"),
            dir(
                "C:\\in\\sub",
                vec![file("C:\\in\\sub\\b.txt"), dir("C:\\in\\sub\\build", vec![file("C:\\in\\sub\\build\\x.o")])],
            ),
            file("C:\\in\\c.txt"),
            dir(
                "C:\\in\\quiet",
                vec![file("C:\\in\\quiet\\d.txt"), file("C:\\in\\quiet\\marker.txt"), file("C:\\in\\quiet\\e.txt")],
            ),
        ],
    )
}

#[test]
fn walk_visits_eligible_files_in_order() {
    let c = cfg("in", "out", &["build"], &["marker.txt"]);
    let got = eligible_files(&c, &sample_tree());
    assert_eq!(
        got,
        vec!["C:\\in\\sub\\b.txt".to_string(), "C:\\in\\a.txt".to_string(), "C:\\in\\c.txt".to_string()]
    );
}

#[test]
fn marker_suppresses_whole_directory_in_any_position() {
    let c = cfg("in", "out", &[], &["marker.txt"]);
    for pos in 0..3 {
        let mut files = vec![file("C:\\in\\q\\d.txt"), file("C:\\in\\q\\e.txt")];
        files.insert(pos, file("C:\\in\\q\\marker.txt"));
        let t = dir("C:\\in", vec![dir("C:\\in\\q", files), file("C:\\in\\keep.txt")]);
        assert_eq!(eligible_files(&c, &t), vec!["C:\\in\\keep.txt".to_string()]);
    }
}

#[test]
fn marker_keeps_subdirectories_listed_before_it() {
    let c = cfg("in", "out", &[], &["marker.txt"]);
    let t = dir(
        "C:\\in",
        vec![
            file("C:\\in\\a.txt"),
            dir("C:\\in\\early", vec![file("C:\\in\\early\\e.txt")]),
            file("C:\\in\\marker.txt"),
            dir("C:\\in\\late", vec![file("C:\\in\\late\\l.txt")]),
        ],
    );
    assert_eq!(eligible_files(&c, &t), vec!["C:\\in\\early\\e.txt".to_string()]);
}

#[test]
fn nested_build_directory_is_absent() {
    let c = cfg("in", "out", &["build"], &[]);
    let t = dir(
        "C:\\in",
        vec![dir(
            "C:\\in\\a",
            vec![dir(
                "C:\\in\\a\\b",
                vec![
                    dir("C:\\in\\a\\b\\build", vec![dir("C:\\in\\a\\b\\build\\deep", vec![file("C:\\in\\a\\b\\build\\deep\\z")])]),
                    file("C:\\in\\a\\b\\y"),
                ],
            )],
        )],
    );
    assert_eq!(eligible_files(&c, &t), vec!["C:\\in\\a\\b\\y".to_string()]);
}

#[test]
fn empty_directory_yields_nothing() {
    let c = cfg("in", "out", &[], &[]);
    assert!(eligible_files(&c, &dir("C:\\in", vec![])).is_empty());
}

#[test]
fn plan_maps_every_file() {
    let c = cfg("in", "out", &["build"], &["marker.txt"]);
    let ts = match plan(&c, &sample_tree()) {
        Ok(ts) => ts,
        Err(_) => panic!("every file lies under the source"),
    };
    assert_eq!(ts.len(), 3);
    assert_eq!(ts[0].source, "C:\\in\\sub\\b.txt");
    assert_eq!(ts[0].destination, "C:\\out\\sub\\b.txt");
    assert_eq!(ts[2].destination, "C:\\out\\c.txt");
}

#[test]
fn plan_reports_file_outside_source() {
    let c = cfg("in", "out", &[], &[]);
    let t = dir("C:\\in", vec![file("C:\\in\\ok.txt"), file("C:\\elsewhere\\no.txt")]);
    match plan(&c, &t) {
        Ok(_) => panic!("a file lies outside the source"),
        Err(e) => assert_eq!(e.path, "C:\\elsewhere\\no.txt"),
    }
}

#[test]
fn size_check_and_contents() {
    assert!(sizes_match(Some(3), Some(3)));
    assert!(!sizes_match(Some(3), Some(4)));
    assert!(!sizes_match(Some(3), None));
    assert!(!sizes_match(None, None));
    assert!(same_contents(b"abc", b"abc"));
    assert!(!same_contents(b"abc", b"abd"));
    assert!(!same_contents(b"abc", b"ab"));
}

#[test]
fn copy_if_changed_second_run_writes_nothing() {
    let src = b"hello".to_vec();
    assert!(must_write(&src, None));
    let dst = src.clone();
    assert!(!must_write(&src, Some(&dst)));
    assert_eq!(first_step(Strategy::CopyIfChanged, false), SyncStep::Finish(SyncOutcome::Skipped));
}

#[test]
fn copy_if_changed_detects_one_byte_change() {
    let dst = b"hello".to_vec();
    let mut src = dst.clone();
    src[1] = b'a';
    assert!(sizes_match(Some(src.len() as u64), Some(dst.len() as u64)));
    assert!(must_write(&src, Some(&dst)));
    assert!(must_write(b"hello!", Some(&dst)));
    assert_eq!(first_step(Strategy::CopyIfChanged, true), SyncStep::Perform(FileOp::CreateParent));
    assert_eq!(
        next_step(Strategy::CopyIfChanged, FileOp::CreateParent, true),
        (SyncStep::Perform(FileOp::Copy), false)
    );
}

#[test]
fn link_failure_falls_back_to_logged_copy() {
    let l = Strategy::LinkOrCopy;
    assert_eq!(first_step(l, false), SyncStep::Perform(FileOp::CreateParent));
    assert_eq!(next_step(l, FileOp::CreateParent, true), (SyncStep::Perform(FileOp::Link), false));
    assert_eq!(next_step(l, FileOp::Link, false), (SyncStep::Perform(FileOp::Copy), true));
    assert_eq!(next_step(l, FileOp::Copy, true), (SyncStep::Finish(SyncOutcome::Copied), false));
    assert_eq!(next_step(l, FileOp::Copy, false), (SyncStep::Finish(SyncOutcome::Failed), true));
    assert_eq!(next_step(l, FileOp::Link, true), (SyncStep::Finish(SyncOutcome::Linked), false));
}

#[test]
fn parent_creation_failure_ends_file_with_log() {
    assert_eq!(
        next_step(Strategy::CopyIfChanged, FileOp::CreateParent, false),
        (SyncStep::Finish(SyncOutcome::Failed), true)
    );
}

#[test]
fn failed_reads_mean_write() {
    assert!(stale_after_reads(None, Some(b"abc")));
    assert!(stale_after_reads(Some(b"abc"), None));
    assert!(!stale_after_reads(Some(b"abc"), Some(b"abc")));
    assert!(stale_after_reads(Some(b"abc"), Some(b"abd")));
}

#[test]
fn failure_record_layout() {
    let r = failure_record("T", "Couldn't copy", "C:\\out\\a.txt", "denied");
    assert_eq!(r, "\nT\nCouldn't copy C:\\out\\a.txt\ndenied\n");
}

#[test]
fn config_entries_are_normalized() {
    let c = cfg("in/", "out//mirror", &["/build/", "a/target"], &["marker.txt"]);
    assert_eq!(c.src, "in");
    assert_eq!(c.dst, "out\\mirror");
    assert_eq!(c.disallowed_dirs, vec!["build".to_string(), "a\\target".to_string()]);
    assert!(is_disallowed_dir(&c, "C:\\in\\x\\build"));
    assert!(is_disallowed_dir(&c, "C:\\in\\a\\target"));
    assert_eq!(
        map_path(&c, "C:\\in\\sub\\file.txt"),
        Some("C:\\out\\mirror\\sub\\file.txt".to_string())
    );
}
