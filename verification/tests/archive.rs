use mote::archive::{
    admit_zip_member, check_written, extract, head_len, safe_name, unreadable, zip_preflight,
    Admission, Inspection, Listing, Unreadable, PEEK,
};
use mote::plan::PlannedMember;
use mote::rules::Settings;

#[test]
fn traversal_is_refused() {
    assert_eq!(safe_name("../../etc/passwd"), None);
    assert_eq!(safe_name("a/../../b"), None);
    assert_eq!(safe_name("/etc/passwd"), None);
    assert_eq!(safe_name("\\windows\\system32"), None);
    assert_eq!(safe_name("C:/Windows"), None);
    assert_eq!(safe_name("a/..\\b"), None);
    assert_eq!(safe_name(""), None);
    assert_eq!(safe_name("bad\0name"), None);
}

#[test]
fn ordinary_names_survive_intact() {
    assert_eq!(safe_name("a/b/c.txt"), Some("a/b/c.txt".to_string()));
    assert_eq!(safe_name("./a/./b.txt"), Some("a/b.txt".to_string()));
    assert_eq!(safe_name("photo.jpg"), Some("photo.jpg".to_string()));
}

#[test]
fn a_dot_only_name_is_not_a_file() {
    assert_eq!(safe_name("."), None);
    assert_eq!(safe_name("./"), None);
}

#[test]
fn doubled_separators_collapse() {
    assert_eq!(safe_name("a//b///c"), Some("a/b/c".to_string()));
    assert_eq!(safe_name("dir/"), Some("dir".to_string()));
}

#[test]
fn a_drive_letter_behind_dots_is_refused() {
    assert_eq!(safe_name("./C:/Windows"), None);
    assert_eq!(safe_name(".//d:x"), None);
    assert_eq!(safe_name("a/C:/x"), Some("a/C:/x".to_string()));
}

#[test]
fn a_zip_whose_sizes_overflow_is_refused_not_wrapped() {
    let s = settings(1000, 10, 10);
    let mut l = Listing::new();
    l.record("a".to_string(), 1 << 63, b"");
    l.record("b".to_string(), 1 << 63, b"");
    match l.finish(100, &s) {
        Inspection::Rejected(r) => {
            assert_eq!(r, "expands to 18446744073709551616 bytes, over the 1000 byte budget")
        }
        _ => panic!("over budget"),
    }
}

#[test]
fn a_dot_dot_inside_a_name_is_allowed() {
    assert_eq!(safe_name("a..b/c"), Some("a..b/c".to_string()));
}

fn settings(budget: u64, ratio: u64, members: usize) -> Settings {
    Settings {
        dest: "/out".to_string(),
        quarantine: "/out/q".to_string(),
        extract_budget: budget,
        max_ratio: ratio,
        max_members: members,
    }
}

fn planned(name: &str, to: &str, size: u64) -> PlannedMember {
    PlannedMember { name: name.to_string(), to: to.to_string(), size }
}

#[test]
fn extraction_writes_only_what_the_plan_names() {
    let plan = vec![planned("a/x.txt", "/out/docs/x.txt", 3), planned("b.jpg", "/out/img/b.jpg", 9)];
    assert_eq!(extract(&plan, true, "a/x.txt"), Some("/out/docs/x.txt".to_string()));
    assert_eq!(extract(&plan, true, "./a//x.txt"), Some("/out/docs/x.txt".to_string()));
    assert_eq!(extract(&plan, true, "b.jpg"), Some("/out/img/b.jpg".to_string()));
    assert_eq!(extract(&plan, true, "c.jpg"), None);
    assert_eq!(extract(&plan, false, "b.jpg"), None);
    assert_eq!(extract(&plan, true, "../b.jpg"), None);
}

#[test]
fn the_last_planned_member_of_a_name_wins() {
    let plan = vec![planned("x", "/out/one", 1), planned("x", "/out/two", 1)];
    assert_eq!(extract(&plan, true, "x"), Some("/out/two".to_string()));
}

#[test]
fn a_short_member_is_an_error() {
    assert_eq!(check_written("/out/a", 5, 5), Ok(()));
    assert_eq!(
        check_written("/out/a", 5, 3),
        Err("/out/a: archive declared 5 bytes but held 3".to_string())
    );
}

#[test]
fn zip_entries_are_admitted_by_name() {
    assert!(matches!(admit_zip_member(true, "dir/"), Admission::Skip));
    match admit_zip_member(false, "./docs/a.txt") {
        Admission::Take(n) => assert_eq!(n, "docs/a.txt"),
        _ => panic!("expected the member to be kept"),
    }
    match admit_zip_member(false, "../evil") {
        Admission::Reject(r) => assert_eq!(r, "member \"../evil\" escapes the extraction directory"),
        _ => panic!("expected the archive to be refused"),
    }
}

#[test]
fn too_many_zip_members_refuse_the_archive() {
    let s = settings(1000, 10, 3);
    assert_eq!(zip_preflight(3, &s), None);
    assert_eq!(zip_preflight(4, &s), Some("holds 4 members, over the 3 limit".to_string()));
}

#[test]
fn unreadable_archives_say_why() {
    assert_eq!(unreadable(Unreadable::Zip, "bad"), "unreadable zip: bad");
    assert_eq!(unreadable(Unreadable::ZipMember(7), "crc"), "member 7: crc");
    assert_eq!(unreadable(Unreadable::Tar, "eof"), "unreadable tar: eof");
    assert_eq!(unreadable(Unreadable::TarEntry, "x"), "bad tar entry: x");
}

#[test]
fn heads_are_capped_at_peek() {
    assert_eq!(head_len(10), 10);
    assert_eq!(head_len(0), 0);
    assert_eq!(head_len(1 << 40), PEEK);
}

#[test]
fn a_tar_is_refused_as_soon_as_it_passes_the_budget() {
    let s = settings(100, 1000, 10);
    let mut l = Listing::new();
    match l.admit_tar(true, "a.txt", 60, &s) {
        Admission::Take(n) => l.record(n, 60, b"hello"),
        _ => panic!("first member fits"),
    }
    assert!(matches!(l.admit_tar(false, "dir", 0, &s), Admission::Skip));
    match l.admit_tar(true, "b.txt", 60, &s) {
        Admission::Reject(r) => assert_eq!(r, "expands past the 100 byte budget"),
        _ => panic!("second member is over budget"),
    }
}

#[test]
fn a_tar_with_too_many_members_is_refused() {
    let s = settings(1000, 1000, 1);
    let mut l = Listing::new();
    match l.admit_tar(true, "a", 1, &s) {
        Admission::Take(n) => l.record(n, 1, b""),
        _ => panic!("first member fits"),
    }
    assert_eq!(l.len(), 1);
    match l.admit_tar(true, "b", 1, &s) {
        Admission::Reject(r) => assert_eq!(r, "holds more than 1 members"),
        _ => panic!("second member is one too many"),
    }
}

#[test]
fn finishing_checks_the_budget_and_the_ratio() {
    let s = settings(100, 10, 10);
    let mut l = Listing::new();
    l.record("a".to_string(), 150, b"");
    match l.finish(1000, &s) {
        Inspection::Rejected(r) => assert_eq!(r, "expands to 150 bytes, over the 100 byte budget"),
        _ => panic!("over budget"),
    }

    let mut l = Listing::new();
    l.record("a".to_string(), 60, b"");
    l.record("b".to_string(), 40, b"");
    match l.finish(5, &s) {
        Inspection::Rejected(r) => assert_eq!(r, "expands 20x its own size, over the 10x limit"),
        _ => panic!("over the ratio"),
    }

    let mut l = Listing::new();
    l.record("a.md".to_string(), 60, b"# hi\n");
    match l.finish(0, &s) {
        Inspection::Contents(ms) => {
            assert_eq!(ms.len(), 1);
            assert_eq!(ms[0].name, "a.md");
            assert_eq!(ms[0].size, 60);
            assert_eq!(ms[0].kind.mime(), "text/markdown");
        }
        _ => panic!("within limits"),
    }
}
