use mote::archive::{Inspection, Member};
use mote::dedupe::Group;
use mote::ident::{Format, Kind};
use mote::plan::Action;
use mote::route::{claim, wants_inspection, Claimed, Router, Supersession};
use mote::rules::{Rule, Rules, Settings};
use mote::walk::Entry;

#[test]
fn colliding_names_get_suffixed_not_dropped() {
    let mut claimed = Claimed::new();
    let dir = "/out/images";

    let a = claim(&mut claimed, dir, "one/photo.jpg");
    let b = claim(&mut claimed, dir, "two/photo.jpg");
    let c = claim(&mut claimed, dir, "three/photo.jpg");

    assert_eq!(a, "/out/images/photo.jpg".to_string());
    assert_eq!(b, "/out/images/photo-2.jpg".to_string());
    assert_eq!(c, "/out/images/photo-3.jpg".to_string());
}

#[test]
fn extensionless_collisions_still_resolve() {
    let mut claimed = Claimed::new();
    let dir = "/out/misc";

    assert_eq!(claim(&mut claimed, dir, "LICENSE"), "/out/misc/LICENSE".to_string());
    assert_eq!(claim(&mut claimed, dir, "sub/LICENSE"), "/out/misc/LICENSE-2".to_string());
}

#[test]
fn a_claim_skips_every_taken_name() {
    let mut claimed = Claimed::new();
    assert!(claimed.insert("/d/a.tar.gz".to_string()));
    assert!(claimed.insert("/d//a.tar-2.gz".to_string()));
    assert!(!claimed.insert("/d/./a.tar-2.gz".to_string()));
    assert_eq!(claim(&mut claimed, "/d", "x/a.tar.gz"), "/d/a.tar-3.gz".to_string());
    assert_eq!(claimed.len(), 3);
    assert!(claimed.contains("/d/a.tar-3.gz"));
    assert!(!claimed.contains("/d/a.tar-4.gz"));
}

#[test]
fn the_same_path_is_not_claimed_twice_under_another_spelling() {
    let mut claimed = Claimed::new();
    assert_eq!(claim(&mut claimed, "/out/./x", "a.txt"), "/out/./x/a.txt".to_string());
    assert_eq!(claim(&mut claimed, "/out/x/", "b/a.txt"), "/out/x/a-2.txt".to_string());
}

fn group(hash: &str, size: u64, paths: &[&str]) -> Group {
    Group { hash: hash.to_string(), size, paths: paths.iter().map(|p| p.to_string()).collect() }
}

#[test]
fn a_group_sets_aside_all_but_its_least_path() {
    let groups = vec![group("abc", 5, &["/r/a", "/r/b", "/r/c"]), group("def", 9, &["/r/e", "/r/f"])];
    let s = Supersession::new(&groups);
    assert_eq!(s.lookup("/r/a"), None);
    assert_eq!(s.lookup("/r/b"), Some("abc".to_string()));
    assert_eq!(s.lookup("/r//c"), Some("abc".to_string()));
    assert_eq!(s.lookup("/r/d"), None);
    assert_eq!(s.lookup("/r/e"), None);
    assert_eq!(s.lookup("/r/f"), Some("def".to_string()));
}

#[test]
fn the_least_path_survives_whatever_the_listing_order() {
    let groups = vec![group("abc", 5, &["/r/b", "/r/a", "/r/c"])];
    let s = Supersession::new(&groups);
    assert_eq!(s.lookup("/r/a"), None);
    assert_eq!(s.lookup("/r/b"), Some("abc".to_string()));
    assert_eq!(s.lookup("/r/c"), Some("abc".to_string()));
}

#[test]
fn routing_steps_settle_duplicates_then_route_or_hand_back_archives() {
    let rules = rules();
    let groups = vec![group("0123456789abcdef99", 3, &["/src/a.txt", "/src/b.txt"])];
    let copies = Supersession::new(&groups);
    let mut r = Router::new();
    assert!(!r.settle_duplicate("/src", &entry("/src/b.txt", 3), &copies, &rules.settings));
    assert!(r.settle_duplicate("/src", &entry("/src/a.txt", 3), &copies, &rules.settings));
    let zip = Kind::Magic { mime: "application/zip".into() };
    assert_eq!(r.route_identified("/src", &entry("/src/x.zip", 9), &zip, true, &rules), Some(Format::Zip));
    let md = Kind::Extension { mime: "text/markdown".into() };
    assert_eq!(r.route_identified("/src", &entry("/src/a.md", 3), &md, true, &rules), None);
    let routed = r.finish();
    assert_eq!(routed.actions.len(), 2);
    match &routed.actions[0] {
        Action::Quarantine { reason, .. } => assert_eq!(reason, "duplicate of content 0123456789abcdef"),
        _ => panic!("expected a quarantine"),
    }
}

#[test]
fn inspection_needs_extraction_and_magic() {
    let zip = Kind::Magic { mime: "application/zip".into() };
    assert_eq!(wants_inspection(true, &zip), Some(Format::Zip));
    assert_eq!(wants_inspection(false, &zip), None);
}

fn rules() -> Rules {
    let settings = Settings {
        dest: "/out".to_string(),
        quarantine: "/out/.q".to_string(),
        extract_budget: 1000,
        max_ratio: 100,
        max_members: 10,
    };
    let images = Rule { types: vec!["image/".to_string()], ext: vec![], glob: vec![], to: "images".to_string() };
    let docs = Rule { types: vec![], ext: vec!["md".to_string()], glob: vec![], to: "docs".to_string() };
    Rules::compile(settings, vec![images, docs]).unwrap()
}

fn entry(path: &str, size: u64) -> Entry {
    Entry { path: path.to_string(), size }
}

#[test]
fn loose_files_are_moved_or_left() {
    let rules = rules();
    let mut r = Router::new();
    let png = Kind::Magic { mime: "image/png".into() };
    r.route_file("/src", &entry("/src/a/pic.bin", 3), &png, &rules);
    r.route_file("/src", &entry("/src/b/pic.bin", 3), &png, &rules);
    r.route_file("/src", &entry("/src/x.exe", 3), &Kind::Unknown, &rules);
    let routed = r.finish();
    assert_eq!(routed.unroutable, vec!["/src/x.exe".to_string()]);
    assert_eq!(routed.actions.len(), 2);
    match &routed.actions[0] {
        Action::Move { from, to } => {
            assert_eq!(from, "/src/a/pic.bin");
            assert_eq!(to, "/out/images/pic.bin");
        }
        _ => panic!("expected a move"),
    }
    match &routed.actions[1] {
        Action::Move { to, .. } => assert_eq!(to, "/out/images/pic-2.bin"),
        _ => panic!("expected a move"),
    }
}

#[test]
fn duplicates_are_quarantined_with_their_layout() {
    let rules = rules();
    let mut r = Router::new();
    let hash = "0123456789abcdef0123456789abcdef";
    r.quarantine_duplicate("/src", &entry("/src/d/copy.txt", 3), hash, &rules.settings);
    let routed = r.finish();
    match &routed.actions[0] {
        Action::Quarantine { from, to, reason } => {
            assert_eq!(from, "/src/d/copy.txt");
            assert_eq!(to, "/out/.q/d/copy.txt");
            assert_eq!(reason, "duplicate of content 0123456789abcdef");
        }
        _ => panic!("expected a quarantine"),
    }
}

#[test]
fn archive_members_are_routed_one_by_one() {
    let rules = rules();
    let mut r = Router::new();
    let members = vec![
        Member { name: "notes.md".to_string(), size: 4, kind: Kind::Extension { mime: "text/markdown".into() } },
        Member { name: "bin/tool".to_string(), size: 8, kind: Kind::Unknown },
    ];
    r.route_archive("/src", &entry("/src/a.zip", 50), Format::Zip, Ok(Inspection::Contents(members)), &rules);
    r.route_archive(
        "/src",
        &entry("/src/bomb.zip", 50),
        Format::Zip,
        Ok(Inspection::Rejected("too big".to_string())),
        &rules,
    );
    r.route_archive("/src", &entry("/src/bad.zip", 50), Format::Zip, Err("eof".to_string()), &rules);
    let routed = r.finish();
    assert_eq!(routed.unroutable, vec!["/src/a.zip/bin/tool".to_string()]);
    assert_eq!(routed.actions.len(), 3);
    match &routed.actions[0] {
        Action::Extract { from, format, members } => {
            assert_eq!(from, "/src/a.zip");
            assert_eq!(*format, Format::Zip);
            assert_eq!(members.len(), 1);
            assert_eq!(members[0].name, "notes.md");
            assert_eq!(members[0].to, "/out/docs/notes.md");
            assert_eq!(members[0].size, 4);
        }
        _ => panic!("expected an extraction"),
    }
    match &routed.actions[1] {
        Action::Quarantine { to, reason, .. } => {
            assert_eq!(to, "/out/.q/bomb.zip");
            assert_eq!(reason, "too big");
        }
        _ => panic!("expected a quarantine"),
    }
    match &routed.actions[2] {
        Action::Quarantine { reason, .. } => assert_eq!(reason, "could not be read as an archive: eof"),
        _ => panic!("expected a quarantine"),
    }
}

#[test]
fn every_scanned_file_gets_at_most_one_action_and_a_rescan_agrees() {
    let rules = rules();
    let groups = vec![group("0123456789abcdef99", 3, &["/src/a.txt", "/src/b.txt"])];
    let copies = Supersession::new(&groups);
    let md = Kind::Extension { mime: "text/markdown".into() };
    let scan = || {
        let mut r = Router::new();
        for e in [entry("/src/a.md", 3), entry("/src/b.txt", 3), entry("/src/c.md", 3)] {
            if r.settle_duplicate("/src", &e, &copies, &rules.settings) {
                assert_eq!(r.route_identified("/src", &e, &md, true, &rules), None);
            }
        }
        r.finish()
    };
    let first = scan();
    let second = scan();
    assert_eq!(first.actions.len(), 3);
    let froms: Vec<&str> = first
        .actions
        .iter()
        .map(|a| match a {
            Action::Move { from, .. } | Action::Quarantine { from, .. } | Action::Extract { from, .. } => from.as_str(),
        })
        .collect();
    assert_eq!(froms, vec!["/src/a.md", "/src/b.txt", "/src/c.md"]);
    assert_eq!(format!("{:?}", first.actions), format!("{:?}", second.actions));
    assert_eq!(first.unroutable, second.unroutable);
}
