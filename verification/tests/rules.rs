use mote::ident::Kind;
use mote::rules::{default_budget, default_max_members, default_ratio, Rule, Rules, RulesError, Settings};

fn settings() -> Settings {
    Settings {
        dest: "/out".to_string(),
        quarantine: "/out/.q".to_string(),
        extract_budget: 1,
        max_ratio: 1,
        max_members: 1,
    }
}

fn rule(types: &[&str], ext: &[&str], glob: &[&str], to: &str) -> Rule {
    Rule {
        types: types.iter().map(|s| s.to_string()).collect(),
        ext: ext.iter().map(|s| s.to_string()).collect(),
        glob: glob.iter().map(|s| s.to_string()).collect(),
        to: to.to_string(),
    }
}

#[test]
fn defaults_are_generous_but_finite() {
    assert_eq!(default_budget(), 8 * 1024 * 1024 * 1024);
    assert_eq!(default_ratio(), 100);
    assert_eq!(default_max_members(), 10_000);
    let s = Settings::default();
    assert_eq!(s.dest, "sorted");
    assert_eq!(s.quarantine, "sorted/.mote-quarantine");
    assert_eq!(s.extract_budget, 8589934592);
    assert_eq!(s.max_ratio, 100);
    assert_eq!(s.max_members, 10000);
}

#[test]
fn the_first_matching_rule_wins() {
    let rules = Rules::compile(
        settings(),
        vec![
            rule(&["image/"], &[], &[], "images"),
            rule(&["image/png"], &[], &[], "pngs"),
            rule(&[], &[], &[], "/elsewhere/unsorted"),
        ],
    )
    .unwrap();
    let png = Kind::Magic { mime: "image/png".into() };
    assert_eq!(rules.route("a/b.png", &png), Some("/out/images".to_string()));
    assert_eq!(rules.route("a/b.txt", &Kind::Unknown), Some("/elsewhere/unsorted".to_string()));
}

#[test]
fn nothing_matches_without_a_catch_all() {
    let rules = Rules::compile(settings(), vec![rule(&["video/"], &[], &[], "video")]).unwrap();
    assert_eq!(rules.route("clip.png", &Kind::Magic { mime: "image/png".into() }), None);
    assert_eq!(rules.route("", &Kind::Unknown), None);
}

#[test]
fn types_compare_without_case_and_by_family() {
    let rules = Rules::compile(
        settings(),
        vec![rule(&["Application/PDF"], &[], &[], "docs"), rule(&["text/"], &[], &[], "text")],
    )
    .unwrap();
    assert_eq!(
        rules.route("x", &Kind::Magic { mime: "application/pdf".into() }),
        Some("/out/docs".to_string())
    );
    assert_eq!(
        rules.route("x", &Kind::Extension { mime: "text/markdown".into() }),
        Some("/out/text".to_string())
    );
    assert_eq!(rules.route("x", &Kind::Unknown), None);
}

#[test]
fn extensions_compare_without_case() {
    let rules = Rules::compile(settings(), vec![rule(&[], &["DOCX"], &[], "docs")]).unwrap();
    assert_eq!(rules.route("dir/Report.DocX", &Kind::Unknown), Some("/out/docs".to_string()));
    assert_eq!(rules.route("dir/docx", &Kind::Unknown), None);
}

#[test]
fn globs_match_the_name_or_the_relative_path() {
    let rules = Rules::compile(
        settings(),
        vec![rule(&[], &[], &["*.rs"], "code"), rule(&[], &[], &["vendor/**"], "vendored")],
    )
    .unwrap();
    assert_eq!(rules.route("src/MAIN.RS", &Kind::Unknown), Some("/out/code".to_string()));
    assert_eq!(rules.route("vendor/x/y.c", &Kind::Unknown), Some("/out/vendored".to_string()));
    assert_eq!(rules.route("src/y.c", &Kind::Unknown), None);
}

#[test]
fn a_bad_glob_is_refused_with_its_rule() {
    match Rules::compile(settings(), vec![rule(&[], &[], &["ok*"], "a"), rule(&[], &[], &["a[", "b"], "b")]) {
        Err(RulesError::BadGlob { rule, pattern, cause }) => {
            assert_eq!(rule, 1);
            assert_eq!(pattern, "a[");
            assert!(!cause.is_empty());
        }
        other => panic!("expected a bad glob, got {:?}", other.err()),
    }
}

#[test]
fn an_empty_rule_list_is_refused() {
    assert!(matches!(Rules::compile(settings(), vec![]), Err(RulesError::NoRules)));
}

#[test]
fn destinations_resolve_under_dest() {
    let rules = Rules::compile(settings(), vec![rule(&[], &[], &[], "x")]).unwrap();
    assert_eq!(rules.resolve("images"), "/out/images");
    assert_eq!(rules.resolve("/abs/images"), "/abs/images");
    assert_eq!(rules.settings().dest, "/out");
}

#[test]
fn a_glob_too_large_to_compile_is_refused() {
    let huge = "?".repeat(500_000);
    match Rules::compile(settings(), vec![rule(&[], &[], &["*.txt"], "a"), rule(&[], &[], &[huge.as_str()], "b")]) {
        Err(RulesError::Unbuildable { rule, cause }) => {
            assert_eq!(rule, 1);
            assert!(!cause.is_empty());
        }
        other => panic!("expected the set not to build, got {:?}", other.err()),
    }
}

#[test]
fn a_rule_without_matchers_matches_everything() {
    let r = rule(&[], &[], &[], "x");
    assert!(r.matches(&Kind::Unknown, &[], None, "a/b", "b"));
    let e = rule(&[], &["md"], &[], "x");
    assert!(e.matches(&Kind::Unknown, &['m', 'd'], None, "a.md", "a.md"));
    assert!(!e.matches(&Kind::Unknown, &[], None, "a", "a"));
}
