use mote::apply::{member_step, move_step, MemberStep, MoveStep};
use mote::dedupe::Group;
use mote::ident::Format;
use mote::plan::{Action, Plan, PlannedMember};

fn plan() -> Plan {
    Plan {
        root: "/src".to_string(),
        scanned: 9,
        actions: vec![
            Action::Move { from: "/src/a".to_string(), to: "/out/a".to_string() },
            Action::Quarantine { from: "/src/b".to_string(), to: "/q/b".to_string(), reason: "dup".to_string() },
            Action::Extract {
                from: "/src/c.zip".to_string(),
                format: Format::Zip,
                members: vec![
                    PlannedMember { name: "x".to_string(), to: "/out/x".to_string(), size: 10 },
                    PlannedMember { name: "y/z".to_string(), to: "/out/z".to_string(), size: 32 },
                ],
            },
            Action::Move { from: "/src/d".to_string(), to: "/out/d".to_string() },
        ],
        duplicates: vec![
            Group { hash: "h".to_string(), size: 100, paths: vec!["1".to_string(), "2".to_string(), "3".to_string()] },
            Group { hash: "g".to_string(), size: 7, paths: vec!["4".to_string(), "5".to_string()] },
        ],
        unroutable: vec![],
    }
}

#[test]
fn the_tally_counts_each_kind() {
    assert_eq!(plan().tally(), (2, 1, 1));
}

#[test]
fn reclaimable_is_every_extra_copy() {
    assert_eq!(plan().reclaimable(), 207);
}

#[test]
fn extracted_bytes_sum_the_members() {
    assert_eq!(plan().extracted_bytes(), 42);
}

#[test]
fn a_dry_run_describes_every_action() {
    let p = plan();
    assert_eq!(p.actions[0].describe(), vec!["move      /src/a -> /out/a"]);
    assert_eq!(p.actions[1].describe(), vec!["quarantine /src/b -> /q/b (dup)"]);
    assert_eq!(
        p.actions[2].describe(),
        vec![
            "extract   /src/c.zip (2 members)",
            "             x -> /out/x",
            "             y/z -> /out/z",
        ]
    );
}

#[test]
fn apply_never_clobbers_and_can_be_rerun() {
    assert_eq!(move_step(true, false), MoveStep::Relocate);
    assert_eq!(move_step(true, true), MoveStep::DestinationTaken);
    assert_eq!(move_step(false, true), MoveStep::AlreadyDone);
    assert_eq!(move_step(false, false), MoveStep::AlreadyDone);
}

#[test]
fn an_existing_member_destination_is_left_alone() {
    assert_eq!(member_step(false), MemberStep::Write);
    assert_eq!(member_step(true), MemberStep::AlreadyThere);
}
