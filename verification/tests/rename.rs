//! Renaming a set: the plan, and the steps that carry it out on a folder held in a map.

use lh_core::error::Error;
use lh_core::etree::ShowDate;
use lh_core::rename::execute::{
    check_rename, rename_steps, renamed, step_error, undo_steps, RenameStep,
};
use lh_core::rename::plan::{plan_rename, NameSpec, RenameEntry, RenamePlan, RenameStatus};
use std::collections::BTreeMap;

type Folder = BTreeMap<String, Vec<u8>>;

fn spec() -> NameSpec {
    NameSpec {
        band: "gd".to_string(),
        date: ShowDate::new(1977, 5, 8).unwrap(),
        short_year: false,
        disc: None,
        keep_suffix: false,
    }
}

fn paths(names: &[&str]) -> Vec<String> {
    names.iter().map(|n| n.to_string()).collect()
}

#[test]
fn tracks_are_numbered_by_position_and_zero_padded() {
    let files = paths(&["show/a.flac", "show/b.flac", "show/c.flac"]);
    let plan = plan_rename(&files, &spec());
    assert_eq!(
        plan.entries.iter().map(|e| e.to.as_str()).collect::<Vec<_>>(),
        [
            "show/gd1977-05-08t01.flac",
            "show/gd1977-05-08t02.flac",
            "show/gd1977-05-08t03.flac",
        ]
    );
    assert!(plan.entries.iter().all(|e| e.status == RenameStatus::Changed));
}

#[test]
fn a_file_already_named_correctly_is_unchanged() {
    let files = paths(&["show/gd1977-05-08t01.flac"]);
    let plan = plan_rename(&files, &spec());
    assert_eq!(plan.entries[0].status, RenameStatus::Unchanged);
    assert_eq!(plan.entries[0].to, plan.entries[0].from);
}

#[test]
fn short_year_and_disc_render_into_the_target() {
    let files = paths(&["show/a.shn"]);
    let mut s = spec();
    s.short_year = true;
    s.disc = Some(2);
    let plan = plan_rename(&files, &s);
    assert_eq!(plan.entries[0].to, "show/gd77-05-08d2t01.shn");
}

#[test]
fn keep_suffix_carries_an_existing_title_forward() {
    let files = paths(&["show/gd1973-02-09d1t01bertha.shn"]);
    let mut s = spec();
    s.keep_suffix = true;
    s.disc = Some(1);
    s.date = ShowDate::new(1973, 2, 9).unwrap();
    let plan = plan_rename(&files, &s);
    assert_eq!(plan.entries[0].to, "show/gd1973-02-09d1t01bertha.shn");
    assert_eq!(plan.entries[0].status, RenameStatus::Unchanged);
}

/// Without `keep_suffix`, an existing title suffix is dropped, not carried.
#[test]
fn suffix_is_dropped_unless_keep_suffix_is_set() {
    let files = paths(&["show/gd1973-02-09d1t01bertha.shn"]);
    let mut s = spec();
    s.disc = Some(1);
    s.date = ShowDate::new(1973, 2, 9).unwrap();
    let plan = plan_rename(&files, &s);
    assert_eq!(plan.entries[0].to, "show/gd1973-02-09d1t01.shn");
    assert_eq!(plan.entries[0].status, RenameStatus::Changed);
}

#[test]
fn a_non_etree_name_has_no_suffix_to_keep() {
    let files = paths(&["show/01 - Bertha.flac"]);
    let mut s = spec();
    s.keep_suffix = true;
    let plan = plan_rename(&files, &s);
    assert_eq!(plan.entries[0].to, "show/gd1977-05-08t01.flac");
}

fn one(fs: &mut Folder, step: &RenameStep, blocked: &[&str]) -> Result<(), String> {
    if blocked.contains(&step.to.as_str()) {
        return Err("Is a directory".to_string());
    }
    match fs.remove(&step.from) {
        Some(data) => {
            fs.insert(step.to.clone(), data);
            Ok(())
        }
        None => Err("No such file".to_string()),
    }
}

/// Carries a plan out, and takes it back where a step fails.
fn execute_rename(
    fs: &mut Folder,
    plan: &RenamePlan,
    blocked: &[&str],
) -> Result<Vec<String>, Error> {
    let taken: Vec<bool> = plan.entries.iter().map(|e| fs.contains_key(&e.to)).collect();
    check_rename(plan, &taken)?;
    let steps = rename_steps(plan, 4711);
    for i in 0..steps.len() {
        if let Err(e) = one(fs, &steps[i], blocked) {
            for undo in undo_steps(&steps, i) {
                let _ = one(fs, &undo, &[]);
            }
            return Err(step_error(&steps, i, &e));
        }
    }
    Ok(renamed(plan))
}

fn entry(from: &str, to: &str, status: RenameStatus) -> RenameEntry {
    RenameEntry {
        from: from.to_string(),
        to: to.to_string(),
        status,
    }
}

/// A plan cannot collide by itself, but one that does is refused, and nothing is touched.
#[test]
fn execute_rename_refuses_a_collision() {
    let mut fs: Folder = BTreeMap::new();
    fs.insert("d/a.flac".to_string(), b"a".to_vec());
    fs.insert("d/b.flac".to_string(), b"b".to_vec());
    let plan = RenamePlan {
        entries: vec![
            entry("d/a.flac", "d/gd1977-05-08t01.flac", RenameStatus::Collision),
            entry("d/b.flac", "d/gd1977-05-08t01.flac", RenameStatus::Collision),
        ],
    };
    assert!(plan.has_collisions());
    let err = execute_rename(&mut fs, &plan, &[]).unwrap_err();
    assert!(err.to_string().contains("collision"), "{}", err.to_string());
    assert!(fs.contains_key("d/a.flac"));
    assert!(fs.contains_key("d/b.flac"));
}

/// A permutation is what the two phases are for: renaming directly would clobber one file.
#[test]
fn execute_rename_handles_a_full_permutation() {
    let first = "d/gd1977-05-08t02.flac"; // holds what should become t01
    let second = "d/gd1977-05-08t01.flac"; // holds what should become t02
    let mut fs: Folder = BTreeMap::new();
    fs.insert(first.to_string(), b"track one content".to_vec());
    fs.insert(second.to_string(), b"track two content".to_vec());
    let plan = plan_rename(&paths(&[first, second]), &spec());
    assert_eq!(plan.entries[0].status, RenameStatus::Changed);
    assert_eq!(plan.entries[1].status, RenameStatus::Changed);
    let result = execute_rename(&mut fs, &plan, &[]).unwrap();
    assert_eq!(result, vec![second.to_string(), first.to_string()]);
    assert_eq!(fs[second], b"track one content");
    assert_eq!(fs[first], b"track two content");
    assert_eq!(fs.len(), 2);
}

/// Through a temporary name, a rename that only changes the case is a real one everywhere.
#[test]
fn execute_rename_handles_a_case_only_rename() {
    let mut fs: Folder = BTreeMap::new();
    fs.insert("d/GD1977-05-08T01.flac".to_string(), b"audio".to_vec());
    let plan = RenamePlan {
        entries: vec![entry(
            "d/GD1977-05-08T01.flac",
            "d/gd1977-05-08t01.flac",
            RenameStatus::Changed,
        )],
    };
    let steps = rename_steps(&plan, 4711);
    assert_eq!(steps.len(), 2);
    assert_eq!(steps[0].to, steps[1].from);
    assert_ne!(steps[0].to, steps[1].to);
    let result = execute_rename(&mut fs, &plan, &[]).unwrap();
    assert_eq!(result, vec!["d/gd1977-05-08t01.flac".to_string()]);
    assert_eq!(fs["d/gd1977-05-08t01.flac"], b"audio");
}

/// A failure in the second phase leaves every file back where it started.
#[test]
fn a_failure_rolls_back_every_completed_rename() {
    let mut fs: Folder = BTreeMap::new();
    for n in ["a", "b", "c"] {
        fs.insert(format!("d/{n}"), n.as_bytes().to_vec());
    }
    let before = fs.clone();
    let plan = RenamePlan {
        entries: vec![
            entry("d/a", "d/a-new", RenameStatus::Changed),
            entry("d/b", "d/b-new", RenameStatus::Changed),
            entry("d/c", "d/c-new", RenameStatus::Changed),
        ],
    };
    let err = execute_rename(&mut fs, &plan, &["d/c-new"]).unwrap_err();
    assert!(matches!(err, Error::Io { .. }), "{}", err.to_string());
    assert_eq!(fs, before);
}

/// So does one in the first.
#[test]
fn a_failure_in_the_first_phase_rolls_back_too() {
    let mut fs: Folder = BTreeMap::new();
    fs.insert("d/a".to_string(), b"a".to_vec());
    let before = fs.clone();
    let plan = RenamePlan {
        entries: vec![
            entry("d/a", "d/a-new", RenameStatus::Changed),
            entry("d/gone", "d/b-new", RenameStatus::Changed),
        ],
    };
    let err = execute_rename(&mut fs, &plan, &[]).unwrap_err();
    assert_eq!(err.to_string(), "d/gone: No such file");
    assert_eq!(fs, before);
}

/// A file that is not part of the plan is never overwritten.
#[test]
fn a_file_outside_the_plan_blocks_it() {
    let mut fs: Folder = BTreeMap::new();
    fs.insert("d/a".to_string(), b"a".to_vec());
    fs.insert("d/gd1977-05-08t01".to_string(), b"other".to_vec());
    let plan = RenamePlan {
        entries: vec![entry("d/a", "d/gd1977-05-08t01", RenameStatus::Changed)],
    };
    let err = execute_rename(&mut fs, &plan, &[]).unwrap_err();
    assert_eq!(
        err.to_string(),
        "d/gd1977-05-08t01 already exists; refusing to overwrite it"
    );
    assert_eq!(fs["d/gd1977-05-08t01"], b"other");
}

/// Planned again from where it put them, a set stays as it is.
#[test]
fn planning_again_changes_nothing() {
    for folder in ["show/", "", "/", "a/./b//"] {
        let files = paths(&["x.flac", "No Extension", ".hidden", "two.dots.shn"])
            .iter()
            .map(|n| format!("{folder}{n}"))
            .collect::<Vec<_>>();
        let first = plan_rename(&files, &spec());
        let targets: Vec<String> = first.entries.iter().map(|e| e.to.clone()).collect();
        let again = plan_rename(&targets, &spec());
        for (a, b) in first.entries.iter().zip(&again.entries) {
            assert_eq!(b.status, RenameStatus::Unchanged);
            assert_eq!(a.to, b.to);
        }
        assert!(targets[0].ends_with("gd1977-05-08t01.flac"), "{}", targets[0]);
        assert!(targets[1].ends_with("gd1977-05-08t02."), "{}", targets[1]);
        assert!(targets[2].ends_with("gd1977-05-08t03.hidden"), "{}", targets[2]);
        assert!(targets[3].ends_with("gd1977-05-08t04.shn"), "{}", targets[3]);
    }
}
