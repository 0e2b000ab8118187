//! Outputs that are built beside their destinations, committed all at once or not at all, on a
//! folder held in a map.

use lh_core::error::Error;
use lh_core::output::{commit_error, uncommit, TempOutput};
use std::collections::BTreeMap;

type Folder = BTreeMap<String, Vec<u8>>;

fn commit_all(fs: &mut Folder, outputs: &[TempOutput]) -> Result<Vec<String>, Error> {
    let mut done = Vec::new();
    for i in 0..outputs.len() {
        match fs.remove(outputs[i].path()) {
            Some(data) => {
                fs.insert(outputs[i].destination().to_string(), data);
                done.push(outputs[i].destination().to_string());
            }
            None => {
                for p in uncommit(outputs, i) {
                    fs.remove(&p);
                }
                return Err(commit_error(outputs, i, "No such file"));
            }
        }
    }
    Ok(done)
}

#[test]
fn commit_all_renames_every_output() {
    let mut fs: Folder = BTreeMap::new();
    let a = TempOutput::stage("d/dst_a", false, false, false, 7).unwrap();
    fs.insert(a.path().to_string(), b"fixed a".to_vec());
    let b = TempOutput::stage("d/dst_b", false, false, false, 7).unwrap();
    fs.insert(b.path().to_string(), b"fixed b".to_vec());
    let committed = commit_all(&mut fs, &[a, b]).unwrap();
    assert_eq!(committed, vec!["d/dst_a".to_string(), "d/dst_b".to_string()]);
    assert_eq!(fs["d/dst_a"], b"fixed a");
    assert_eq!(fs["d/dst_b"], b"fixed b");
}

/// An earlier output of the same batch does not survive alone.
#[test]
fn commit_all_undoes_earlier_renames_when_a_later_one_fails() {
    let mut fs: Folder = BTreeMap::new();
    let a = TempOutput::stage("d/dst_a", false, false, false, 7).unwrap();
    fs.insert(a.path().to_string(), b"fixed a".to_vec());
    let b = TempOutput::stage("d/dst_b", false, false, false, 7).unwrap();
    let err = commit_all(&mut fs, &[a, b]).unwrap_err();
    assert!(matches!(err, Error::Io { .. }), "{}", err.to_string());
    assert!(!fs.contains_key("d/dst_a"), "the first file must not survive alone");
    assert!(!fs.contains_key("d/dst_b"));
}

#[test]
fn an_output_is_built_under_a_hidden_name_beside_its_destination() {
    let t = TempOutput::stage("d/show.flac", false, false, false, 42).unwrap();
    assert!(t.path().starts_with("d/."), "{}", t.path());
    assert!(t.path().contains("42"), "{}", t.path());
    assert_eq!(t.destination(), "d/show.flac");
}

#[test]
fn nothing_is_replaced_unless_asked_and_an_input_never() {
    let err = TempOutput::stage("d/x.flac", false, true, false, 1).unwrap_err();
    assert_eq!(
        err.to_string(),
        "d/x.flac already exists; refusing to overwrite it"
    );
    assert!(TempOutput::stage("d/x.flac", false, true, true, 1).is_ok());
    let err = TempOutput::stage("d/x.flac", true, true, true, 1).unwrap_err();
    assert_eq!(
        err.to_string(),
        "d/x.flac: the output is the input; that would destroy the original"
    );
}
