use soundcheck::batch::{execute, failure, Act, Outcome};
use std::collections::BTreeMap;

type Disk = BTreeMap<String, String>;

/// Renames one file, only where nothing is at the new name.
fn rename(disk: &mut Disk, from: &str, to: &str) -> Outcome {
    if disk.contains_key(to) {
        return Outcome::Exists("File exists".into());
    }
    match disk.remove(from) {
        Some(body) => {
            disk.insert(to.to_owned(), body);
            Outcome::Done
        }
        None => Outcome::Failed("no such file".into()),
    }
}

fn run(disk: &mut Disk, renames: &[(String, String)]) -> Result<(), String> {
    let mut batch = execute(renames, 7);
    loop {
        match batch.act() {
            Act::Finished(result) => return result,
            Act::Rename { from, to } => batch.took(rename(disk, &from, &to)),
        }
    }
}

fn p(name: &str) -> String {
    format!("/batch/{name}")
}

fn disk(files: &[(&str, &str)]) -> Disk {
    files
        .iter()
        .map(|(name, body)| (p(name), (*body).to_owned()))
        .collect()
}

#[test]
fn a_batch_swaps_chains_and_changes_case_and_undoes_cleanly() {
    let start = disk(&[("a.wav", "A"), ("b.wav", "B"), ("c.wav", "C")]);
    let mut files = start.clone();
    // a and b swap; c moves to d; b's case changes on the way.
    let batch = vec![
        (p("a.wav"), p("B.wav")),
        (p("b.wav"), p("a.wav")),
        (p("c.wav"), p("d.wav")),
    ];
    run(&mut files, &batch).unwrap();
    assert_eq!(
        (files[&p("a.wav")].as_str(), files[&p("d.wav")].as_str()),
        ("B", "C")
    );
    assert!(files.contains_key(&p("B.wav")) && !files.contains_key(&p("c.wav")));
    let undo: Vec<(String, String)> = batch.iter().map(|(a, b)| (b.clone(), a.clone())).collect();
    run(&mut files, &undo).unwrap();
    assert_eq!(files, start);
}

#[test]
fn a_batch_that_cannot_finish_leaves_every_file_as_it_was() {
    let start = disk(&[
        ("a.wav", "a.wav"),
        ("b.wav", "b.wav"),
        ("taken.wav", "taken.wav"),
    ]);
    let mut files = start.clone();
    // The second rename would land on a file outside the batch.
    let batch = vec![(p("a.wav"), p("x.wav")), (p("b.wav"), p("taken.wav"))];
    let error = run(&mut files, &batch).unwrap_err();
    assert!(error.starts_with("Nothing renamed"), "{error}");
    assert_eq!(files, start);
}

#[test]
fn a_parking_name_that_is_taken_is_passed_over() {
    let mut files = disk(&[("a.wav", "A")]);
    let mut batch = execute(&[(p("a.wav"), p("b.wav"))], 7);
    let Act::Rename { from, to } = batch.act() else {
        panic!("there is a file to rename");
    };
    assert_eq!(from, p("a.wav"));
    batch.took(Outcome::Exists("File exists".into()));
    let Act::Rename { to: other, .. } = batch.act() else {
        panic!("it is tried again");
    };
    assert_ne!(to, other);
    files.insert(to, "other".into());
    run(&mut files, &[(p("a.wav"), p("b.wav"))]).unwrap();
    assert_eq!(files[&p("b.wav")], "A");
}

#[test]
fn a_batch_of_nothing_is_done() {
    let same = [(p("a.wav"), p("a.wav"))];
    assert!(matches!(execute(&same, 7).act(), Act::Finished(Ok(()))));
    assert!(matches!(execute(&[], 7).act(), Act::Finished(Ok(()))));
}

#[test]
fn files_that_could_not_be_put_back_are_named() {
    let text = failure("a.wav", "denied", &Vec::new(), &Vec::new());
    assert!(text.starts_with("Nothing renamed"), "{text}");
    let text = failure("a.wav", "denied", &vec!["x".into()], &vec!["/y".into()]);
    assert!(text.contains("denied") && text.ends_with("/y") || text.contains('x'), "{text}");
}

#[test]
fn a_batch_that_names_a_file_that_is_gone_leaves_every_file_as_it_was() {
    let start = disk(&[("a.wav", "A"), (".hidden", "H")]);
    let mut files = start.clone();
    let batch = vec![
        (p("a.wav"), p("b.wav")),
        (p(".hidden"), p("shown")),
        (p("gone.wav"), p("c.wav")),
    ];
    let error = run(&mut files, &batch).unwrap_err();
    assert!(error.starts_with("Nothing renamed: gone.wav"), "{error}");
    assert_eq!(files, start);
}

#[test]
fn a_file_taken_from_under_its_parking_name_is_reported() {
    let start = disk(&[("a.wav", "A")]);
    let mut files = start.clone();
    let batch = vec![
        (p("a.wav"), p("b.wav")),
        (p(".soundcheck-renaming-7-0-0"), p("c.wav")),
    ];
    let error = run(&mut files, &batch).unwrap_err();
    assert!(error.starts_with("Stopped at a.wav"), "{error}");
    assert_eq!(files.len(), 1);
}
