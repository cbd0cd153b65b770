use soundcheck::pattern::Moment;
use soundcheck::rename::{Candidate, Filters, MoveMode, Planned, Problem, RemoveRule, Rules};
use soundcheck::rename_ui::{
    batch, counts, date_example, hidden_rules, move_label, reversed, status, Renamer, Request,
    Sort,
};

fn file(path: &str, size: u64) -> Candidate {
    Candidate {
        path: path.to_owned(),
        size,
        modified: None,
        modified_at: None,
        created: None,
        recorded: None,
    }
}

fn listed(r: &Renamer) -> Vec<&str> {
    r.rows.iter().map(|(f, _)| f.path.as_str()).collect()
}

#[test]
fn a_folder_is_listed_again_when_it_or_the_filters_change() {
    let mut r = Renamer::default();
    let filters = Filters::default();
    let first = r.follow(Some("/f"), &filters).unwrap();
    assert_eq!(r.folder_name(), "f");
    assert_eq!(r.follow(Some("/f"), &filters), None);
    let other = Filters {
        subfolders: true,
        ..Filters::default()
    };
    let second = r.follow(Some("/f"), &other).unwrap();
    r.arrived(first, &vec![file("/f/late.wav", 1)]);
    assert!(r.rows.is_empty() && r.reading);
    r.arrived(second, &vec![file("/f/a.wav", 1)]);
    assert_eq!(listed(&r), ["/f/a.wav"]);
    assert!(!r.reading);
    assert!(r.refresh(&other).is_some());
}

#[test]
fn files_are_sorted_by_the_column_clicked() {
    let mut r = Renamer::default();
    let listing = r.follow(Some("/f"), &Filters::default()).unwrap();
    let dated = Candidate {
        recorded: Some(Moment {
            year: 2026,
            month: 4,
            day: 3,
            hour: 0,
            minute: 0,
            second: 0,
            nano: 0,
        }),
        ..file("/f/c.wav", 2)
    };
    r.arrived(listing, &vec![file("/f/a.wav", 3), file("/f/b.wav", 1), dated]);
    r.click(Sort::Size);
    assert_eq!(listed(&r), ["/f/b.wav", "/f/c.wav", "/f/a.wav"]);
    r.click(Sort::Size);
    assert_eq!(listed(&r), ["/f/a.wav", "/f/c.wav", "/f/b.wav"]);
    r.click(Sort::Name);
    assert_eq!(listed(&r), ["/f/a.wav", "/f/b.wav", "/f/c.wav"]);
    r.click(Sort::Recorded);
    assert_eq!(listed(&r).len(), 3);
}

#[test]
fn files_are_chosen_all_none_or_the_others() {
    let mut r = Renamer::default();
    let listing = r.follow(Some("/f"), &Filters::default()).unwrap();
    r.arrived(listing, &vec![file("/f/a.wav", 3), file("/f/b.wav", 1)]);
    r.choose_all(false);
    r.rows[1].1 = true;
    r.invert();
    assert_eq!((r.rows[0].1, r.rows[1].1), (true, false));
    r.choose_all(true);
    assert!(r.rows.iter().all(|(_, chosen)| *chosen));
}

fn planned(from: &str, to: &str, problem: Option<Problem>) -> Option<Planned> {
    Some(Planned {
        from: from.into(),
        to: to.into(),
        problem,
    })
}

#[test]
fn a_batch_is_every_change_or_none_of_them() {
    let plan = vec![
        planned("/f/a", "/f/b", None),
        None,
        planned("/f/c", "/f/c", None),
    ];
    assert_eq!(counts(&plan), (2, 1, 0));
    assert_eq!(
        batch(&plan).unwrap(),
        [("/f/a".to_owned(), "/f/b".to_owned())]
    );
    let mut r = Renamer::default();
    assert!(matches!(r.go(&plan), Some(Request::Rename(b)) if b.len() == 1));
    let bad = vec![
        planned("/f/a", "/f/b", None),
        planned("/f/c", "/f/d", Some(Problem::Exists)),
    ];
    assert!(batch(&bad).is_err());
    assert_eq!(r.go(&bad), None);
    assert!(matches!(&r.message, Some((_, true))));
}

#[test]
fn a_batch_done_can_be_put_back() {
    let mut r = Renamer::default();
    assert_eq!(r.undo(), None);
    let done = vec![
        ("/f/a".to_owned(), "/f/b".to_owned()),
        ("/f/c".to_owned(), "/f/d".to_owned()),
    ];
    r.finished(done.clone(), false, None);
    let Some(Request::Undo(back)) = r.undo() else {
        panic!("there is a batch to put back");
    };
    assert!(back.contains(&("/f/b".to_owned(), "/f/a".to_owned())));
    assert_eq!(reversed(&back), done);
    r.finished(back, true, None);
    assert_eq!(r.undo(), None);
    r.finished(done, false, Some("denied".into()));
    assert_eq!(r.message, Some(("denied".into(), true)));
}

#[test]
fn words_for_what_the_rules_do() {
    assert_eq!(move_label(MoveMode::MoveLast), "Move the last");
    assert!(status(3, 2, 1).contains('3'));
    assert_eq!(date_example("%Y").len(), 4);
    assert_ne!(date_example("%Y-%m"), "%Y-%m");
    assert_eq!(date_example("%Q"), "%Q");
    assert_eq!(hidden_rules(&Rules::default()), 0);
    let rules = Rules {
        remove: RemoveRule {
            symbols: true,
            ..RemoveRule::default()
        },
        ..Rules::default()
    };
    assert_eq!(hidden_rules(&rules), 1);
}
