use soundcheck::path::file_name;
use soundcheck::pattern::Moment;
use soundcheck::rename::{
    can_count, checked_draft, checked_plan, compile, invalid, letters, number_text, plan, roman,
    sort_found, unaccented, wildcard, AddRule, Candidate, Case, CaseRule, Counter, Crop, DateRule, DateSource, ExtensionMode,
    ExtensionRule, Filters, FolderRule, Kind, MoveMode, MoveRule, NameMode, NameRule, NumberKind,
    NumberPlace, NumberRule, Place, Planned, Problem, RegexRule, RemoveRule, ReplaceRule, Rules,
    Side, Treatment,
};

const NOW: Moment = Moment {
    year: 2026,
    month: 11,
    day: 15,
    hour: 9,
    minute: 30,
    second: 0,
    nano: 0,
};

fn file(path: &str) -> Candidate {
    Candidate {
        path: path.to_owned(),
        size: 0,
        modified: None,
        modified_at: None,
        created: None,
        recorded: None,
    }
}

/// A plan for a folder with nothing else in it.
fn planned(files: &[Candidate], chosen: &[bool], rules: &Rules) -> Vec<Option<Planned>> {
    plan(files, chosen, rules, NOW, false, &Vec::new())
}

fn names(files: &[Candidate], rules: &Rules) -> Vec<String> {
    let chosen = vec![true; files.len()];
    planned(files, &chosen, rules)
        .into_iter()
        .map(|p| file_name(&p.unwrap().to))
        .collect()
}

fn one(name: &str, rules: &Rules) -> String {
    names(&[file(&format!("/nowhere/{name}"))], rules).remove(0)
}

#[test]
fn each_panel_changes_the_name_as_bulk_rename_utility_does() {
    let rules = Rules {
        regex: RegexRule {
            find: r"^(\d+)_(\w+)$".into(),
            replace: r"\2-\1".into(),
            extension: false,
        },
        ..Rules::default()
    };
    assert_eq!(one("0714_heron.wav", &rules), "heron-0714.wav");

    let name = |mode, fixed: &str| Rules {
        name: NameRule {
            mode,
            fixed: fixed.into(),
        },
        ..Rules::default()
    };
    assert_eq!(one("abc.wav", &name(NameMode::Reverse, "")), "cba.wav");
    assert_eq!(one("abc.wav", &name(NameMode::Fixed, "take")), "take.wav");

    let rules = Rules {
        replace: ReplaceRule {
            find: "ZOOM".into(),
            with: "Field".into(),
            match_case: false,
        },
        ..Rules::default()
    };
    assert_eq!(one("zoom0001.WAV", &rules), "Field0001.WAV");

    let case = |case| Rules {
        case: CaseRule {
            case,
            except: "BWF".into(),
        },
        ..Rules::default()
    };
    assert_eq!(
        one("dawn CHORUS bwf.wav", &case(Case::Title)),
        "Dawn Chorus BWF.wav"
    );
    assert_eq!(
        one("DAWN chorus.wav", &case(Case::Sentence)),
        "Dawn chorus.wav"
    );

    let remove = |remove| Rules {
        remove,
        ..Rules::default()
    };
    let cleaned = remove(RemoveRule {
        first: 2,
        last: 1,
        digits: true,
        accents: true,
        double_spaces: true,
        trim: true,
        ..RemoveRule::default()
    });
    assert_eq!(one("xxJõe  laht 12 z.wav", &cleaned), "Joe laht.wav");
    let cropped = remove(RemoveRule {
        crop: Crop::Before,
        crop_at: "DAWN".into(),
        ..RemoveRule::default()
    });
    assert_eq!(one("x İ dawn chorus.wav", &cropped), "dawn chorus.wav");

    let rules = Rules {
        moves: MoveRule {
            mode: MoveMode::MoveFirst,
            count: 4,
            to: Place::End,
            at: 0,
            separator: "_".into(),
        },
        ..Rules::default()
    };
    assert_eq!(one("0714heron.wav", &rules), "heron_0714.wav");

    let rules = Rules {
        add: AddRule {
            prefix: "EE_".into(),
            insert: "-".into(),
            at: 5,
            suffix: "_A".into(),
            word_space: true,
        },
        ..Rules::default()
    };
    assert_eq!(one("DawnChorus.wav", &rules), "EE_Dawn- Chorus_A.wav");

    let rules = Rules {
        extension: ExtensionRule {
            mode: ExtensionMode::Lower,
            text: String::new(),
        },
        ..Rules::default()
    };
    assert_eq!(one("A.WAV", &rules), "A.wav");
}

#[test]
fn dates_come_from_the_recording_and_numbers_count_the_chosen_files() {
    let take = Candidate {
        recorded: Some(Moment {
            year: 2026,
            month: 4,
            day: 3,
            hour: 7,
            minute: 14,
            second: 5,
            nano: 0,
        }),
        ..file("/field/day1/take.wav")
    };
    let rules = Rules {
        date: DateRule {
            side: Side::Prefix,
            ..DateRule::default()
        },
        ..Rules::default()
    };
    assert_eq!(
        names(std::slice::from_ref(&take), &rules),
        ["2026-04-03_07-14-05_take.wav"]
    );
    let p = planned(&[file("/field/untimed.wav")], &[true], &rules);
    assert_eq!(p[0].as_ref().unwrap().problem, Some(Problem::NoDate));

    let rules = Rules {
        folder: FolderRule {
            side: Side::Prefix,
            separator: "-".into(),
            levels: 2,
        },
        ..Rules::default()
    };
    assert_eq!(names(&[take], &rules), ["field-day1-take.wav"]);

    let files = [file("/f/a.wav"), file("/f/b.wav"), file("/f/c.wav")];
    let numbered = |kind, start| Rules {
        numbering: NumberRule {
            place: NumberPlace::Prefix,
            kind,
            start,
            pad: 3,
            ..NumberRule::default()
        },
        ..Rules::default()
    };
    let p = planned(
        &files,
        &[true, false, true],
        &numbered(NumberKind::Decimal, 1),
    );
    let got: Vec<Option<String>> = p
        .iter()
        .map(|p| p.as_ref().map(|p| file_name(&p.to)))
        .collect();
    assert_eq!(
        got,
        [Some("001_a.wav".into()), None, Some("002_c.wav".into())]
    );
    assert_eq!(names(&files, &numbered(NumberKind::Roman, 9))[1], "X_b.wav");
    assert_eq!(
        names(&files, &numbered(NumberKind::Lower, 26))[1],
        "aa_b.wav"
    );
}

#[test]
fn a_name_already_taken_or_given_twice_is_refused() {
    let taken: Vec<String> = ["a.wav", "b.wav", "keep.wav"]
        .iter()
        .map(|n| format!("/plan/{n}"))
        .collect();
    let plan = |files: &[Candidate], chosen: &[bool], rules: &Rules| {
        plan(files, chosen, rules, NOW, false, &taken)
    };
    let files: Vec<Candidate> = ["a.wav", "b.wav"]
        .iter()
        .map(|n| file(&format!("/plan/{n}")))
        .collect();
    let rules = Rules {
        name: NameRule {
            mode: NameMode::Fixed,
            fixed: "keep".into(),
        },
        ..Rules::default()
    };
    let planned = plan(&files[..1], &[true], &rules);
    assert_eq!(planned[0].as_ref().unwrap().problem, Some(Problem::Exists));
    let planned = plan(&files, &[true, true], &rules);
    assert!(planned
        .iter()
        .flatten()
        .all(|p| p.problem == Some(Problem::Duplicate)));
    // A name another file in the batch is leaving is free: a becomes b as b
    // becomes c.
    let rules = Rules {
        name: NameRule {
            mode: NameMode::Remove,
            fixed: String::new(),
        },
        numbering: NumberRule {
            place: NumberPlace::Prefix,
            kind: NumberKind::Lower,
            start: 2,
            ..NumberRule::default()
        },
        ..Rules::default()
    };
    let chain: Vec<(String, Option<Problem>)> = plan(&files, &[true, true], &rules)
        .into_iter()
        .flatten()
        .map(|p| (file_name(&p.to), p.problem))
        .collect();
    assert_eq!(chain, [("b.wav".into(), None), ("c.wav".into(), None)]);
    // Only the file moving onto a name another keeps is refused.
    let rules = Rules {
        replace: ReplaceRule {
            find: "a".into(),
            with: "b".into(),
            match_case: false,
        },
        ..Rules::default()
    };
    let problems: Vec<Option<Problem>> = plan(&files, &[true, true], &rules)
        .into_iter()
        .flatten()
        .map(|p| p.problem)
        .collect();
    assert_eq!(problems, [Some(Problem::Exists), None]);
    assert_eq!(
        invalid(".hidden", false),
        Some("the name would start with a dot".into())
    );
    assert!(invalid("a/b", false).is_some());
}

#[test]
fn masks_match_like_a_file_manager_s() {
    assert!(wildcard("*.wav", "take 1.wav"));
    assert!(wildcard("take ?.wav", "take 7.wav"));
    assert!(!wildcard("*.wav", "take.flac"));
    assert!(wildcard("*", ""));
    let filters = Filters {
        mask: "*.WAV; *.flac".into(),
        match_case: false,
        subfolders: false,
        audio_only: true,
    };
    assert!(filters.admits("/x/Take.wav"));
    assert!(!filters.admits("/x/notes.txt"));
}

#[test]
fn a_star_stands_for_anything_even_a_star() {
    assert!(wildcard("a*c", "abbc"));
    assert!(wildcard("a*", "a*"));
    assert!(wildcard("*a", "**a"));
    assert!(!wildcard("?", ""));
    assert!(!wildcard("a", "ab"));
    assert!(wildcard("**", "x"));
}

#[test]
fn listing_goes_into_folders_only_when_asked() {
    let mut filters = Filters {
        mask: "*".into(),
        match_case: false,
        subfolders: false,
        audio_only: true,
    };
    assert_eq!(filters.treat("/x/day", Kind::Folder), Treatment::Skip);
    filters.subfolders = true;
    assert_eq!(filters.treat("/x/day", Kind::Folder), Treatment::Enter);
    assert_eq!(filters.treat("/x/.day", Kind::Folder), Treatment::Skip);
    assert_eq!(filters.treat("/x/a.wav", Kind::File), Treatment::Take);
    assert_eq!(filters.treat("/x/a.txt", Kind::File), Treatment::Skip);
    assert_eq!(filters.treat("/x/a.wav", Kind::Other), Treatment::Skip);
    filters.mask = " ; ".into();
    assert_eq!(filters.treat("/x/a.wav", Kind::File), Treatment::Skip);
}

#[test]
fn rules_that_are_off_change_nothing() {
    let files = [file("/f/Take 1.WAV"), file("/f/no extension")];
    assert_eq!(
        names(&files, &Rules::default()),
        ["Take 1.WAV", "no extension"]
    );
    let p = planned(&files, &[true, true], &Rules::default());
    assert!(p.iter().flatten().all(|p| !p.changes()));
}

#[test]
fn names_given_twice_are_told_apart_by_more_than_case() {
    let files = [file("/f/a1.wav"), file("/f/A2.wav")];
    let rules = Rules {
        remove: RemoveRule {
            digits: true,
            ..RemoveRule::default()
        },
        ..Rules::default()
    };
    let p = planned(&files, &[true, true], &rules);
    assert!(p
        .iter()
        .flatten()
        .all(|p| p.problem == Some(Problem::Duplicate)));
}

#[test]
fn an_expression_that_does_not_parse_is_a_problem_of_the_rules() {
    let rules = Rules {
        regex: RegexRule {
            find: "(".into(),
            replace: String::new(),
            extension: false,
        },
        ..Rules::default()
    };
    let why = compile(&rules.regex).unwrap();
    assert!(why.starts_with("the regular expression does not work: "));
    assert!(why.contains("unclosed group"));
    let p = planned(&[file("/f/a.wav")], &[true], &rules);
    assert_eq!(
        p[0].as_ref().unwrap().problem,
        Some(Problem::Rules(why.clone()))
    );
    assert_eq!(Problem::Rules(why.clone()).message(), why);
    assert_eq!(compile(&RegexRule::default()), None);
}

#[test]
fn an_expression_can_reach_the_extension() {
    let rules = Rules {
        regex: RegexRule {
            find: r"(\w+)\.(\w+)".into(),
            replace: "$2.${1}x".into(),
            extension: true,
        },
        ..Rules::default()
    };
    assert_eq!(one("a.wav", &rules), "wav.ax");
}

#[test]
fn every_problem_has_words() {
    assert_eq!(
        Problem::Duplicate.message(),
        "another file would get this name too"
    );
    assert_eq!(Problem::Exists.message(), "a file already has this name");
    assert_eq!(
        Problem::NoDate.message(),
        "its metadata has no recording time"
    );
    assert_eq!(Problem::Invalid("x".into()).message(), "x");
}

#[test]
fn names_that_no_file_can_have_are_refused() {
    assert_eq!(invalid("take 1.wav", false), None);
    assert!(invalid("", false).is_some());
    assert!(invalid("a?b.wav", true).is_some());
    assert_eq!(invalid("a?b.wav", false), None);
    let rules = Rules {
        add: AddRule {
            prefix: "a/".into(),
            ..AddRule::default()
        },
        ..Rules::default()
    };
    let p = planned(&[file("/f/b.wav")], &[true], &rules);
    assert!(matches!(
        p[0].as_ref().unwrap().problem,
        Some(Problem::Invalid(_))
    ));
}

#[test]
fn dates_fall_back_on_the_file_s_own_or_come_from_now() {
    let modified = Candidate {
        modified: Some(Moment {
            year: 2025,
            ..NOW
        }),
        ..file("/f/a.wav")
    };
    let dated = |source, fallback| Rules {
        date: DateRule {
            side: Side::Suffix,
            source,
            format: "%Y%m%d".into(),
            fallback,
            ..DateRule::default()
        },
        ..Rules::default()
    };
    let files = [modified];
    assert_eq!(
        names(&files, &dated(DateSource::Recorded, true)),
        ["a_20251115.wav"]
    );
    assert_eq!(
        names(&files, &dated(DateSource::Now, false)),
        ["a_20261115.wav"]
    );
    let p = planned(&files, &[true], &dated(DateSource::Created, false));
    assert_eq!(p[0].as_ref().unwrap().problem, Some(Problem::NoDate));
}

#[test]
fn numbers_are_written_in_every_kind() {
    let text = |v: Vec<char>| v.into_iter().collect::<String>();
    assert_eq!(text(letters(1, false)), "a");
    assert_eq!(text(letters(28, true)), "AB");
    assert_eq!(text(letters(702, false)), "zz");
    assert_eq!(text(roman(1994)), "MCMXCIV");
    let rule = NumberRule {
        pad: 4,
        ..NumberRule::default()
    };
    assert_eq!(text(number_text(42, &rule)), "0042");
}

#[test]
fn numbers_start_again_in_every_folder() {
    let files = [file("/f/a/x.wav"), file("/f/a/y.wav"), file("/f/b/x.wav")];
    let rules = Rules {
        numbering: NumberRule {
            place: NumberPlace::Suffix,
            step: 5,
            per_folder: true,
            ..NumberRule::default()
        },
        ..Rules::default()
    };
    let got = names(&files, &rules);
    assert_eq!(got[0], got[2]);
    assert_eq!(got[0], "x_01.wav");
    assert_eq!(got[1], "y_06.wav");
}

#[test]
fn numbers_past_the_largest_cannot_be_counted() {
    let rules = |start| Rules {
        numbering: NumberRule {
            place: NumberPlace::Prefix,
            start,
            step: 1,
            per_folder: true,
            ..NumberRule::default()
        },
        ..Rules::default()
    };
    let files = [file("/a/x.wav"), file("/a/y.wav"), file("/b/z.wav")];
    let counted = |start, chosen: &[bool]| can_count(&files, chosen, &rules(start), NOW, false);
    assert!(counted(i64::MAX - 2, &[true; 3]));
    assert!(!counted(i64::MAX - 1, &[true; 3]));
    // Files that are not chosen take no number, and another folder starts
    // again.
    assert!(counted(i64::MAX - 1, &[true, false, true]));
    assert!(!counted(i64::MAX, &[true, false, false]));
    assert!(counted(i64::MAX, &[false; 3]));
    let broken = Rules {
        regex: RegexRule {
            find: "(".into(),
            ..RegexRule::default()
        },
        ..rules(i64::MAX)
    };
    assert!(can_count(&files, &[true; 3], &broken, NOW, false));
    let last = rules(i64::MAX - 1);
    let none = Vec::new();
    assert!(checked_draft(&files, &[true; 3], &last, NOW, false).is_none());
    assert!(checked_plan(&files, &[true; 3], &last, NOW, false, &none).is_none());
    let chosen = [true, false, true];
    assert_eq!(
        checked_plan(&files, &chosen, &last, NOW, false, &none),
        Some(planned(&files, &chosen, &last))
    );
    assert!(checked_draft(&files, &chosen, &last, NOW, false).is_some());
}

#[test]
fn a_counter_counts_on_from_where_it_last_started() {
    let rule = NumberRule {
        start: i64::MAX - 1,
        step: 1,
        restart_after: 2,
        ..NumberRule::default()
    };
    let heads: Vec<Vec<char>> = ["ab1", "cd1", "cd2"]
        .iter()
        .map(|s| s.chars().collect())
        .collect();
    let mut counter = Counter::new(&rule);
    assert_eq!(counter.take(&heads[0], None), i64::MAX - 1);
    assert!(!counter.fits(&heads[0], &None));
    assert!(counter.fits(&heads[1], &None));
    assert_eq!(counter.take(&heads[1], None), i64::MAX - 1);
    let mut counter = Counter::new(&NumberRule {
        start: 10,
        step: -3,
        restart_after: 2,
        ..NumberRule::default()
    });
    let taken: Vec<i64> = heads.iter().map(|h| counter.take(h, None)).collect();
    assert_eq!(taken, [10, 10, 7]);
}

#[test]
fn letters_lose_their_accents() {
    assert_eq!(unaccented('õ'), 'o');
    assert_eq!(unaccented('É'), 'E');
    assert_eq!(unaccented('x'), 'x');
}

#[test]
fn found_files_are_listed_in_natural_order() {
    let found = vec![file("/f/take 10.wav"), file("/f/Take 9.wav"), file("/e/z.wav")];
    let sorted: Vec<String> = sort_found(found).into_iter().map(|f| f.path).collect();
    assert_eq!(sorted, ["/e/z.wav", "/f/Take 9.wav", "/f/take 10.wav"]);
    assert_eq!(file("/f/a.wav").name(), "a.wav");
}
