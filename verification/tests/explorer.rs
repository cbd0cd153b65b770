use soundcheck::explorer::{goes_first, is_audio, list, natural, Entry, Explorer, Row};
use soundcheck::path::{extension, file_name, parent, under, with_file_name};
use std::cmp::Ordering;

fn entry(path: &str, is_dir: bool) -> Entry {
    Entry {
        path: path.to_owned(),
        name: file_name(path),
        is_dir,
    }
}

#[test]
fn numbers_sort_by_value() {
    let mut names = vec!["take 10", "take 9", "take 1", "b", "a2", "a10", "010", "9"];
    names.sort_by(|a, b| natural(a, b));
    assert_eq!(
        names,
        ["9", "010", "a2", "a10", "b", "take 1", "take 9", "take 10"]
    );
}

#[test]
fn folders_come_first_then_audio_in_order() {
    let mut found = vec![entry("/list/Day 10", true), entry("/list/Day 9", true)];
    for name in ["ZOOM0010.WAV", "zoom0002.wav", "notes.txt", ".hidden.wav"] {
        found.push(entry(&format!("/list/{name}"), false));
    }
    let names: Vec<String> = list(found).into_iter().map(|e| e.name).collect();
    assert_eq!(names, ["Day 9", "Day 10", "zoom0002.wav", "ZOOM0010.WAV"]);
}

#[test]
fn names_are_in_an_order() {
    assert_eq!(natural("a", "a"), Ordering::Equal);
    assert_eq!(natural("a2", "a10"), Ordering::Less);
    assert_eq!(natural("a10", "a2"), Ordering::Greater);
    assert_eq!(natural("a", "ab"), Ordering::Less);
    assert!(goes_first("a2", "a10") && !goes_first("a10", "a2"));
    assert!(goes_first("7", "00000000000000000000000000000000000000008"));
}

#[test]
fn audio_is_known_by_its_extension() {
    assert!(is_audio("/x/a.WAV"));
    assert!(is_audio("/x/a.flac"));
    assert!(!is_audio("/x/a.txt"));
    assert!(!is_audio("/x/wav"));
}

#[test]
fn paths_come_apart() {
    assert_eq!(file_name("/a/b.wav"), "b.wav");
    assert_eq!(parent("/a/b.wav", false).as_deref(), Some("/a"));
    assert_eq!(parent("/a", false).as_deref(), Some("/"));
    assert_eq!(parent("/", false), None);
    assert_eq!(with_file_name("/a/b.wav", "c.wav"), "/a/c.wav");
    assert_eq!(extension("/a/b.tar.gz"), Some(vec!['g', 'z']));
    assert_eq!(extension("/a/.hidden"), None);
    assert!(under("/a/b", "/a") && under("/a", "/a") && !under("/ab", "/a"));
}

fn paths(rows: &[Row]) -> Vec<String> {
    rows.iter()
        .map(|r| match r {
            Row::Entry { depth, entry, open } => format!("{depth} {} {open}", entry.path),
            Row::Loading { depth } => format!("{depth} ..."),
        })
        .collect()
}

#[test]
fn the_tree_shows_what_is_open_as_far_as_it_was_read() {
    let mut tree = Explorer::default();
    assert!(tree.rows().0.is_empty());
    tree.set_root("/f");
    assert_eq!(tree.root(), Some("/f"));
    let (rows, unread) = tree.rows();
    assert_eq!(paths(&rows), ["0 ..."]);
    assert_eq!(unread, ["/f"]);
    tree.reading("/f");
    assert!(tree.rows().1.is_empty());
    tree.arrived("/f", vec![entry("/f/d", true), entry("/f/a.wav", false)]);
    assert_eq!(paths(&tree.rows().0), ["0 /f/d false", "0 /f/a.wav false"]);
    tree.toggle("/f/d");
    let (rows, unread) = tree.rows();
    assert_eq!(paths(&rows), ["0 /f/d true", "1 ...", "0 /f/a.wav false"]);
    assert_eq!(unread, ["/f/d"]);
    tree.reading("/f/d");
    tree.arrived("/f/d", vec![entry("/f/d/b.wav", false)]);
    assert_eq!(
        paths(&tree.rows().0),
        ["0 /f/d true", "1 /f/d/b.wav false", "0 /f/a.wav false"]
    );
    tree.toggle("/f/d");
    assert_eq!(paths(&tree.rows().0), ["0 /f/d false", "0 /f/a.wav false"]);
    tree.reload();
    assert_eq!(tree.rows().1, ["/f"]);
}

#[test]
fn a_listing_that_comes_too_late_is_dropped() {
    let mut tree = Explorer::default();
    tree.set_root("/f");
    tree.reading("/f");
    tree.forget("/f");
    tree.arrived("/f", vec![entry("/f/a.wav", false)]);
    assert_eq!(paths(&tree.rows().0), ["0 ..."]);
    tree.reading("/f");
    tree.arrived("/f", vec![entry("/f/a.wav", false)]);
    tree.arrived("/f", vec![entry("/f/b.wav", false)]);
    assert_eq!(paths(&tree.rows().0), ["0 /f/a.wav false"]);
}

#[test]
fn a_file_is_brought_into_view_once() {
    let mut tree = Explorer::default();
    tree.reveal_file("/f/b.wav", false);
    assert_eq!(tree.selected(), Some("/f/b.wav"));
    let dir = tree.root().unwrap().to_owned();
    assert_eq!(dir, "/f");
    tree.reading(&dir);
    tree.arrived(&dir, vec![entry("/f/a.wav", false), entry("/f/b.wav", false)]);
    let at = {
        let (rows, _) = tree.rows();
        tree.revealed(&rows)
    };
    assert_eq!(at, Some(1));
    tree.showed(true);
    let again = {
        let (rows, _) = tree.rows();
        tree.revealed(&rows)
    };
    assert_eq!(again, None);
    tree.select("/f/a.wav");
    assert_eq!(tree.selected(), Some("/f/a.wav"));
}

#[test]
fn the_tree_goes_up_to_the_root_and_on_windows_to_the_drives() {
    let mut tree = Explorer::default();
    assert_eq!(tree.up(false), None);
    tree.set_root("/f/d");
    assert_eq!(tree.up(false), Some(Some("/f".to_owned())));
    tree.set_root("/");
    assert_eq!(tree.up(false), None);
    assert_eq!(tree.up(true), Some(None));
    tree.to_drives();
    assert_eq!(tree.root(), None);
}

#[test]
fn the_arrows_step_from_row_to_row() {
    let mut explorer = Explorer::default();
    explorer.set_root("/r");
    explorer.reading("/r");
    explorer.arrived(
        "/r",
        vec![entry("/r/day", true), entry("/r/a.wav", false), entry("/r/b.wav", false)],
    );
    let beside = |e: &Explorer, down| {
        let (rows, _) = e.rows();
        e.step(&rows, down)
    };
    assert_eq!(beside(&explorer, true), Some(0));
    assert_eq!(beside(&explorer, false), Some(2));
    explorer.select("/r/a.wav");
    assert_eq!(beside(&explorer, true), Some(2));
    assert_eq!(beside(&explorer, false), Some(0));
    explorer.select("/r/b.wav");
    assert_eq!(beside(&explorer, true), None);
    explorer.select("/r/day");
    assert_eq!(beside(&explorer, false), None);
}

#[test]
fn a_drive_is_a_root_on_windows_alone() {
    assert_eq!(parent("C:/", true), None);
    assert_eq!(parent("C:/takes", true).as_deref(), Some("C:/"));
    assert_eq!(parent("C:/takes/a.wav", true).as_deref(), Some("C:/takes"));
    assert_eq!(parent("a:/b.wav", false).as_deref(), Some("a:"));
    assert_eq!(parent("a:", false).as_deref(), Some(""));
    for windows in [false, true] {
        assert_eq!(parent("takes", windows).as_deref(), Some(""));
        assert_eq!(parent("/takes", windows).as_deref(), Some("/"));
    }
    let mut tree = Explorer::default();
    tree.set_root("C:/");
    assert_eq!(tree.up(true), Some(None));
    tree.set_root("C:/takes");
    assert_eq!(tree.up(true), Some(Some("C:/".to_owned())));
    assert_eq!(tree.up(false), Some(Some("C:".to_owned())));
    tree.reveal_file("C:/a.wav", true);
    assert_eq!(tree.root(), Some("C:/"));
}
