use eqlauncher::sys_apps::{App, AppList, entry_attr, entry_hidden, is_desktop_file,
    new_matcher, parse_entry_bytes, shell_split};

#[test]
fn new() {
    let _ = AppList::new();
}

#[test]
fn empty_list() {
    let list = AppList::new();
    assert_eq!(list.apps.len(), 0);
}

const ENTRY_TEXT: &str = "[Desktop Entry]\nName=Editor\nExec=/usr/bin/editor %F\nIcon=editor\n";

#[test]
fn desktop_entry_fields() {
    let entry = parse_entry_bytes(ENTRY_TEXT.as_bytes().to_vec()).expect("well-formed entry");
    assert_eq!(entry_attr(&entry, "Desktop Entry", "Name"), Some("Editor".to_owned()));
    assert_eq!(entry_attr(&entry, "Desktop Entry", "Comment"), None);
    let app = App::from_entry(&entry).expect("name and command are present");
    assert_eq!(app.name, "Editor");
    assert_eq!(app.cmd, "/usr/bin/editor %F");
    assert_eq!(app.icon_name, Some("editor".to_owned()));
    assert!(!entry_hidden(&entry));
}

#[test]
fn desktop_entry_without_name_is_rejected() {
    let text = "[Desktop Entry]\nExec=/usr/bin/editor\n";
    let entry = parse_entry_bytes(text.as_bytes().to_vec()).expect("well-formed entry");
    assert!(App::from_entry(&entry).is_none());
}

#[test]
fn hidden_entry() {
    let text = "[Desktop Entry]\nName=X\nExec=x\nNoDisplay=true\n";
    let entry = parse_entry_bytes(text.as_bytes().to_vec()).expect("well-formed entry");
    assert!(entry_hidden(&entry));
}

#[test]
fn desktop_file_suffix() {
    assert!(is_desktop_file("firefox.desktop"));
    assert!(!is_desktop_file("firefox.png"));
    assert!(!is_desktop_file("desktop"));
    assert!(is_desktop_file(".desktop"));
}

#[test]
fn launch_plan_splits_and_filters() {
    let app = App::new(
        "Editor".to_owned(),
        "\"/usr/bin/editor\" --flag %F plain".to_owned(),
        None,
    );
    let (prog, args) = app.launch_plan().expect("splittable");
    assert_eq!(prog, "/usr/bin/editor");
    assert_eq!(args, vec!["--flag".to_owned(), "plain".to_owned()]);
}

#[test]
fn launch_plan_rejects_unsplittable() {
    let app = App::new("X".to_owned(), "\"unclosed".to_owned(), None);
    assert!(app.launch_plan().is_none());
    let empty = App::new("X".to_owned(), "".to_owned(), None);
    assert!(empty.launch_plan().is_none());
}

#[test]
fn shell_split_handles_quotes() {
    let words = shell_split("a \"b c\" d").expect("well-quoted");
    assert_eq!(words, vec!["a".to_owned(), "b c".to_owned(), "d".to_owned()]);
}

#[test]
fn xdg_app_dirs() {
    let dirs = AppList::xdg_app_dirs("/usr/share:/usr/local/share");
    assert_eq!(
        dirs,
        vec!["/usr/share/applications".to_owned(), "/usr/local/share/applications".to_owned()],
    );
    let single = AppList::xdg_app_dirs("/opt/share");
    assert_eq!(single, vec!["/opt/share/applications".to_owned()]);
}

#[test]
fn icon_candidate_paths() {
    let app = App::new("Editor".to_owned(), "editor".to_owned(), Some("editor".to_owned()));
    let dirs = vec!["/usr/share".to_owned()];
    let cands = app.icon_candidates(32, &dirs);
    assert_eq!(cands.len(), 8);
    assert_eq!(cands[0], "/usr/share/icons/hicolor/32x32/apps/editor.png");
    assert_eq!(cands[1], "/usr/share/pixmaps/editor.png");
    assert_eq!(cands[3], "/usr/share/icons/hicolor/scalable/apps/editor.svg");
    assert_eq!(cands[7], "/usr/share/icons/Adwaita/symbolic/actions/editor-symbolic.svg");
}

#[test]
fn no_icon_no_candidates() {
    let app = App::new("Editor".to_owned(), "editor".to_owned(), None);
    let dirs = vec!["/usr/share".to_owned()];
    assert!(app.icon_candidates(32, &dirs).is_empty());
}

fn sample_list() -> AppList {
    let mut list = AppList::new();
    for name in ["Firefox", "Files", "Calculator"] {
        list.apps.push(App::new(name.to_owned(), name.to_lowercase(), None));
    }
    list
}

#[test]
fn empty_input_keeps_stored_order() {
    let list = sample_list();
    let matcher = new_matcher();
    assert_eq!(list.compute_app_indices(&matcher, ""), vec![0, 1, 2]);
}

#[test]
fn ranking_returns_only_matches() {
    let list = sample_list();
    let matcher = new_matcher();
    let hits = list.compute_app_indices(&matcher, "fi");
    // Firefox and Files match; Calculator has no f-i subsequence
    let mut sorted = hits.clone();
    sorted.sort();
    assert_eq!(sorted, vec![0, 1]);
    assert!(list.compute_app_indices(&matcher, "zzz").is_empty());
}
