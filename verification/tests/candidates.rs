use handlr::ask::gather_candidates;
use handlr::desktop_entry::DesktopEntry;
use handlr::mime_type::MimeType;

fn entry(file_name: &str, name: &str, mimes: &[&str]) -> DesktopEntry {
    DesktopEntry {
        file_name: file_name.to_string(),
        name: name.to_string(),
        mimes: mimes
            .iter()
            .map(|m| MimeType::parse(m).unwrap())
            .collect(),
        categories: Vec::new(),
        exec_cmd: String::new(),
    }
}

#[test]
fn the_resolved_entry_comes_first_and_duplicates_are_dropped() {
    let entries = vec![
        entry("a.desktop", "Archiver", &["application/zip"]),
        entry("b.desktop", "Browser", &["application/zip"]),
    ];
    let resolved = Some(entry("b.desktop", "Browser", &["application/zip"]));
    let m = MimeType::parse("application/zip").unwrap();
    let got = gather_candidates(resolved, &entries, &m);
    let names: Vec<&str> = got.iter().map(|e| e.file_name.as_str()).collect();
    assert_eq!(names, vec!["b.desktop", "a.desktop"]);
}

#[test]
fn declaring_entries_are_gathered_in_scan_order() {
    let entries = vec![
        entry("a.desktop", "Archiver", &["application/zip"]),
        entry("v.desktop", "Viewer", &["image/png"]),
        entry("b.desktop", "Browser", &["application/zip", "text/html"]),
    ];
    let m = MimeType::parse("application/zip").unwrap();
    let got = gather_candidates(None, &entries, &m);
    let names: Vec<&str> = got.iter().map(|e| e.file_name.as_str()).collect();
    assert_eq!(names, vec!["a.desktop", "b.desktop"]);
}

#[test]
fn unknown_types_fall_back_to_plain_text_aliases() {
    // No extension is registered for this type, so the gatherer falls
    // back to the plain-text extensions; their alias lookups lead to
    // text/plain, pulling its editor in.
    let entries = vec![
        entry("edit.desktop", "Editor", &["text/plain"]),
        entry("paint.desktop", "Painter", &["image/png"]),
    ];
    let m = MimeType::parse("application/x-no-such-type").unwrap();
    let got = gather_candidates(None, &entries, &m);
    let names: Vec<&str> = got.iter().map(|e| e.file_name.as_str()).collect();
    assert_eq!(names, vec!["edit.desktop"]);
}

#[test]
fn known_types_use_their_own_extension_aliases() {
    // image/jpeg has registered extensions whose lookup leads back to
    // image/jpeg, so the declaring entry is found once, not duplicated.
    let entries = vec![entry("view.desktop", "Viewer", &["image/jpeg"])];
    let m = MimeType::parse("image/jpeg").unwrap();
    let got = gather_candidates(None, &entries, &m);
    let names: Vec<&str> = got.iter().map(|e| e.file_name.as_str()).collect();
    assert_eq!(names, vec!["view.desktop"]);
}
