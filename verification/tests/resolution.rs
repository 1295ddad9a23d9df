use handlr::desktop_entry::DesktopEntry;
use handlr::handler::Handler;
use handlr::ini::parse_config;
use handlr::mime_type::MimeType;
use handlr::system::SystemApps;
use handlr::user::{MimeApps, Resolution};

fn entry(file_name: &str, name: &str, mimes: &[&str]) -> DesktopEntry {
    DesktopEntry {
        file_name: file_name.to_string(),
        name: name.to_string(),
        mimes: mimes
            .iter()
            .map(|m| MimeType::parse(m).unwrap())
            .collect(),
        categories: Vec::new(),
        exec_cmd: String::new(),
    }
}

#[test]
fn user_default_beats_every_other_tier() {
    let (added, _) = parse_config("[Added Associations]\nvideo/mp4=added.desktop;\n");
    let entries = vec![entry("system.desktop", "System", &["video/mp4"])];
    let mut apps = MimeApps::new();
    apps.added_associations = added;
    apps.system_apps = SystemApps::populate(&entries);
    apps.add_handler(
        MimeType::parse("video/*").unwrap(),
        Handler::assume_valid("wild.desktop".into()),
    );
    apps.add_handler(
        MimeType::parse("video/mp4").unwrap(),
        Handler::assume_valid("user.desktop".into()),
    );

    let got = apps
        .get_handler(&MimeType::parse("video/mp4").unwrap())
        .unwrap();
    assert_eq!(got.to_string(), "user.desktop");
}

#[test]
fn wildcard_beats_added_associations_and_system() {
    let (added, _) = parse_config("[Added Associations]\nvideo/mp4=added.desktop;\n");
    let entries = vec![entry("system.desktop", "System", &["video/mp4"])];
    let mut apps = MimeApps::new();
    apps.added_associations = added;
    apps.system_apps = SystemApps::populate(&entries);
    apps.add_handler(
        MimeType::parse("video/*").unwrap(),
        Handler::assume_valid("wild.desktop".into()),
    );

    let got = apps
        .get_handler(&MimeType::parse("video/mp4").unwrap())
        .unwrap();
    assert_eq!(got.to_string(), "wild.desktop");
}

#[test]
fn added_association_beats_system_default() {
    let (added, _) = parse_config("[Added Associations]\nvideo/mp4=added.desktop;\n");
    let entries = vec![entry("system.desktop", "System", &["video/mp4"])];
    let mut apps = MimeApps::new();
    apps.added_associations = added;
    apps.system_apps = SystemApps::populate(&entries);

    let got = apps
        .get_handler(&MimeType::parse("video/mp4").unwrap())
        .unwrap();
    assert_eq!(got.to_string(), "added.desktop");
}

#[test]
fn system_tier_is_the_last_resort() {
    let entries = vec![entry("system.desktop", "System", &["video/mp4"])];
    let mut apps = MimeApps::new();
    apps.system_apps = SystemApps::populate(&entries);

    let got = apps
        .get_handler(&MimeType::parse("video/mp4").unwrap())
        .unwrap();
    assert_eq!(got.to_string(), "system.desktop");

    let missing = apps.get_handler(&MimeType::parse("audio/ogg").unwrap());
    assert!(matches!(missing, Err(handlr::Error::NotFound(t)) if t == "audio/ogg"));
}

#[test]
fn adding_twice_keeps_the_list_stable() {
    let mut apps = MimeApps::new();
    let m = MimeType::parse("text/plain").unwrap();
    apps.add_handler(m.clone(), Handler::assume_valid("a.desktop".into()));
    apps.add_handler(m.clone(), Handler::assume_valid("b.desktop".into()));
    apps.add_handler(m.clone(), Handler::assume_valid("a.desktop".into()));

    let rows = handlr::user::rows_of_map(&apps.default_apps);
    assert_eq!(rows.len(), 1);
    assert_eq!(rows[0].mime, "text/plain");
    assert_eq!(rows[0].handlers, "a.desktop, b.desktop");
}

#[test]
fn set_handler_discards_alternates() {
    let mut apps = MimeApps::new();
    let m = MimeType::parse("text/plain").unwrap();
    apps.add_handler(m.clone(), Handler::assume_valid("a.desktop".into()));
    apps.add_handler(m.clone(), Handler::assume_valid("b.desktop".into()));
    apps.set_handler(m.clone(), Handler::assume_valid("c.desktop".into()));

    let rows = handlr::user::rows_of_map(&apps.default_apps);
    assert_eq!(rows.len(), 1);
    assert_eq!(rows[0].handlers, "c.desktop");
}

#[test]
fn remove_handler_reports_whether_a_write_is_owed() {
    let mut apps = MimeApps::new();
    let m = MimeType::parse("text/plain").unwrap();

    // absent key: no change, no persistence write owed
    assert!(!apps.remove_handler(&m));

    apps.add_handler(m.clone(), Handler::assume_valid("a.desktop".into()));
    // present key: removed, exactly one write owed
    assert!(apps.remove_handler(&m));
    assert!(matches!(
        apps.get_handler(&m),
        Err(handlr::Error::NotFound(_))
    ));
    // removing again is a no-op once more
    assert!(!apps.remove_handler(&m));
}

#[test]
fn resolve_hands_ties_to_the_user_only_when_selection_is_enabled() {
    let mut apps = MimeApps::new();
    let m = MimeType::parse("text/plain").unwrap();
    apps.add_handler(m.clone(), Handler::assume_valid("a.desktop".into()));
    apps.add_handler(m.clone(), Handler::assume_valid("b.desktop".into()));

    match apps.resolve(&m, false) {
        Resolution::Resolved(h) => assert_eq!(h.to_string(), "a.desktop"),
        _ => panic!("expected a resolved handler"),
    }
    match apps.resolve(&m, true) {
        Resolution::NeedsSelection(hs) => {
            let names: Vec<String> = hs.iter().map(|h| h.to_string()).collect();
            assert_eq!(names, vec!["a.desktop".to_string(), "b.desktop".to_string()]);
        },
        _ => panic!("expected a tie"),
    }
}

#[test]
fn get_status_lists_the_mimes_that_name_the_handler() {
    let mut apps = MimeApps::new();
    let h = Handler::assume_valid("a.desktop".to_string());
    apps.add_handler(MimeType::parse("video/mp4").unwrap(), h.clone());
    apps.add_handler(
        MimeType::parse("audio/ogg").unwrap(),
        Handler::assume_valid("b.desktop".into()),
    );
    apps.add_handler(MimeType::parse("image/png").unwrap(), h.clone());

    let enabled: Vec<String> = apps
        .get_status(&h)
        .iter()
        .map(|m| m.to_string())
        .collect();
    assert_eq!(
        enabled,
        vec!["image/png".to_string(), "video/mp4".to_string()]
    );
}
