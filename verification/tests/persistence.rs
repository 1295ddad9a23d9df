use handlr::ini::{parse_config, serialize_config};
use handlr::mime_type::MimeType;
use handlr::user::rows_of_map;

#[test]
fn scenario_two_defaults_with_selection_modes() {
    let (_, defaults) = parse_config("[Default Applications]\ntext/plain=A.desktop;B.desktop;\n");
    let mut apps = handlr::user::MimeApps::new();
    apps.default_apps = defaults;
    let m = MimeType::parse("text/plain").unwrap();

    // selection disabled: the first listed handler wins
    assert_eq!(apps.get_handler(&m).unwrap().to_string(), "A.desktop");

    // selection enabled: the tie goes to the user, and a stub that picks
    // B's label gets B back
    match apps.resolve(&m, true) {
        handlr::user::Resolution::NeedsSelection(hs) => {
            let cands: Vec<handlr::select::Candidate> = hs
                .iter()
                .map(|h| handlr::select::Candidate {
                    handler: h.clone(),
                    label: h.to_string(),
                })
                .collect();
            let picked = handlr::select::finish_selection(
                &cands,
                Some("B.desktop".to_string()),
            )
            .unwrap();
            assert_eq!(picked.to_string(), "B.desktop");
        },
        _ => panic!("expected a tie needing selection"),
    }
}

#[test]
fn save_then_read_reproduces_the_mapping() {
    let text = "[Added Associations]\nimage/png=viewer.desktop;\n\n[Default Applications]\ntext/plain=A.desktop;B.desktop;\nvideo/mp4=mpv.desktop;\n";
    let (added, defaults) = parse_config(text);
    let written = serialize_config(&added, &defaults);
    let (added2, defaults2) = parse_config(written.as_str());
    let rewritten = serialize_config(&added2, &defaults2);
    assert_eq!(written, rewritten);
    assert_eq!(written, text);
}

#[test]
fn save_writes_sections_sorted_by_mime_type() {
    let (added, defaults) =
        parse_config("[Default Applications]\nvideo/mp4=B.desktop;\naudio/ogg=A.desktop;\n");
    let written = serialize_config(&added, &defaults);
    assert_eq!(
        written,
        "[Added Associations]\n\n[Default Applications]\naudio/ogg=A.desktop;\nvideo/mp4=B.desktop;\n"
    );
}

#[test]
fn parse_collapses_duplicates_and_skips_malformed_lines() {
    let text = "[Bogus Section]\nvideo/mp4=ignored.desktop;\n[Default Applications]\nnot-a-mime=x.desktop;\ntext/plain=a.desktop;;a.desktop;b.desktop;\nempty/list=;;;\n";
    let (added, defaults) = parse_config(text);
    assert_eq!(rows_of_map(&added).len(), 0);
    let rows = rows_of_map(&defaults);
    assert_eq!(rows.len(), 1);
    assert_eq!(rows[0].mime, "text/plain");
    assert_eq!(rows[0].handlers, "a.desktop, b.desktop");
}

#[test]
fn parse_keeps_the_last_entry_for_a_repeated_key() {
    let (_, defaults) = parse_config(
        "[Default Applications]\ntext/plain=first.desktop;\ntext/plain=second.desktop;\n",
    );
    let rows = rows_of_map(&defaults);
    assert_eq!(rows.len(), 1);
    assert_eq!(rows[0].handlers, "second.desktop");
}

#[test]
fn an_empty_store_writes_only_the_two_headers() {
    let (added, defaults) = parse_config("");
    assert_eq!(rows_of_map(&added).len(), 0);
    assert_eq!(rows_of_map(&defaults).len(), 0);
    let written = serialize_config(&added, &defaults);
    assert_eq!(written, "[Added Associations]\n\n[Default Applications]\n");
    let (a2, d2) = parse_config(written.as_str());
    assert_eq!(rows_of_map(&a2).len(), 0);
    assert_eq!(rows_of_map(&d2).len(), 0);
}

#[test]
fn entries_before_any_recognized_section_are_skipped() {
    let (added, defaults) = parse_config("text/plain=a.desktop;\n[Default Applications]\ntext/html=b.desktop;\n");
    assert_eq!(rows_of_map(&added).len(), 0);
    let rows = rows_of_map(&defaults);
    assert_eq!(rows.len(), 1);
    assert_eq!(rows[0].mime, "text/html");
}

#[test]
fn mime_strings_are_validated() {
    assert!(MimeType::parse("video/mp4").is_ok());
    assert!(MimeType::parse("x-scheme-handler/terminal").is_ok());
    assert!(MimeType::parse("video/*").is_ok());
    assert!(matches!(
        MimeType::parse("noslash"),
        Err(handlr::Error::BadMime(t)) if t == "noslash"
    ));
    assert!(MimeType::parse("a/b/c").is_err());
    assert!(MimeType::parse("").is_err());
    assert!(MimeType::parse("/x").is_err());
    assert!(MimeType::parse("x/").is_err());
    assert!(MimeType::parse("has space/x").is_err());
    assert!(MimeType::parse("a=b/x").is_err());
}

#[test]
fn wildcard_of_a_type_keeps_the_type_part() {
    let m = MimeType::parse("video/mp4").unwrap();
    assert_eq!(m.wildcard().to_string(), "video/*");
    let w = MimeType::parse("application/vnd.api+json").unwrap();
    assert_eq!(w.wildcard().to_string(), "application/*");
}
