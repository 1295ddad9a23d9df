use handlr::config::{interpret_selector_output, selector_input, find_terminal_entry, Config};
use handlr::desktop_entry::DesktopEntry;
use handlr::handler::Handler;
use handlr::mime_type::MimeType;
use handlr::select::{
    finish_selection, parse_selection, skim_desktop_items, skim_items, skim_select_item,
    Candidate, SelectionStep,
};

fn entry(file_name: &str, name: &str, mimes: &[&str]) -> DesktopEntry {
    DesktopEntry {
        file_name: file_name.to_string(),
        name: name.to_string(),
        mimes: mimes
            .iter()
            .map(|m| MimeType::parse(m).unwrap())
            .collect(),
        categories: Vec::new(),
        exec_cmd: String::new(),
    }
}

fn cands() -> Vec<Candidate> {
    vec![
        Candidate {
            handler: Handler::assume_valid("a.desktop".into()),
            label: "Archiver".to_string(),
        },
        Candidate {
            handler: Handler::assume_valid("b.desktop".into()),
            label: "Browser".to_string(),
        },
    ]
}

#[test]
fn empty_selection_always_cancels() {
    // dismissing the labelled prompt
    assert!(matches!(
        finish_selection(&cands(), None),
        Err(handlr::Error::Cancelled)
    ));
    // an external selector that wrote nothing, or only whitespace
    assert!(matches!(
        interpret_selector_output(""),
        Err(handlr::Error::Cancelled)
    ));
    assert!(matches!(
        interpret_selector_output(" \t\n"),
        Err(handlr::Error::Cancelled)
    ));
    // a blank line at the numbered prompt
    assert!(matches!(parse_selection("  \n", 3), SelectionStep::Cancel));
    // the fuzzy picker aborted
    assert_eq!(skim_select_item(&vec![], None), None);
}

#[test]
fn a_choice_names_the_matching_candidate() {
    let picked = finish_selection(&cands(), Some("Browser".to_string())).unwrap();
    assert_eq!(picked.to_string(), "b.desktop");
    assert!(matches!(
        finish_selection(&cands(), Some("Missing".to_string())),
        Err(handlr::Error::NotFound(t)) if t == "Missing"
    ));
}

#[test]
fn selector_io_round_trip() {
    let labels = vec!["one".to_string(), "two".to_string(), "three".to_string()];
    assert_eq!(selector_input(&labels), "one\ntwo\nthree");
    assert_eq!(interpret_selector_output("two\n").unwrap(), "two");
}

#[test]
fn numbered_input_is_read_exactly() {
    assert!(matches!(parse_selection("2", 3), SelectionStep::Pick(2)));
    assert!(matches!(parse_selection(" 3 \n", 3), SelectionStep::Pick(3)));
    assert!(matches!(parse_selection("0", 3), SelectionStep::Retry));
    assert!(matches!(parse_selection("4", 3), SelectionStep::Retry));
    assert!(matches!(parse_selection("two", 3), SelectionStep::Retry));
    assert!(matches!(
        parse_selection("99999999999999999999999999", 3),
        SelectionStep::Retry
    ));
}

#[test]
fn fuzzy_rows_show_name_and_cleaned_file_name() {
    let desktops = vec![
        entry("a.desktop", "Archiver", &["application/zip"]),
        entry("b\"quoted\".desktop", "Browser", &["text/html"]),
    ];
    let rows = skim_desktop_items(&desktops);
    assert_eq!(rows.len(), 2);
    assert_eq!(rows[0].display, "Archiver -- a.desktop");
    assert_eq!(rows[1].display, "Browser -- bquoted.desktop");
    assert_eq!(rows[1].output, "bquoted.desktop");
    let items = skim_items(&rows);
    assert_eq!(
        items,
        vec![
            "Archiver -- a.desktop".to_string(),
            "Browser -- bquoted.desktop".to_string()
        ]
    );
}

#[test]
fn fuzzy_selection_picks_by_output_text() {
    let desktops = vec![
        entry("a.desktop", "Archiver", &["application/zip"]),
        entry("b.desktop", "Browser", &["text/html"]),
    ];
    assert_eq!(
        skim_select_item(&desktops, Some("b.desktop".to_string())),
        Some(1)
    );
    assert_eq!(skim_select_item(&desktops, Some("zzz".to_string())), None);
    assert_eq!(skim_select_item(&desktops, None), None);

    // one candidate is taken without prompting
    let single = vec![entry("a.desktop", "Archiver", &["application/zip"])];
    assert_eq!(skim_select_item(&single, Some("whatever".into())), Some(0));
}

#[test]
fn default_config_keeps_selection_off() {
    let c = Config::default();
    assert!(!c.enable_selector);
    assert_eq!(c.selector, "rofi -dmenu -i -p 'Open With: '");
}

#[test]
fn a_terminal_emulator_is_found_by_category() {
    let mut term = entry("term.desktop", "Term", &[]);
    term.categories = vec!["System".to_string(), "TerminalEmulator".to_string()];
    let entries = vec![entry("a.desktop", "Archiver", &[]), term];
    assert_eq!(find_terminal_entry(&entries), Some(1));
    let none = vec![entry("a.desktop", "Archiver", &[])];
    assert_eq!(find_terminal_entry(&none), None);
}
