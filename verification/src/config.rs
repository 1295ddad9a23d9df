//! The user's configuration: whether interactive selection is enabled
//! and which external selector command serves it, plus the decisions
//! around running that selector.

use vstd::prelude::*;

use crate::Error;
use crate::desktop_entry::DesktopEntry;
use crate::text::chars_of;
use crate::text::join_with;
use crate::text::string_from_chars;
use crate::text::trim_end_chars;
use crate::text::trim_end_spec;

verus! {

/// The loaded configuration.
pub struct Config {
    /// Whether a tie among user defaults is put to the user.
    pub enable_selector: bool,
    /// The command line of the external selector.
    pub selector: String,
}

impl Default for Config {
    /// Selection starts disabled, with a line-oriented menu command as
    /// the selector.
    fn default() -> (r: Config)
        ensures
            !r.enable_selector,
            r.selector@ == "rofi -dmenu -i -p 'Open With: '"@,
    {
        Config {
            enable_selector: false,
            selector: "rofi -dmenu -i -p 'Open With: '".to_owned(),
        }
    }
}

/// The text handed to the external selector: the candidate labels joined
/// with newlines.
pub fn selector_input(labels: &Vec<String>) -> (r: String)
    ensures
        r@ == join_with(labels@.map_values(|s: String| s@), "\n"@),
{
    let ghost v = labels@.map_values(|s: String| s@);
    let mut r = String::new();
    let mut i: usize = 0;
    proof {
        assert(v.subrange(0, 0).len() == 0);
    }
    while i < labels.len()
        invariant
            i <= labels@.len(),
            v == labels@.map_values(|s: String| s@),
            v.len() == labels@.len(),
            r@ == join_with(v.subrange(0, i as int), "\n"@),
        decreases labels@.len() - i,
    {
        let ghost pre = v.subrange(0, i as int);
        let ghost cur = v.subrange(0, i + 1);
        proof {
            assert(cur.drop_last() =~= pre);
            assert(cur.last() == v[i as int]);
        }
        if i > 0 {
            r.append("\n");
        }
        r.append(labels[i].as_str());
        proof {
            if i == 0 {
                assert(cur.len() == 1);
                assert(r@ == cur[0]);
            }
        }
        i += 1;
    }
    proof {
        assert(v.subrange(0, v.len() as int) =~= v);
    }
    r
}

/// Reads what the external selector wrote back: the output without
/// trailing whitespace is the chosen label, and an empty answer is a
/// cancellation, never a default guess.
pub fn interpret_selector_output(raw: &str) -> (r: Result<String, Error>)
    ensures
        trim_end_spec(raw@).len() == 0 ==> (r matches Err(e) && e is Cancelled),
        trim_end_spec(raw@).len() > 0 ==> (r matches Ok(s) && s@ == trim_end_spec(raw@)),
{
    let v = chars_of(raw);
    let t = trim_end_chars(&v);
    if t.len() == 0 {
        Err(Error::Cancelled)
    } else {
        Ok(string_from_chars(&t))
    }
}

/// The index of the first entry declaring the terminal-emulator
/// category, used to guess a terminal when none is configured.
pub fn find_terminal_entry(entries: &Vec<DesktopEntry>) -> (r: Option<usize>)
    ensures
        match r {
            Some(i) => i < entries@.len() && entries@[i as int]@.categories.contains(
                "TerminalEmulator"@,
            ) && (forall|j: int|
                0 <= j < i ==> !(#[trigger] entries@[j])@.categories.contains(
                    "TerminalEmulator"@,
                )),
            None => forall|j: int|
                0 <= j < entries@.len() ==> !(#[trigger] entries@[j])@.categories.contains(
                    "TerminalEmulator"@,
                ),
        },
{
    let mut i: usize = 0;
    while i < entries.len()
        invariant
            i <= entries@.len(),
            forall|j: int|
                0 <= j < i ==> !(#[trigger] entries@[j])@.categories.contains(
                    "TerminalEmulator"@,
                ),
        decreases entries@.len() - i,
    {
        let cat = String::from_str("TerminalEmulator");
        if entry_has_category(&entries[i], &cat) {
            proof {
                assert(entries@[i as int]@.categories.contains("TerminalEmulator"@));
            }
            return Some(i);
        }
        i += 1;
    }
    None
}

/// Whether the entry lists the given category.
fn entry_has_category(e: &DesktopEntry, cat: &String) -> (r: bool)
    ensures
        r == e@.categories.contains(cat@),
{
    let mut i: usize = 0;
    while i < e.categories.len()
        invariant
            i <= e.categories@.len(),
            forall|j: int| 0 <= j < i ==> e@.categories[j] != cat@,
        decreases e.categories@.len() - i,
    {
        proof {
            assert(e@.categories[i as int] == e.categories@[i as int]@);
        }
        if e.categories[i] == *cat {
            proof {
                assert(e@.categories[i as int] == cat@);
            }
            return true;
        }
        i += 1;
    }
    proof {
        if e@.categories.contains(cat@) {
            let j = choose|j: int| 0 <= j < e@.categories.len() && e@.categories[j] == cat@;
        }
    }
    false
}

} // verus!
