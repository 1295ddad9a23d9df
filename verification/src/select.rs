//! Decisions of the interactive pickers: matching a chosen label back to
//! a candidate, reading a numbered selection, and the rows the fuzzy
//! picker is fed.  The prompting itself is input/output and lives with
//! the callers.

use vstd::prelude::*;

use crate::Error;
use crate::desktop_entry::DesktopEntry;
use crate::desktop_entry::DesktopEntryView;
use crate::handler::Handler;
use crate::text::chars_of;
use crate::text::string_from_chars;
use crate::text::trim_chars;
use crate::text::trimmed;

verus! {

/// The view of one labelled candidate.
pub struct CandidateView {
    pub handler: Seq<char>,
    pub label: Seq<char>,
}

/// One candidate offered to the user: a handler and the label shown for
/// it.
pub struct Candidate {
    pub handler: Handler,
    pub label: String,
}

impl View for Candidate {
    type V = CandidateView;

    open spec fn view(&self) -> CandidateView {
        CandidateView { handler: self.handler@, label: self.label@ }
    }
}

/// The handler of the first candidate carrying the label, if any.
pub open spec fn label_find(s: Seq<CandidateView>, c: Seq<char>) -> Option<Seq<char>>
    decreases s.len(),
{
    if s.len() == 0 {
        None
    } else if s[0].label == c {
        Some(s[0].handler)
    } else {
        label_find(s.subrange(1, s.len() as int), c)
    }
}

/// Turns what the selector returned into a resolution outcome: no choice
/// is a cancellation, never a default guess; a choice names the first
/// candidate whose label matches, and a label no candidate carries is
/// reported as not found.
pub fn finish_selection(cands: &Vec<Candidate>, chosen: Option<String>) -> (r: Result<
    Handler,
    Error,
>)
    ensures
        chosen is None ==> (r matches Err(e) && e is Cancelled),
        chosen matches Some(c) ==> match label_find(
            cands@.map_values(|x: Candidate| x@),
            c@,
        ) {
            Some(h) => r matches Ok(hh) && hh@ == h,
            None => r matches Err(e) && (e matches Error::NotFound(t) && t@ == c@),
        },
{
    let ghost v = cands@.map_values(|x: Candidate| x@);
    let c = match chosen {
        Some(c) => c,
        None => {
            return Err(Error::Cancelled);
        },
    };
    let mut i: usize = 0;
    proof {
        assert(v.subrange(0, v.len() as int) =~= v);
    }
    while i < cands.len()
        invariant
            i <= cands@.len(),
            chosen == Some(c),
            v == cands@.map_values(|x: Candidate| x@),
            v.len() == cands@.len(),
            label_find(v, c@) == label_find(v.subrange(i as int, v.len() as int), c@),
            forall|j: int| 0 <= j < i ==> (#[trigger] v[j]).label != c@,
        decreases cands@.len() - i,
    {
        let ghost rest = v.subrange(i as int, v.len() as int);
        proof {
            assert(rest[0] == v[i as int]);
            assert(rest.subrange(1, rest.len() as int) =~= v.subrange(i + 1, v.len() as int));
        }
        let e = &cands[i];
        proof {
            assert(v[i as int] == e@);
        }
        if e.label == c {
            return Ok(e.handler.clone());
        }
        i += 1;
    }
    proof {
        assert(v.subrange(i as int, v.len() as int).len() == 0);
    }
    Err(Error::NotFound(c))
}

/// What a line of numbered-picker input means.
pub enum SelectionStep {
    /// Empty input: the user declined to pick.
    Cancel,
    /// A number between one and the number of items: that item, one-based.
    Pick(usize),
    /// Anything else: show the menu again.
    Retry,
}

/// Whether every character is a decimal digit.
pub open spec fn all_digits(s: Seq<char>) -> bool {
    forall|i: int| 0 <= i < s.len() ==> is_digit(#[trigger] s[i])
}

/// Whether `c` is a decimal digit.
pub open spec fn is_digit(c: char) -> bool {
    '0' as int <= c as int <= '9' as int
}

/// The number a digit sequence denotes, most significant digit first.
pub open spec fn dec_value(s: Seq<char>) -> int
    decreases s.len(),
{
    if s.len() == 0 {
        0
    } else {
        dec_value(s.drop_last()) * 10 + (s.last() as int - '0' as int)
    }
}

/// A digit sequence's value is not negative.
proof fn lemma_dec_value_nonneg(s: Seq<char>)
    requires
        all_digits(s),
    ensures
        dec_value(s) >= 0,
    decreases s.len(),
{
    if s.len() != 0 {
        let p = s.drop_last();
        assert(forall|i: int| 0 <= i < p.len() ==> p[i] == s[i]);
        lemma_dec_value_nonneg(p);
    }
}

/// Reads one line of numbered-picker input for a menu of `n` items:
/// blank input cancels; a decimal number from one through `n` picks that
/// item; everything else asks again.
pub fn parse_selection(input: &str, n: usize) -> (r: SelectionStep)
    ensures
        trimmed(input@).len() == 0 ==> r is Cancel,
        trimmed(input@).len() > 0 ==> {
            let t = trimmed(input@);
            if all_digits(t) && 1 <= dec_value(t) <= n {
                r matches SelectionStep::Pick(k) && k == dec_value(t)
            } else {
                r is Retry
            }
        },
{
    let v = chars_of(input);
    let t = trim_chars(&v);
    if t.len() == 0 {
        return SelectionStep::Cancel;
    }
    let mut acc: u128 = 0;
    let mut over = false;
    let mut i: usize = 0;
    proof {
        assert(t@.subrange(0, 0).len() == 0);
    }
    while i < t.len()
        invariant
            i <= t@.len(),
            t@ == trimmed(input@),
            all_digits(t@.subrange(0, i as int)),
            !over ==> acc as int == dec_value(t@.subrange(0, i as int)) && acc <= usize::MAX as u128,
            over ==> dec_value(t@.subrange(0, i as int)) > usize::MAX as int,
        decreases t@.len() - i,
    {
        let ghost pre = t@.subrange(0, i as int);
        let ghost cur = t@.subrange(0, i + 1);
        proof {
            assert(cur.drop_last() =~= pre);
            assert(cur.last() == t@[i as int]);
        }
        let c = t[i];
        if !('0' <= c && c <= '9') {
            proof {
                assert(t@[i as int] == c);
                assert(!is_digit(t@[i as int]));
            }
            return SelectionStep::Retry;
        }
        proof {
            assert(is_digit(t@[i as int]));
            lemma_dec_value_nonneg(pre);
        }
        let d = (c as u32) - ('0' as u32);
        if over {
            proof {
                assert(dec_value(cur) == dec_value(pre) * 10 + (c as int - '0' as int));
            }
        } else {
            let next = acc * 10 + (d as u128);
            proof {
                assert(d as int == c as int - '0' as int);
                assert(next as int == dec_value(cur));
            }
            if next > (usize::MAX as u128) {
                over = true;
            } else {
                acc = next;
            }
        }
        i += 1;
    }
    proof {
        assert(t@.subrange(0, t@.len() as int) =~= t@);
    }
    if over {
        return SelectionStep::Retry;
    }
    let k = acc as usize;
    if 1 <= k && k <= n {
        SelectionStep::Pick(k)
    } else {
        SelectionStep::Retry
    }
}

/// `s` without any double-quote characters.
pub open spec fn without_quotes(s: Seq<char>) -> Seq<char>
    decreases s.len(),
{
    if s.len() == 0 {
        Seq::empty()
    } else {
        let d = without_quotes(s.drop_last());
        if s.last() == '"' {
            d
        } else {
            d.push(s.last())
        }
    }
}

/// The characters of `s` with double quotes removed.
fn strip_quotes(s: &str) -> (r: String)
    ensures
        r@ == without_quotes(s@),
{
    let v = chars_of(s);
    let mut out: Vec<char> = Vec::new();
    let mut i: usize = 0;
    proof {
        assert(v@.subrange(0, 0).len() == 0);
        assert(out@ =~= without_quotes(v@.subrange(0, 0)));
    }
    while i < v.len()
        invariant
            i <= v@.len(),
            v@ == s@,
            out@ == without_quotes(v@.subrange(0, i as int)),
        decreases v@.len() - i,
    {
        let ghost pre = v@.subrange(0, i as int);
        let ghost cur = v@.subrange(0, i + 1);
        proof {
            assert(cur.drop_last() =~= pre);
            assert(cur.last() == v@[i as int]);
        }
        let c = v[i];
        if c != '"' {
            out.push(c);
        }
        i += 1;
    }
    proof {
        assert(v@.subrange(0, v@.len() as int) =~= v@);
    }
    string_from_chars(&out)
}

/// One row the fuzzy picker shows: the displayed text and the output
/// text it hands back when picked.
pub struct SkimRow {
    pub display: String,
    pub output: String,
}

/// The picker rows for the given entries, in order: each entry is shown
/// as its display name, two dashes, and its quote-stripped file name,
/// and hands back the quote-stripped file name when picked.
pub fn skim_desktop_items(desktops: &Vec<DesktopEntry>) -> (r: Vec<SkimRow>)
    ensures
        r@.len() == desktops@.len(),
        forall|i: int|
            0 <= i < r@.len() ==> (#[trigger] r@[i]).display@ == desktops@[i]@.name + " -- "@
                + without_quotes(desktops@[i]@.file_name) && r@[i].output@ == without_quotes(
                desktops@[i]@.file_name,
            ),
{
    let mut r: Vec<SkimRow> = Vec::new();
    let mut i: usize = 0;
    while i < desktops.len()
        invariant
            i <= desktops@.len(),
            r@.len() == i,
            forall|j: int|
                0 <= j < i ==> (#[trigger] r@[j]).display@ == desktops@[j]@.name + " -- "@
                    + without_quotes(desktops@[j]@.file_name) && r@[j].output@ == without_quotes(
                    desktops@[j]@.file_name,
                ),
        decreases desktops@.len() - i,
    {
        let e = &desktops[i];
        let cleaned = strip_quotes(e.file_name.as_str());
        let mut display = e.name.clone();
        display.append(" -- ");
        display.append(cleaned.as_str());
        let row = SkimRow { display, output: cleaned };
        r.push(row);
        i += 1;
    }
    r
}

/// The texts the picker is fed, in candidate order.
pub fn skim_items(rows: &Vec<SkimRow>) -> (r: Vec<String>)
    ensures
        r@.len() == rows@.len(),
        forall|i: int| 0 <= i < r@.len() ==> (#[trigger] r@[i])@ == rows@[i].display@,
{
    let mut r: Vec<String> = Vec::new();
    let mut i: usize = 0;
    while i < rows.len()
        invariant
            i <= rows@.len(),
            r@.len() == i,
            forall|j: int| 0 <= j < i ==> (#[trigger] r@[j])@ == rows@[j].display@,
        decreases rows@.len() - i,
    {
        let s = rows[i].display.clone();
        r.push(s);
        i += 1;
    }
    r
}

/// The index of the first entry whose quote-stripped file name is `c`,
/// or `-1`.
pub open spec fn find_output(s: Seq<DesktopEntryView>, c: Seq<char>) -> int
    decreases s.len(),
{
    if s.len() == 0 {
        -1
    } else if without_quotes(s[0].file_name) == c {
        0
    } else {
        let r = find_output(s.subrange(1, s.len() as int), c);
        if r < 0 {
            -1
        } else {
            r + 1
        }
    }
}

/// Decides a fuzzy-picker selection: a single candidate is taken without
/// a prompt; otherwise the picker's answer names the first entry whose
/// output text matches, and no answer, or an unknown one, selects
/// nothing.
pub fn skim_select_item(desktops: &Vec<DesktopEntry>, chosen: Option<String>) -> (r: Option<usize>)
    ensures
        desktops@.len() == 1 ==> r == Some(0usize),
        desktops@.len() != 1 ==> match chosen {
            Some(c) => {
                let f = find_output(desktops@.map_values(|e: DesktopEntry| e@), c@);
                if f >= 0 {
                    r matches Some(k) && k == f
                } else {
                    r is None
                }
            },
            None => r is None,
        },
{
    let ghost v = desktops@.map_values(|e: DesktopEntry| e@);
    if desktops.len() == 1 {
        return Some(0);
    }
    let c = match chosen {
        Some(c) => c,
        None => {
            return None;
        },
    };
    let mut i: usize = 0;
    proof {
        assert(v.subrange(0, v.len() as int) =~= v);
    }
    while i < desktops.len()
        invariant
            i <= desktops@.len(),
            chosen == Some(c),
            desktops@.len() != 1,
            v == desktops@.map_values(|e: DesktopEntry| e@),
            v.len() == desktops@.len(),
            find_output(v, c@) == (if find_output(v.subrange(i as int, v.len() as int), c@) < 0 {
                -1
            } else {
                find_output(v.subrange(i as int, v.len() as int), c@) + i
            }),
        decreases desktops@.len() - i,
    {
        let ghost rest = v.subrange(i as int, v.len() as int);
        proof {
            assert(rest[0] == v[i as int]);
            assert(rest.subrange(1, rest.len() as int) =~= v.subrange(i + 1, v.len() as int));
        }
        let e = &desktops[i];
        proof {
            assert(v[i as int] == e@);
        }
        let cleaned = strip_quotes(e.file_name.as_str());
        if cleaned == c {
            return Some(i);
        }
        i += 1;
    }
    proof {
        assert(v.subrange(i as int, v.len() as int).len() == 0);
    }
    None
}

} // verus!
