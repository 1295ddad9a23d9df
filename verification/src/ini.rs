//! The persisted override file: a line-oriented text with two recognized
//! section headers, each line under them a `mime=handler;handler;...;`
//! property.  Parsing and serialization are inverse on well-formed stores.

use vstd::prelude::*;

use crate::handler::Handler;
use crate::handler::allowed_handler_char;
use crate::handler::valid_handler;
use crate::mime_map::EntryView;
use crate::mime_map::MimeMap;
use crate::mime_map::upsert_replace;
use crate::mime_map::wf_entries;
use crate::mime_map::wf_handlers;
use crate::mime_type::MimeType;
use crate::mime_type::valid_mime;
use crate::text::chars_of;
use crate::text::find_char;
use crate::text::join_term;
use crate::text::lemma_find_char_at;
use crate::text::lemma_find_char_none;
use crate::text::split_chars;
use crate::text::split_on;
use crate::text::string_from_chars;
use crate::text::subvec;
use crate::text::chars_eq;

verus! {

/// Whether a line is a section header: bracketed on both ends.
pub open spec fn line_is_section(l: Seq<char>) -> bool {
    l.len() >= 2 && l[0] == '[' && l[l.len() - 1] == ']'
}

/// The name between the brackets of a section header.
pub open spec fn section_name(l: Seq<char>) -> Seq<char> {
    l.subrange(1, l.len() - 1)
}

/// The key and value of a property line, split at the first `=`; `None`
/// when the line has no `=`.
pub open spec fn line_property(l: Seq<char>) -> Option<(Seq<char>, Seq<char>)> {
    let i = find_char(l, '=');
    if 0 <= i < l.len() {
        Some((l.subrange(0, i), l.subrange(i + 1, l.len() as int)))
    } else {
        None
    }
}

/// The nonempty segments of `ps`, in order.
pub open spec fn filter_nonempty(ps: Seq<Seq<char>>) -> Seq<Seq<char>>
    decreases ps.len(),
{
    if ps.len() == 0 {
        Seq::empty()
    } else {
        let d = filter_nonempty(ps.drop_last());
        if ps.last().len() > 0 {
            d.push(ps.last())
        } else {
            d
        }
    }
}

/// `ps` with every repetition of an earlier segment dropped.
pub open spec fn dedup_first(ps: Seq<Seq<char>>) -> Seq<Seq<char>>
    decreases ps.len(),
{
    if ps.len() == 0 {
        Seq::empty()
    } else {
        let d = dedup_first(ps.drop_last());
        if d.contains(ps.last()) {
            d
        } else {
            d.push(ps.last())
        }
    }
}

/// The valid handler tokens of `ps`, in order.
pub open spec fn filter_valid(ps: Seq<Seq<char>>) -> Seq<Seq<char>>
    decreases ps.len(),
{
    if ps.len() == 0 {
        Seq::empty()
    } else {
        let d = filter_valid(ps.drop_last());
        if valid_handler(ps.last()) {
            d.push(ps.last())
        } else {
            d
        }
    }
}

/// The handler tokens a property value yields: its `;`-separated
/// segments, empties dropped, repetitions collapsed to the first
/// occurrence, invalid tokens dropped.
pub open spec fn value_tokens(v: Seq<char>) -> Seq<Seq<char>> {
    filter_valid(dedup_first(filter_nonempty(split_on(v, ';'))))
}

/// The section a recognized header switches to.
pub enum Section {
    Neither,
    Added,
    Defaults,
}

/// The two override maps a sequence of lines denotes, starting from the
/// given section and accumulated maps: headers switch the section, and a
/// property line with a valid MIME key and at least one token replaces
/// that key's list in the current section's map.
pub open spec fn parse_lines(
    lines: Seq<Seq<char>>,
    sec: Section,
    added: Seq<EntryView>,
    defaults: Seq<EntryView>,
) -> (Seq<EntryView>, Seq<EntryView>)
    decreases lines.len(),
{
    if lines.len() == 0 {
        (added, defaults)
    } else {
        let l = lines[0];
        let rest = lines.subrange(1, lines.len() as int);
        if line_is_section(l) {
            let ns = if section_name(l) == "Added Associations"@ {
                Section::Added
            } else if section_name(l) == "Default Applications"@ {
                Section::Defaults
            } else {
                Section::Neither
            };
            parse_lines(rest, ns, added, defaults)
        } else {
            match line_property(l) {
                Some(kv) => {
                    let ts = value_tokens(kv.1);
                    if valid_mime(kv.0) && ts.len() > 0 {
                        match sec {
                            Section::Added => parse_lines(
                                rest,
                                sec,
                                upsert_replace(added, kv.0, ts),
                                defaults,
                            ),
                            Section::Defaults => parse_lines(
                                rest,
                                sec,
                                added,
                                upsert_replace(defaults, kv.0, ts),
                            ),
                            Section::Neither => parse_lines(rest, sec, added, defaults),
                        }
                    } else {
                        parse_lines(rest, sec, added, defaults)
                    }
                },
                None => parse_lines(rest, sec, added, defaults),
            }
        }
    }
}

/// What the whole text denotes, starting outside any recognized section
/// with empty maps.
pub open spec fn parse_spec(text: Seq<char>) -> (Seq<EntryView>, Seq<EntryView>) {
    parse_lines(split_on(text, '\n'), Section::Neither, Seq::empty(), Seq::empty())
}

/// The token list of a value is well formed whenever it is nonempty.
pub proof fn lemma_value_tokens_wf(ps: Seq<Seq<char>>)
    ensures
        wf_handlers(filter_valid(dedup_first(ps))) || filter_valid(dedup_first(ps)).len() == 0,
{
    lemma_dedup_first_distinct(ps);
    lemma_filter_valid_props(dedup_first(ps));
}

/// Deduplication yields distinct segments, each taken from the input.
pub proof fn lemma_dedup_first_distinct(ps: Seq<Seq<char>>)
    ensures
        crate::mime_map::distinct_seqs(dedup_first(ps)),
    decreases ps.len(),
{
    if ps.len() != 0 {
        lemma_dedup_first_distinct(ps.drop_last());
        let d = dedup_first(ps.drop_last());
        if !d.contains(ps.last()) {
            let d1 = d.push(ps.last());
            assert forall|i: int, j: int| 0 <= i < j < d1.len() implies d1[i] != d1[j] by {
                if j == d1.len() - 1 {
                    if d1[i] == ps.last() {
                        assert(d[i] == ps.last());
                        assert(d.contains(ps.last()));
                    }
                } else {
                    assert(d1[i] == d[i] && d1[j] == d[j]);
                }
            }
        }
    }
}

/// Whether a deduplicated segment list holds `x`.
fn segs_contain(out: &Vec<Vec<char>>, x: &Vec<char>) -> (r: bool)
    ensures
        r == out.deep_view().contains(x@),
{
    let mut i: usize = 0;
    while i < out.len()
        invariant
            i <= out@.len(),
            forall|j: int| 0 <= j < i ==> out.deep_view()[j] != x@,
        decreases out@.len() - i,
    {
        let eq = chars_eq(&out[i], x);
        proof {
            assert(out.deep_view()[i as int] =~= out@[i as int]@);
        }
        if eq {
            proof {
                assert(out.deep_view()[i as int] == x@);
            }
            return true;
        }
        i += 1;
    }
    proof {
        if out.deep_view().contains(x@) {
            let j = choose|j: int| 0 <= j < out.deep_view().len() && out.deep_view()[j] == x@;
        }
    }
    false
}

/// A handler built from a token, when the token is valid.
fn handler_token(v: &Vec<char>) -> (r: Option<Handler>)
    ensures
        match r {
            Some(h) => valid_handler(v@) && h@ == v@,
            None => !valid_handler(v@),
        },
{
    if v.len() == 0 {
        return None;
    }
    let mut i: usize = 0;
    while i < v.len()
        invariant
            i <= v@.len(),
            forall|j: int| 0 <= j < i ==> allowed_handler_char(#[trigger] v@[j]),
        decreases v@.len() - i,
    {
        let c = v[i];
        if c == ';' || c == '\n' || c == '=' {
            return None;
        }
        i += 1;
    }
    Some(Handler { name: string_from_chars(v) })
}

/// The handler tokens of a property value, as `value_tokens` describes.
pub fn tokens_of(val: &Vec<char>) -> (r: Vec<Handler>)
    ensures
        r@.map_values(|h: Handler| h@) == value_tokens(val@),
        wf_handlers(value_tokens(val@)) || value_tokens(val@).len() == 0,
{
    let raw = split_chars(val, ';');
    let mut nes: Vec<Vec<char>> = Vec::new();
    let mut i: usize = 0;
    proof {
        assert(raw.deep_view().subrange(0, 0).len() == 0);
        assert(nes.deep_view() =~~= filter_nonempty(raw.deep_view().subrange(0, 0)));
    }
    while i < raw.len()
        invariant
            i <= raw@.len(),
            raw.deep_view().len() == raw@.len(),
            raw.deep_view() == split_on(val@, ';'),
            nes.deep_view() == filter_nonempty(raw.deep_view().subrange(0, i as int)),
        decreases raw@.len() - i,
    {
        let ghost pre = raw.deep_view().subrange(0, i as int);
        let ghost cur = raw.deep_view().subrange(0, i + 1);
        proof {
            assert(cur.drop_last() =~= pre);
            assert(cur.last() == raw.deep_view()[i as int]);
            assert(raw.deep_view()[i as int] =~= raw@[i as int]@);
        }
        let ghost n0 = nes.deep_view();
        if raw[i].len() > 0 {
            let seg = subvec(&raw[i], 0, raw[i].len());
            proof {
                assert(seg@ =~= raw.deep_view()[i as int]);
            }
            nes.push(seg);
            proof {
                assert(nes.deep_view() =~~= n0.push(raw.deep_view()[i as int]));
            }
        }
        i += 1;
    }
    proof {
        assert(raw.deep_view().subrange(0, raw.deep_view().len() as int) =~= raw.deep_view());
    }
    let mut ded: Vec<Vec<char>> = Vec::new();
    let mut j: usize = 0;
    proof {
        assert(nes.deep_view().subrange(0, 0).len() == 0);
        assert(ded.deep_view() =~~= dedup_first(nes.deep_view().subrange(0, 0)));
    }
    while j < nes.len()
        invariant
            j <= nes@.len(),
            nes.deep_view().len() == nes@.len(),
            nes.deep_view() == filter_nonempty(split_on(val@, ';')),
            ded.deep_view() == dedup_first(nes.deep_view().subrange(0, j as int)),
        decreases nes@.len() - j,
    {
        let ghost pre = nes.deep_view().subrange(0, j as int);
        let ghost cur = nes.deep_view().subrange(0, j + 1);
        proof {
            assert(cur.drop_last() =~= pre);
            assert(cur.last() == nes.deep_view()[j as int]);
            assert(nes.deep_view()[j as int] =~= nes@[j as int]@);
        }
        let ghost d0 = ded.deep_view();
        if !segs_contain(&ded, &nes[j]) {
            let seg = subvec(&nes[j], 0, nes[j].len());
            proof {
                assert(seg@ =~= nes.deep_view()[j as int]);
            }
            ded.push(seg);
            proof {
                assert(ded.deep_view() =~~= d0.push(nes.deep_view()[j as int]));
            }
        }
        j += 1;
    }
    proof {
        assert(nes.deep_view().subrange(0, nes.deep_view().len() as int) =~= nes.deep_view());
    }
    let mut r: Vec<Handler> = Vec::new();
    let mut l: usize = 0;
    proof {
        assert(ded.deep_view().subrange(0, 0).len() == 0);
        assert(r@.map_values(|h: Handler| h@) =~~= filter_valid(ded.deep_view().subrange(0, 0)));
    }
    while l < ded.len()
        invariant
            l <= ded@.len(),
            ded.deep_view().len() == ded@.len(),
            ded.deep_view() == dedup_first(filter_nonempty(split_on(val@, ';'))),
            r@.map_values(|h: Handler| h@) == filter_valid(ded.deep_view().subrange(0, l as int)),
        decreases ded@.len() - l,
    {
        let ghost pre = ded.deep_view().subrange(0, l as int);
        let ghost cur = ded.deep_view().subrange(0, l + 1);
        proof {
            assert(cur.drop_last() =~= pre);
            assert(cur.last() == ded.deep_view()[l as int]);
            assert(ded.deep_view()[l as int] =~= ded@[l as int]@);
        }
        let ghost r0 = r@.map_values(|h: Handler| h@);
        match handler_token(&ded[l]) {
            Some(h) => {
                proof {
                    assert(h@ == ded.deep_view()[l as int]);
                }
                r.push(h);
                proof {
                    assert(r@.map_values(|h: Handler| h@) =~~= r0.push(ded.deep_view()[l as int]));
                }
            },
            None => {},
        }
        l += 1;
    }
    proof {
        assert(ded.deep_view().subrange(0, ded.deep_view().len() as int) =~= ded.deep_view());
        lemma_value_tokens_wf(filter_nonempty(split_on(val@, ';')));
    }
    r
}

/// Parses the override text into the added-association and
/// default-application maps, as `parse_spec` describes: unrecognized
/// sections, malformed keys and token-free values are skipped silently.
pub fn parse_config(text: &str) -> (r: (MimeMap, MimeMap))
    ensures
        r.0@ == parse_spec(text@).0,
        r.1@ == parse_spec(text@).1,
        r.0.wf(),
        r.1.wf(),
{
    let v = chars_of(text);
    let lines = split_chars(&v, '\n');
    let added_hdr = chars_of("Added Associations");
    let defaults_hdr = chars_of("Default Applications");
    let mut added = MimeMap::new();
    let mut defaults = MimeMap::new();
    let mut sec = Section::Neither;
    let mut i: usize = 0;
    let ghost all = lines.deep_view();
    proof {
        assert(all.subrange(0, all.len() as int) =~= all);
        assert(parse_lines(all.subrange(i as int, all.len() as int), sec, added@, defaults@)
            == parse_spec(text@));
    }
    while i < lines.len()
        invariant
            i <= lines@.len(),
            all == lines.deep_view(),
            all.len() == lines@.len(),
            all == split_on(text@, '\n'),
            added_hdr@ == "Added Associations"@,
            defaults_hdr@ == "Default Applications"@,
            added.wf(),
            defaults.wf(),
            parse_lines(all.subrange(i as int, all.len() as int), sec, added@, defaults@)
                == parse_spec(text@),
        decreases lines@.len() - i,
    {
        let ln = &lines[i];
        let ghost rest = all.subrange(i as int, all.len() as int);
        proof {
            assert(rest[0] == all[i as int]);
            assert(all[i as int] =~= ln@);
            assert(rest.subrange(1, rest.len() as int) =~= all.subrange(i + 1, all.len() as int));
        }
        let n = ln.len();
        if n >= 2 && ln[0] == '[' && ln[n - 1] == ']' {
            proof {
                assert(line_is_section(ln@));
            }
            let name = subvec(ln, 1, n - 1);
            proof {
                assert(name@ =~= section_name(ln@));
            }
            if chars_eq(&name, &added_hdr) {
                sec = Section::Added;
            } else if chars_eq(&name, &defaults_hdr) {
                sec = Section::Defaults;
            } else {
                sec = Section::Neither;
            }
        } else {
            proof {
                assert(!line_is_section(ln@));
            }
            let mut eq_at: usize = n;
            let mut j: usize = 0;
            while j < n
                invariant
                    j <= n,
                    eq_at <= n,
                    n == ln@.len(),
                    eq_at == n ==> forall|m: int| 0 <= m < j ==> ln@[m] != '=',
                    eq_at < n ==> j == n && eq_at < j && ln@[eq_at as int] == '=' && (forall|m: int|
                        0 <= m < eq_at ==> ln@[m] != '='),
                decreases n - j,
            {
                if ln[j] == '=' {
                    eq_at = j;
                    proof {
                        assert(ln@[j as int] == '=');
                    }
                    j = n;
                } else {
                    if eq_at == n {
                        proof {
                            assert(ln@[j as int] != '=');
                        }
                    }
                    j += 1;
                }
            }
            if eq_at == n {
                proof {
                    lemma_find_char_none(ln@, '=');
                    assert(line_property(ln@) is None);
                }
            } else {
                proof {
                    lemma_find_char_at(ln@, '=', eq_at as int);
                }
                let key = subvec(ln, 0, eq_at);
                let val = subvec(ln, eq_at + 1, n);
                proof {
                    assert(key@ =~= line_property(ln@)->Some_0.0);
                    assert(val@ =~= line_property(ln@)->Some_0.1);
                }
                let key_s = string_from_chars(&key);
                match MimeType::parse(key_s.as_str()) {
                    Ok(m) => {
                        let toks = tokens_of(&val);
                        if toks.len() > 0 {
                            match sec {
                                Section::Added => {
                                    added.set(m, toks);
                                },
                                Section::Defaults => {
                                    defaults.set(m, toks);
                                },
                                Section::Neither => {},
                            }
                        }
                    },
                    Err(_) => {},
                }
            }
        }
        i += 1;
    }
    proof {
        assert(all.subrange(i as int, all.len() as int).len() == 0);
    }
    (added, defaults)
}

/// The persisted line of one entry: `key=handler;handler;...;`.
pub open spec fn entry_line(e: EntryView) -> Seq<char> {
    e.key + seq!['='] + join_term(e.handlers, ';')
}

/// The lines a store is written as: the added-association header and
/// entries, a blank line, the default-application header and entries.
pub open spec fn config_lines(added: Seq<EntryView>, defaults: Seq<EntryView>) -> Seq<Seq<char>> {
    seq!["[Added Associations]"@] + added.map_values(|e: EntryView| entry_line(e)) + seq![
        Seq::<char>::empty(),
    ] + seq!["[Default Applications]"@] + defaults.map_values(|e: EntryView| entry_line(e))
}

/// The full persisted text: every line followed by a newline.
pub open spec fn serialize_spec(added: Seq<EntryView>, defaults: Seq<EntryView>) -> Seq<char> {
    join_term(config_lines(added, defaults), '\n')
}

/// One entry's persisted line.
fn line_of_entry(e: &crate::mime_map::MapEntry) -> (r: String)
    ensures
        r@ == entry_line(e@),
{
    let mut s = e.key.to_string();
    s.append("=");
    proof {
        reveal_strlit("=");
        assert(s@ =~= e@.key + seq!['=']);
        assert(e@.handlers.subrange(0, 0).len() == 0);
        assert(s@ =~= e@.key + seq!['='] + join_term(e@.handlers.subrange(0, 0), ';'));
    }
    let mut j: usize = 0;
    while j < e.handlers.len()
        invariant
            j <= e.handlers@.len(),
            e@.handlers.len() == e.handlers@.len(),
            e@.handlers == e.handlers@.map_values(|h: Handler| h@),
            s@ == e@.key + seq!['='] + join_term(e@.handlers.subrange(0, j as int), ';'),
        decreases e.handlers@.len() - j,
    {
        let ghost pre = e@.handlers.subrange(0, j as int);
        s.append(e.handlers[j].name.as_str());
        s.append(";");
        proof {
            reveal_strlit(";");
            crate::text::lemma_join_term_push(pre, e@.handlers[j as int], ';');
            assert(pre.push(e@.handlers[j as int]) =~= e@.handlers.subrange(0, j + 1));
            assert(s@ =~= e@.key + seq!['='] + join_term(e@.handlers.subrange(0, j + 1), ';'));
        }
        j += 1;
    }
    proof {
        assert(e@.handlers.subrange(0, e@.handlers.len() as int) =~= e@.handlers);
    }
    s
}

/// Writes the two maps as the persisted text, sections sorted by MIME
/// type because each map's entries are kept in key order.
pub fn serialize_config(added: &MimeMap, defaults: &MimeMap) -> (r: String)
    ensures
        r@ == serialize_spec(added@, defaults@),
{
    let ghost av = added@.map_values(|e: EntryView| entry_line(e));
    let ghost dv = defaults@.map_values(|e: EntryView| entry_line(e));
    let mut s = String::new();
    let ghost lines0 = Seq::<Seq<char>>::empty();
    s.append("[Added Associations]\n");
    proof {
        reveal_strlit("[Added Associations]\n");
        reveal_strlit("[Added Associations]");
        assert(s@ =~= "[Added Associations]\n"@);
        assert("[Added Associations]\n"@ =~= "[Added Associations]"@ + seq!['\n']);
        let one = seq!["[Added Associations]"@];
        assert(one.subrange(1, 1) =~= Seq::<Seq<char>>::empty());
        assert(join_term(one.subrange(1, 1), '\n') == Seq::<char>::empty());
        assert(join_term(one, '\n') =~= one[0] + seq!['\n']);
        assert(s@ =~= join_term(seq!["[Added Associations]"@], '\n'));
    }
    let ghost hdr1 = seq!["[Added Associations]"@];
    let mut i: usize = 0;
    proof {
        assert(av.subrange(0, 0).len() == 0);
        assert(hdr1 + av.subrange(0, 0) =~= hdr1);
    }
    while i < added.entries.len()
        invariant
            i <= added.entries@.len(),
            added@.len() == added.entries@.len(),
            added@ == added.entries@.map_values(|e: crate::mime_map::MapEntry| e@),
            av == added@.map_values(|e: EntryView| entry_line(e)),
            hdr1 == seq!["[Added Associations]"@],
            s@ == join_term(hdr1 + av.subrange(0, i as int), '\n'),
        decreases added.entries@.len() - i,
    {
        let e = &added.entries[i];
        proof {
            assert(added@[i as int] == e@);
        }
        let line = line_of_entry(e);
        s.append(line.as_str());
        s.append("\n");
        proof {
            reveal_strlit("\n");
            let pre = hdr1 + av.subrange(0, i as int);
            crate::text::lemma_join_term_push(pre, av[i as int], '\n');
            assert(pre.push(av[i as int]) =~= hdr1 + av.subrange(0, i + 1));
            assert(av[i as int] == entry_line(added@[i as int]));
            assert(s@ =~= join_term(hdr1 + av.subrange(0, i + 1), '\n'));
        }
        i += 1;
    }
    proof {
        assert(av.subrange(0, av.len() as int) =~= av);
    }
    s.append("\n[Default Applications]\n");
    let ghost mid = hdr1 + av + seq![Seq::<char>::empty()] + seq!["[Default Applications]"@];
    proof {
        reveal_strlit("\n[Default Applications]\n");
        reveal_strlit("[Default Applications]");
        let p1 = hdr1 + av;
        crate::text::lemma_join_term_push(p1, Seq::<char>::empty(), '\n');
        assert(p1.push(Seq::<char>::empty()) =~= hdr1 + av + seq![Seq::<char>::empty()]);
        let p2 = hdr1 + av + seq![Seq::<char>::empty()];
        crate::text::lemma_join_term_push(p2, "[Default Applications]"@, '\n');
        assert(p2.push("[Default Applications]"@) =~= mid);
        assert(s@ =~= join_term(mid, '\n'));
    }
    let mut j: usize = 0;
    proof {
        assert(dv.subrange(0, 0).len() == 0);
        assert(mid + dv.subrange(0, 0) =~= mid);
    }
    while j < defaults.entries.len()
        invariant
            j <= defaults.entries@.len(),
            defaults@.len() == defaults.entries@.len(),
            defaults@ == defaults.entries@.map_values(|e: crate::mime_map::MapEntry| e@),
            dv == defaults@.map_values(|e: EntryView| entry_line(e)),
            av == added@.map_values(|e: EntryView| entry_line(e)),
            mid == seq!["[Added Associations]"@] + av + seq![Seq::<char>::empty()] + seq![
                "[Default Applications]"@,
            ],
            s@ == join_term(mid + dv.subrange(0, j as int), '\n'),
        decreases defaults.entries@.len() - j,
    {
        let e = &defaults.entries[j];
        proof {
            assert(defaults@[j as int] == e@);
        }
        let line = line_of_entry(e);
        s.append(line.as_str());
        s.append("\n");
        proof {
            reveal_strlit("\n");
            let pre = mid + dv.subrange(0, j as int);
            crate::text::lemma_join_term_push(pre, dv[j as int], '\n');
            assert(pre.push(dv[j as int]) =~= mid + dv.subrange(0, j + 1));
            assert(dv[j as int] == entry_line(defaults@[j as int]));
            assert(s@ =~= join_term(mid + dv.subrange(0, j + 1), '\n'));
        }
        j += 1;
    }
    proof {
        assert(dv.subrange(0, dv.len() as int) =~= dv);
        assert(mid + dv =~= config_lines(added@, defaults@));
    }
    s
}

/// Dropping empty segments changes nothing when all are nonempty.
proof fn lemma_filter_nonempty_id(ps: Seq<Seq<char>>)
    requires
        forall|k: int| 0 <= k < ps.len() ==> (#[trigger] ps[k]).len() > 0,
    ensures
        filter_nonempty(ps) == ps,
    decreases ps.len(),
{
    if ps.len() != 0 {
        let p = ps.drop_last();
        assert(forall|k: int| 0 <= k < p.len() ==> #[trigger] p[k] == ps[k]);
        lemma_filter_nonempty_id(p);
        assert(filter_nonempty(ps) =~= ps);
    }
}

/// Deduplication changes nothing when the segments are distinct.
proof fn lemma_dedup_first_id(ps: Seq<Seq<char>>)
    requires
        crate::mime_map::distinct_seqs(ps),
    ensures
        dedup_first(ps) == ps,
    decreases ps.len(),
{
    if ps.len() != 0 {
        let p = ps.drop_last();
        assert forall|i: int, j: int| 0 <= i < j < p.len() implies p[i] != p[j] by {
            assert(p[i] == ps[i] && p[j] == ps[j]);
        }
        lemma_dedup_first_id(p);
        if p.contains(ps.last()) {
            let w = choose|w: int| 0 <= w < p.len() && p[w] == ps.last();
            assert(ps[w] == ps[ps.len() - 1]);
            assert(false);
        }
        assert(dedup_first(ps) =~= ps);
    }
}

/// Dropping invalid tokens changes nothing when all are valid.
proof fn lemma_filter_valid_id(ps: Seq<Seq<char>>)
    requires
        forall|k: int| 0 <= k < ps.len() ==> valid_handler(#[trigger] ps[k]),
    ensures
        filter_valid(ps) == ps,
    decreases ps.len(),
{
    if ps.len() != 0 {
        let p = ps.drop_last();
        assert(forall|k: int| 0 <= k < p.len() ==> #[trigger] p[k] == ps[k]);
        lemma_filter_valid_id(p);
        assert(filter_valid(ps) =~= ps);
    }
}

/// A terminator-joined text holds no character that no part holds, other
/// than the terminator itself.
proof fn lemma_join_term_no_char(hs: Seq<Seq<char>>, sep: char, c: char)
    requires
        c != sep,
        forall|k: int| 0 <= k < hs.len() ==> !(#[trigger] hs[k]).contains(c),
    ensures
        !join_term(hs, sep).contains(c),
    decreases hs.len(),
{
    if hs.len() == 0 {
        if join_term(hs, sep).contains(c) {
            let w = choose|w: int|
                0 <= w < join_term(hs, sep).len() && join_term(hs, sep)[w] == c;
        }
    } else {
        let t = hs.subrange(1, hs.len() as int);
        assert(forall|k: int| 0 <= k < t.len() ==> #[trigger] t[k] == hs[k + 1]);
        lemma_join_term_no_char(t, sep, c);
        let j = join_term(hs, sep);
        assert(j =~= hs[0] + seq![sep] + join_term(t, sep));
        if j.contains(c) {
            let w = choose|w: int| 0 <= w < j.len() && j[w] == c;
            if w < hs[0].len() {
                assert(hs[0][w] == c);
                assert(hs[0].contains(c));
            } else if w == hs[0].len() {
            } else {
                let jt = join_term(t, sep);
                assert(jt[w - hs[0].len() - 1] == c);
                assert(jt.contains(c));
            }
        }
    }
}

/// Replacing a key greater than every present key appends its entry.
proof fn lemma_upsert_at_end(s: Seq<EntryView>, k: Seq<char>, hs: Seq<Seq<char>>)
    requires
        forall|j: int| 0 <= j < s.len() ==> crate::text::lex_lt((#[trigger] s[j]).key, k),
    ensures
        upsert_replace(s, k, hs) == s.push(crate::mime_map::entry_of(k, hs)),
    decreases s.len(),
{
    if s.len() == 0 {
        assert(upsert_replace(s, k, hs) =~= s.push(crate::mime_map::entry_of(k, hs)));
    } else {
        let t = s.subrange(1, s.len() as int);
        assert(forall|j: int| 0 <= j < t.len() ==> #[trigger] t[j] == s[j + 1]);
        lemma_upsert_at_end(t, k, hs);
        assert(upsert_replace(s, k, hs) =~= s.push(crate::mime_map::entry_of(k, hs)));
    }
}

/// A well-formed entry's persisted line parses back to exactly its key
/// and handler list.
proof fn lemma_entry_line_parses(e: EntryView)
    requires
        valid_mime(e.key),
        wf_handlers(e.handlers),
    ensures
        !line_is_section(entry_line(e)),
        line_property(entry_line(e)) == Some((e.key, join_term(e.handlers, ';'))),
        value_tokens(join_term(e.handlers, ';')) == e.handlers,
        !entry_line(e).contains('\n'),
{
    let l = entry_line(e);
    let jt = join_term(e.handlers, ';');
    assert(l[0] == e.key[0]);
    assert(crate::mime_type::allowed_mime_char(e.key[0]));
    assert(!line_is_section(l));
    assert forall|m: int| 0 <= m < e.key.len() implies l[m] != '=' by {
        assert(l[m] == e.key[m]);
        assert(crate::mime_type::allowed_mime_char(e.key[m]));
    }
    assert(l[e.key.len() as int] == '=');
    lemma_find_char_at(l, '=', e.key.len() as int);
    assert(l.subrange(0, e.key.len() as int) =~= e.key);
    assert(l.subrange(e.key.len() as int + 1, l.len() as int) =~= jt);
    assert forall|k: int| 0 <= k < e.handlers.len() implies !(#[trigger] e.handlers[k]).contains(
        ';',
    ) by {
        if e.handlers[k].contains(';') {
            let w = choose|w: int|
                0 <= w < e.handlers[k].len() && #[trigger] e.handlers[k][w] == ';';
            assert(valid_handler(e.handlers[k]));
        }
    }
    crate::text::lemma_split_join(e.handlers, ';');
    lemma_filter_nonempty_id(e.handlers);
    lemma_dedup_first_id(e.handlers);
    lemma_filter_valid_id(e.handlers);
    assert forall|k: int| 0 <= k < e.handlers.len() implies !(#[trigger] e.handlers[k]).contains(
        '\n',
    ) by {
        if e.handlers[k].contains('\n') {
            let w = choose|w: int|
                0 <= w < e.handlers[k].len() && #[trigger] e.handlers[k][w] == '\n';
            assert(valid_handler(e.handlers[k]));
        }
    }
    lemma_join_term_no_char(e.handlers, ';', '\n');
    if l.contains('\n') {
        let w = choose|w: int| 0 <= w < l.len() && l[w] == '\n';
        if w < e.key.len() {
            assert(e.key[w] == '\n');
            assert(crate::mime_type::allowed_mime_char(e.key[w]));
        } else if w == e.key.len() {
        } else {
            assert(jt[w - e.key.len() - 1] == '\n');
            assert(jt.contains('\n'));
        }
    }
}

/// Consuming one tier's entry lines accumulates exactly those entries, in
/// order, at the end of the tier's map.
proof fn lemma_parse_entry_block(
    entries: Seq<EntryView>,
    rest: Seq<Seq<char>>,
    into_added: bool,
    acc_a: Seq<EntryView>,
    acc_d: Seq<EntryView>,
)
    requires
        wf_entries(entries),
        wf_entries(if into_added { acc_a } else { acc_d }),
        into_added ==> forall|i: int, j: int|
            0 <= i < acc_a.len() && 0 <= j < entries.len() ==> crate::text::lex_lt(
                (#[trigger] acc_a[i]).key,
                (#[trigger] entries[j]).key,
            ),
        !into_added ==> forall|i: int, j: int|
            0 <= i < acc_d.len() && 0 <= j < entries.len() ==> crate::text::lex_lt(
                (#[trigger] acc_d[i]).key,
                (#[trigger] entries[j]).key,
            ),
    ensures
        into_added ==> parse_lines(
            entries.map_values(|e: EntryView| entry_line(e)) + rest,
            Section::Added,
            acc_a,
            acc_d,
        ) == parse_lines(rest, Section::Added, acc_a + entries, acc_d),
        !into_added ==> parse_lines(
            entries.map_values(|e: EntryView| entry_line(e)) + rest,
            Section::Defaults,
            acc_a,
            acc_d,
        ) == parse_lines(rest, Section::Defaults, acc_a, acc_d + entries),
    decreases entries.len(),
{
    let acc = if into_added {
        acc_a
    } else {
        acc_d
    };
    let lines = entries.map_values(|e: EntryView| entry_line(e)) + rest;
    if entries.len() == 0 {
        assert(lines =~= rest);
        assert(acc + entries =~= acc);
    } else {
        let e = entries[0];
        assert(wf_entries(entries));
        assert(valid_mime(e.key) && wf_handlers(e.handlers));
        lemma_entry_line_parses(e);
        assert(lines[0] == entry_line(e));
        let tail_entries = entries.subrange(1, entries.len() as int);
        assert(forall|j: int|
            0 <= j < tail_entries.len() ==> #[trigger] tail_entries[j] == entries[j + 1]);
        assert(lines.subrange(1, lines.len() as int) =~= tail_entries.map_values(
            |x: EntryView| entry_line(x),
        ) + rest);
        assert forall|j: int| 0 <= j < acc.len() implies crate::text::lex_lt(
            (#[trigger] acc[j]).key,
            e.key,
        ) by {
            assert(entries[0] == e);
        }
        lemma_upsert_at_end(acc, e.key, e.handlers);
        assert(crate::mime_map::entry_of(e.key, e.handlers) == e);
        let acc1 = acc.push(e);
        assert(acc1 =~= acc + seq![e]);
        crate::mime_map::lemma_wf_tail(entries);
        assert forall|i: int, j: int|
            0 <= i < acc1.len() && 0 <= j < tail_entries.len() implies crate::text::lex_lt(
            (#[trigger] acc1[i]).key,
            (#[trigger] tail_entries[j]).key,
        ) by {
            assert(tail_entries[j] == entries[j + 1]);
            if i < acc.len() {
                assert(acc1[i] == acc[i]);
            } else {
                assert(acc1[i] == entries[0]);
                assert(crate::text::lex_lt(entries[0].key, entries[j + 1].key));
            }
        }
        assert forall|i: int, j: int| 0 <= i < j < acc1.len() implies crate::text::lex_lt(
            (#[trigger] acc1[i]).key,
            (#[trigger] acc1[j]).key,
        ) by {
            if j < acc.len() {
                assert(acc1[i] == acc[i] && acc1[j] == acc[j]);
            } else {
                assert(acc1[j] == entries[0]);
                assert(acc1[i] == acc[i]);
            }
        }
        assert(wf_entries(acc1));
        if into_added {
            lemma_parse_entry_block(tail_entries, rest, into_added, acc1, acc_d);
            assert(acc1 + tail_entries =~= acc_a + entries);
        } else {
            lemma_parse_entry_block(tail_entries, rest, into_added, acc_a, acc1);
            assert(acc1 + tail_entries =~= acc_d + entries);
        }
    }
}

/// Saving and re-reading a store reproduces the identical mapping: the
/// serialized text of two well-formed maps parses back to exactly those
/// maps, entry for entry.
pub proof fn lemma_round_trip(added: Seq<EntryView>, defaults: Seq<EntryView>)
    requires
        wf_entries(added),
        wf_entries(defaults),
    ensures
        parse_spec(serialize_spec(added, defaults)) == (added, defaults),
{
    reveal_strlit("[Added Associations]");
    reveal_strlit("[Default Applications]");
    reveal_strlit("Added Associations");
    reveal_strlit("Default Applications");
    let hdr1: Seq<char> = "[Added Associations]"@;
    let hdr2: Seq<char> = "[Default Applications]"@;
    let name1: Seq<char> = "Added Associations"@;
    let name2: Seq<char> = "Default Applications"@;
    let blank = Seq::<char>::empty();
    let al = added.map_values(|e: EntryView| entry_line(e));
    let dl = defaults.map_values(|e: EntryView| entry_line(e));
    let lines = config_lines(added, defaults);
    let a = al.len() as int;
    assert(lines.len() == a + dl.len() + 3);
    assert(lines[0] == hdr1);
    assert(forall|k: int| 0 <= k < a ==> #[trigger] lines[1 + k] == al[k]);
    assert(lines[1 + a] == blank);
    assert(lines[2 + a] == hdr2);
    assert(forall|k: int| 0 <= k < dl.len() ==> #[trigger] lines[3 + a + k] == dl[k]);
    assert forall|k: int| 0 <= k < lines.len() implies !(#[trigger] lines[k]).contains('\n') by {
        if k == 0 {
            if hdr1.contains('\n') {
                let w = choose|w: int| 0 <= w < hdr1.len() && hdr1[w] == '\n';
            }
        } else if k < 1 + a {
            assert(lines[k] == al[k - 1]);
            assert(al[k - 1] == entry_line(added[k - 1]));
            lemma_entry_line_parses(added[k - 1]);
        } else if k == 1 + a {
            if blank.contains('\n') {
                let w = choose|w: int| 0 <= w < blank.len() && blank[w] == '\n';
            }
        } else if k == 2 + a {
            if hdr2.contains('\n') {
                let w = choose|w: int| 0 <= w < hdr2.len() && hdr2[w] == '\n';
            }
        } else {
            assert(lines[k] == dl[k - 3 - a]);
            assert(dl[k - 3 - a] == entry_line(defaults[k - 3 - a]));
            lemma_entry_line_parses(defaults[k - 3 - a]);
        }
    }
    crate::text::lemma_split_join(lines, '\n');
    assert(split_on(serialize_spec(added, defaults), '\n') == lines);
    let e0 = Seq::<EntryView>::empty();
    // the opening header switches to the added-associations section
    assert(line_is_section(hdr1));
    assert(section_name(hdr1) =~= name1);
    let rest1 = lines.subrange(1, lines.len() as int);
    assert(parse_lines(lines, Section::Neither, e0, e0) == parse_lines(
        rest1,
        Section::Added,
        e0,
        e0,
    ));
    let rest2 = seq![blank] + seq![hdr2] + dl;
    assert(rest1 =~= al + rest2);
    lemma_parse_entry_block(added, rest2, true, e0, e0);
    assert(e0 + added =~= added);
    assert(parse_lines(rest1, Section::Added, e0, e0) == parse_lines(
        rest2,
        Section::Added,
        added,
        e0,
    ));
    // the blank separator line is ignored
    assert(rest2[0] == blank);
    assert(!line_is_section(blank));
    assert(find_char(blank, '=') == -1);
    assert(line_property(blank) is None);
    let rest3 = rest2.subrange(1, rest2.len() as int);
    assert(parse_lines(rest2, Section::Added, added, e0) == parse_lines(
        rest3,
        Section::Added,
        added,
        e0,
    ));
    // the second header switches to the default-applications section
    assert(rest3[0] == hdr2);
    assert(line_is_section(hdr2));
    assert(section_name(hdr2) =~= name2);
    assert(name1.len() != name2.len());
    assert(section_name(hdr2) != name1);
    let rest4 = rest3.subrange(1, rest3.len() as int);
    assert(parse_lines(rest3, Section::Added, added, e0) == parse_lines(
        rest4,
        Section::Defaults,
        added,
        e0,
    ));
    assert(rest4 =~= dl + Seq::<Seq<char>>::empty());
    lemma_parse_entry_block(defaults, Seq::<Seq<char>>::empty(), false, added, e0);
    assert(e0 + defaults =~= defaults);
    assert(parse_lines(rest4, Section::Defaults, added, e0) == parse_lines(
        Seq::<Seq<char>>::empty(),
        Section::Defaults,
        added,
        defaults,
    ));
    assert(parse_spec(serialize_spec(added, defaults)) == (added, defaults));
}

/// Keeping the valid tokens keeps distinctness and yields valid tokens.
pub proof fn lemma_filter_valid_props(ps: Seq<Seq<char>>)
    requires
        crate::mime_map::distinct_seqs(ps),
    ensures
        crate::mime_map::distinct_seqs(filter_valid(ps)),
        forall|i: int| 0 <= i < filter_valid(ps).len() ==> valid_handler(#[trigger] filter_valid(ps)[i]),
        forall|i: int|
            0 <= i < filter_valid(ps).len() ==> exists|j: int|
                0 <= j < ps.len() && #[trigger] filter_valid(ps)[i] == ps[j],
    decreases ps.len(),
{
    if ps.len() != 0 {
        let p = ps.drop_last();
        assert forall|i: int, j: int| 0 <= i < j < p.len() implies p[i] != p[j] by {
            assert(p[i] == ps[i] && p[j] == ps[j]);
        }
        lemma_filter_valid_props(p);
        let d = filter_valid(p);
        let d1 = filter_valid(ps);
        if valid_handler(ps.last()) {
            assert(d1 == d.push(ps.last()));
            assert forall|i: int, j: int| 0 <= i < j < d1.len() implies d1[i] != d1[j] by {
                if j == d1.len() - 1 {
                    let m = choose|m: int| 0 <= m < p.len() && #[trigger] d[i] == p[m];
                    assert(ps[m] == p[m]);
                    assert(ps.last() == ps[ps.len() - 1]);
                } else {
                    assert(d1[i] == d[i] && d1[j] == d[j]);
                }
            }
            assert forall|i: int|
                0 <= i < d1.len() implies exists|j: int|
                0 <= j < ps.len() && #[trigger] d1[i] == ps[j] by {
                if i == d1.len() - 1 {
                    assert(d1[i] == ps[ps.len() - 1]);
                } else {
                    let m = choose|m: int| 0 <= m < p.len() && #[trigger] d[i] == p[m];
                    assert(d1[i] == ps[m]);
                }
            }
        } else {
            assert forall|i: int|
                0 <= i < d1.len() implies exists|j: int|
                0 <= j < ps.len() && #[trigger] d1[i] == ps[j] by {
                let m = choose|m: int| 0 <= m < p.len() && #[trigger] d[i] == p[m];
                assert(d1[i] == ps[m]);
            }
        }
    }
}

} // verus!
