//! Candidate gathering for unresolved queries: the resolved entry first,
//! then every installed application declaring the type, topped up from
//! extension-derived alias types until a floor of ten, deduplicated by
//! handler identity.

use vstd::prelude::*;

use crate::desktop_entry::DesktopEntry;
use crate::desktop_entry::DesktopEntryView;
use crate::mime_type::MimeType;
use crate::mime_type::valid_mime;

verus! {

/// The file extensions the MIME database knows for a MIME string; `None`
/// when it knows none.
pub uninterp spec fn db_extensions_of(m: Seq<char>) -> Option<Seq<Seq<char>>>;

/// The MIME string the MIME database derives from a file extension.
pub uninterp spec fn db_mime_of(ext: Seq<char>) -> Option<Seq<char>>;

/// Relies on `mime_db::extensions`: the extensions registered for a MIME
/// string in the crate's static table, a function of the string alone;
/// its source answers `None` rather than an empty listing.
#[verifier::external_body]
fn db_extensions(m: &str) -> (r: Option<Vec<String>>)
    ensures
        match (r, db_extensions_of(m@)) {
            (Some(v), Some(s)) => v@.map_values(|x: String| x@) == s && v@.len() > 0,
            (None, None) => true,
            _ => false,
        },
{
    mime_db::extensions(m).map(|it| it.map(|s| s.to_string()).collect())
}

/// Relies on `mime_db::lookup`: the MIME string registered for a file
/// extension in the crate's static table, a function of the extension
/// alone.
#[verifier::external_body]
fn db_lookup(ext: &str) -> (r: Option<String>)
    ensures
        match (r, db_mime_of(ext@)) {
            (Some(v), Some(s)) => v@ == s,
            (None, None) => true,
            _ => false,
        },
{
    mime_db::lookup(ext).map(|s| s.to_string())
}

/// The extension list used for alias lookups: the queried type's own
/// extensions, the plain-text type's as a fallback, or none.
pub open spec fn globs_for(m: Seq<char>) -> Seq<Seq<char>> {
    match db_extensions_of(m) {
        Some(g) => g,
        None => match db_extensions_of("text/plain"@) {
            Some(g) => g,
            None => Seq::empty(),
        },
    }
}

/// The entries of `s` whose declared MIME types include `m`, in order.
pub open spec fn filter_by_mime(s: Seq<DesktopEntryView>, m: Seq<char>) -> Seq<DesktopEntryView>
    decreases s.len(),
{
    if s.len() == 0 {
        Seq::empty()
    } else {
        let d = filter_by_mime(s.drop_last(), m);
        if s.last().mimes.contains(m) {
            d.push(s.last())
        } else {
            d
        }
    }
}

/// `acc` extended, glob by glob, with the entries declaring each glob's
/// alias type, stopping once more than ten candidates are gathered.
pub open spec fn glob_additions(
    s: Seq<DesktopEntryView>,
    globs: Seq<Seq<char>>,
    acc: Seq<DesktopEntryView>,
) -> Seq<DesktopEntryView>
    decreases globs.len(),
{
    if globs.len() == 0 {
        acc
    } else {
        let acc1 = match db_mime_of(globs[0]) {
            Some(gm) => if valid_mime(gm) {
                acc + filter_by_mime(s, gm)
            } else {
                acc
            },
            None => acc,
        };
        if acc1.len() > 10 {
            acc1
        } else {
            glob_additions(s, globs.subrange(1, globs.len() as int), acc1)
        }
    }
}

/// The installed candidates for `m`: the entries declaring it, topped up
/// from alias types when fewer than ten are found.
pub open spec fn system_candidates(s: Seq<DesktopEntryView>, m: Seq<char>) -> Seq<
    DesktopEntryView,
> {
    let base = filter_by_mime(s, m);
    if base.len() < 10 {
        glob_additions(s, globs_for(m), base)
    } else {
        base
    }
}

/// Whether some entry of `s` has the file name `f`.
pub open spec fn has_file(s: Seq<DesktopEntryView>, f: Seq<char>) -> bool {
    exists|i: int| 0 <= i < s.len() && (#[trigger] s[i]).file_name == f
}

/// `s` with every entry whose file name appeared earlier dropped.
pub open spec fn dedup_by_file(s: Seq<DesktopEntryView>) -> Seq<DesktopEntryView>
    decreases s.len(),
{
    if s.len() == 0 {
        Seq::empty()
    } else {
        let d = dedup_by_file(s.drop_last());
        if has_file(d, s.last().file_name) {
            d
        } else {
            d.push(s.last())
        }
    }
}

/// The full candidate list for `m`: the already-resolved entry first,
/// then the installed candidates, deduplicated by handler identity with
/// the first occurrence kept.
pub open spec fn gather_spec(
    resolved: Option<DesktopEntryView>,
    s: Seq<DesktopEntryView>,
    m: Seq<char>,
) -> Seq<DesktopEntryView> {
    match resolved {
        Some(e) => dedup_by_file(seq![e] + system_candidates(s, m)),
        None => dedup_by_file(system_candidates(s, m)),
    }
}

/// Whether an entry's declared MIME types include `m`.
fn entry_declares(e: &DesktopEntry, m: &MimeType) -> (r: bool)
    ensures
        r == e@.mimes.contains(m@),
{
    let mut i: usize = 0;
    while i < e.mimes.len()
        invariant
            i <= e.mimes@.len(),
            forall|j: int| 0 <= j < i ==> e@.mimes[j] != m@,
        decreases e.mimes@.len() - i,
    {
        proof {
            assert(e@.mimes[i as int] == e.mimes@[i as int]@);
        }
        if e.mimes[i] == *m {
            proof {
                assert(e@.mimes[i as int] == m@);
            }
            return true;
        }
        i += 1;
    }
    proof {
        if e@.mimes.contains(m@) {
            let j = choose|j: int| 0 <= j < e@.mimes.len() && e@.mimes[j] == m@;
        }
    }
    false
}

/// Appends to `out` every entry of `s` declaring `m`.
fn push_declaring(out: &mut Vec<DesktopEntry>, s: &Vec<DesktopEntry>, m: &MimeType)
    ensures
        final(out)@.map_values(|e: DesktopEntry| e@) == old(out)@.map_values(
            |e: DesktopEntry| e@,
        ) + filter_by_mime(s@.map_values(|e: DesktopEntry| e@), m@),
{
    let ghost sv = s@.map_values(|e: DesktopEntry| e@);
    let ghost base = old(out)@.map_values(|e: DesktopEntry| e@);
    let mut i: usize = 0;
    proof {
        assert(sv.subrange(0, 0).len() == 0);
        assert(base + filter_by_mime(sv.subrange(0, 0), m@) =~= base);
    }
    while i < s.len()
        invariant
            i <= s@.len(),
            sv == s@.map_values(|e: DesktopEntry| e@),
            sv.len() == s@.len(),
            base == old(out)@.map_values(|e: DesktopEntry| e@),
            out@.map_values(|e: DesktopEntry| e@) == base + filter_by_mime(
                sv.subrange(0, i as int),
                m@,
            ),
        decreases s@.len() - i,
    {
        let ghost pre = sv.subrange(0, i as int);
        let ghost cur = sv.subrange(0, i + 1);
        proof {
            assert(cur.drop_last() =~= pre);
            assert(cur.last() == sv[i as int]);
        }
        let e = &s[i];
        proof {
            assert(sv[i as int] == e@);
        }
        let ghost o0 = out@.map_values(|x: DesktopEntry| x@);
        if entry_declares(e, m) {
            let copy = e.clone();
            out.push(copy);
            proof {
                assert(out@.map_values(|x: DesktopEntry| x@) =~= o0.push(e@));
                assert(base + filter_by_mime(cur, m@) =~= o0.push(e@));
            }
        } else {
            proof {
                assert(base + filter_by_mime(cur, m@) =~= o0);
            }
        }
        i += 1;
    }
    proof {
        assert(sv.subrange(0, sv.len() as int) =~= sv);
    }
}

/// Whether `out` already holds an entry with the file name `f`.
fn contains_file(out: &Vec<DesktopEntry>, f: &String) -> (r: bool)
    ensures
        r == has_file(out@.map_values(|e: DesktopEntry| e@), f@),
{
    let ghost v = out@.map_values(|e: DesktopEntry| e@);
    let mut i: usize = 0;
    while i < out.len()
        invariant
            i <= out@.len(),
            v == out@.map_values(|e: DesktopEntry| e@),
            v.len() == out@.len(),
            forall|j: int| 0 <= j < i ==> (#[trigger] v[j]).file_name != f@,
        decreases out@.len() - i,
    {
        proof {
            assert(v[i as int] == out@[i as int]@);
        }
        if out[i].file_name == *f {
            proof {
                assert(v[i as int].file_name == f@);
            }
            return true;
        }
        i += 1;
    }
    proof {
        if has_file(v, f@) {
            let j = choose|j: int| 0 <= j < v.len() && (#[trigger] v[j]).file_name == f@;
        }
    }
    false
}

/// Gathers the candidate entries for `mime` out of the installed
/// entries, as `gather_spec` describes: the resolved entry (if any)
/// first, the declaring entries next, alias-derived entries topping the
/// list up to the ten-candidate floor, duplicates by file name dropped.
pub fn gather_candidates(
    resolved: Option<DesktopEntry>,
    entries: &Vec<DesktopEntry>,
    mime: &MimeType,
) -> (r: Vec<DesktopEntry>)
    ensures
        r@.map_values(|e: DesktopEntry| e@) == gather_spec(
            match resolved {
                Some(e) => Some(e@),
                None => None,
            },
            entries@.map_values(|e: DesktopEntry| e@),
            mime@,
        ),
{
    let ghost sv = entries@.map_values(|e: DesktopEntry| e@);
    let ghost base = filter_by_mime(sv, mime@);
    let mut system: Vec<DesktopEntry> = Vec::new();
    push_declaring(&mut system, entries, mime);
    proof {
        assert(Seq::<DesktopEntryView>::empty() + base =~= base);
    }
    if system.len() < 10 {
        let globs = match db_extensions(mime.text.as_str()) {
            Some(g) => g,
            None => {
                match db_extensions("text/plain") {
                    Some(g) => g,
                    None => Vec::new(),
                }
            },
        };
        proof {
            reveal_strlit("text/plain");
            assert(globs@.map_values(|x: String| x@) =~= globs_for(mime@));
        }
        let ghost gv = globs@.map_values(|x: String| x@);
        let mut gi: usize = 0;
        proof {
            assert(gv.subrange(0, gv.len() as int) =~= gv);
        }
        while gi < globs.len()
            invariant_except_break
                gi <= globs@.len(),
                gv == globs@.map_values(|x: String| x@),
                gv.len() == globs@.len(),
                sv == entries@.map_values(|e: DesktopEntry| e@),
                base == filter_by_mime(sv, mime@),
                glob_additions(sv, gv.subrange(gi as int, gv.len() as int), system@.map_values(
                    |e: DesktopEntry| e@,
                )) == glob_additions(sv, gv, base),
            ensures
                system@.map_values(|e: DesktopEntry| e@) == glob_additions(sv, gv, base),
            decreases globs@.len() - gi,
        {
            let ghost rest = gv.subrange(gi as int, gv.len() as int);
            proof {
                assert(rest[0] == gv[gi as int]);
                assert(gv[gi as int] == globs@[gi as int]@);
                assert(rest.subrange(1, rest.len() as int) =~= gv.subrange(
                    gi + 1,
                    gv.len() as int,
                ));
            }
            let ghost s0 = system@.map_values(|e: DesktopEntry| e@);
            match db_lookup(globs[gi].as_str()) {
                Some(gm) => {
                    match MimeType::parse(gm.as_str()) {
                        Ok(g) => {
                            proof {
                                assert(db_mime_of(rest[0]) == Some(gm@));
                                assert(g@ == gm@);
                            }
                            push_declaring(&mut system, entries, &g);
                            proof {
                                assert(system@.map_values(|e: DesktopEntry| e@) == s0
                                    + filter_by_mime(sv, gm@));
                            }
                        },
                        Err(_) => {},
                    }
                },
                None => {},
            }
            if system.len() > 10 {
                proof {
                    assert(system@.map_values(|e: DesktopEntry| e@).len() > 10);
                    assert(glob_additions(sv, rest, s0) == system@.map_values(
                        |e: DesktopEntry| e@,
                    ));
                }
                break ;
            }
            gi += 1;
        }
    }
    let ghost resolved_view = match &resolved {
        Some(e) => Some(e@),
        None => None,
    };
    let mut apps: Vec<DesktopEntry> = Vec::new();
    match resolved {
        Some(e) => {
            apps.push(e);
        },
        None => {},
    }
    let ghost head = apps@.map_values(|e: DesktopEntry| e@);
    let ghost full = head + system@.map_values(|e: DesktopEntry| e@);
    let mut k: usize = 0;
    let mut out: Vec<DesktopEntry> = Vec::new();
    proof {
        assert(full.subrange(0, head.len() as int) =~= head);
    }
    while k < apps.len()
        invariant
            k <= apps@.len(),
            head == apps@.map_values(|e: DesktopEntry| e@),
            head.len() == apps@.len(),
            full == head + system@.map_values(|e: DesktopEntry| e@),
            out@.map_values(|e: DesktopEntry| e@) == dedup_by_file(full.subrange(0, k as int)),
        decreases apps@.len() - k,
    {
        let ghost pre = full.subrange(0, k as int);
        let ghost cur = full.subrange(0, k + 1);
        proof {
            assert(cur.drop_last() =~= pre);
            assert(cur.last() == full[k as int]);
            assert(full[k as int] == head[k as int]);
            assert(head[k as int] == apps@[k as int]@);
        }
        let ghost o0 = out@.map_values(|e: DesktopEntry| e@);
        let e = &apps[k];
        if !contains_file(&out, &e.file_name) {
            let copy = e.clone();
            out.push(copy);
            proof {
                assert(out@.map_values(|x: DesktopEntry| x@) =~= o0.push(e@));
            }
        }
        k += 1;
    }
    let mut l: usize = 0;
    while l < system.len()
        invariant
            l <= system@.len(),
            head.len() == apps@.len(),
            full == head + system@.map_values(|e: DesktopEntry| e@),
            full.len() == head.len() + system@.len(),
            out@.map_values(|e: DesktopEntry| e@) == dedup_by_file(
                full.subrange(0, head.len() + l),
            ),
        decreases system@.len() - l,
    {
        let ghost pre = full.subrange(0, head.len() + l);
        let ghost cur = full.subrange(0, head.len() + l + 1);
        proof {
            assert(cur.drop_last() =~= pre);
            assert(cur.last() == full[head.len() + l]);
            assert(full[head.len() + l] == system@[l as int]@);
        }
        let ghost o0 = out@.map_values(|e: DesktopEntry| e@);
        let e = &system[l];
        if !contains_file(&out, &e.file_name) {
            let copy = e.clone();
            out.push(copy);
            proof {
                assert(out@.map_values(|x: DesktopEntry| x@) =~= o0.push(e@));
            }
        }
        l += 1;
    }
    proof {
        assert(full.subrange(0, full.len() as int) =~= full);
        match resolved_view {
            Some(e) => {
                assert(head =~= seq![e]);
                assert(full =~= seq![e] + system_candidates(sv, mime@));
            },
            None => {
                assert(head.len() == 0);
                assert(full =~= system_candidates(sv, mime@));
            },
        }
    }
    out
}

} // verus!
