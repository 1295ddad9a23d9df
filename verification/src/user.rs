//! The user's override store and the ranked resolution algorithm: user
//! defaults first, then the type-level wildcard, then added associations,
//! then the installed-application snapshot.

use vstd::prelude::*;

use crate::Error;
use crate::handler::Handler;
use crate::handler::valid_handler;
use crate::mime_map::EntryView;
use crate::mime_map::MimeMap;
use crate::mime_map::assoc_find;
use crate::mime_map::clone_handlers;
use crate::mime_map::handlers_contain;
use crate::mime_map::lemma_assoc_find;
use crate::mime_map::remove_key;
use crate::mime_map::upsert_append;
use crate::mime_map::upsert_replace;
use crate::mime_map::wf_handlers;
use crate::mime_type::MimeType;
use crate::mime_type::wildcard_of;
use crate::system::SystemApps;
use crate::text::join_with;

verus! {

/// The first handler of a found list.
pub open spec fn head_of(o: Option<Seq<Seq<char>>>) -> Option<Seq<char>> {
    match o {
        Some(l) => Some(l[0]),
        None => None,
    }
}

/// The outcome of one resolution step: an answer, a tie that the caller
/// must put to the user, or nothing configured.
pub enum Resolution {
    Resolved(Handler),
    NeedsSelection(Vec<Handler>),
    NotFound,
}

/// The override store: the user's explicit defaults, the weaker added
/// associations, and the snapshot of installed applications.
pub struct MimeApps {
    pub default_apps: MimeMap,
    pub added_associations: MimeMap,
    pub system_apps: SystemApps,
}

impl Default for MimeApps {
    /// A store with no overrides and an empty snapshot.
    fn default() -> (r: MimeApps)
        ensures
            r.default_apps@ =~= Seq::<EntryView>::empty(),
            r.added_associations@ =~= Seq::<EntryView>::empty(),
            r.system_apps@ =~= Seq::<EntryView>::empty(),
            r.wf(),
    {
        MimeApps::new()
    }
}

impl MimeApps {
    /// All three tiers are well formed.
    pub open spec fn wf(self) -> bool {
        self.default_apps.wf() && self.added_associations.wf() && self.system_apps.wf()
    }

    /// The handler that resolution yields for `m`, with interactive
    /// selection disabled: the head of the first tier that has `m`, in
    /// the order user default, user wildcard default, added association,
    /// system default.
    pub open spec fn resolved_handler(self, m: Seq<char>) -> Option<Seq<char>> {
        if self.default_apps.find(m) is Some {
            head_of(self.default_apps.find(m))
        } else if self.default_apps.find(wildcard_of(m)) is Some {
            head_of(self.default_apps.find(wildcard_of(m)))
        } else if self.added_associations.find(m) is Some {
            head_of(self.added_associations.find(m))
        } else {
            head_of(assoc_find(self.system_apps@, m))
        }
    }

    /// The tied user-default candidates that interactive selection would
    /// put to the user: the exact or wildcard default list when it holds
    /// more than one handler.
    pub open spec fn selection_candidates(self, m: Seq<char>) -> Option<Seq<Seq<char>>> {
        if self.default_apps.find(m) is Some {
            if self.default_apps.find(m)->Some_0.len() > 1 {
                self.default_apps.find(m)
            } else {
                None
            }
        } else if self.default_apps.find(wildcard_of(m)) is Some {
            if self.default_apps.find(wildcard_of(m))->Some_0.len() > 1 {
                self.default_apps.find(wildcard_of(m))
            } else {
                None
            }
        } else {
            None
        }
    }

    /// A store with no overrides and an empty snapshot.
    pub fn new() -> (r: MimeApps)
        ensures
            r.default_apps@ =~= Seq::<EntryView>::empty(),
            r.added_associations@ =~= Seq::<EntryView>::empty(),
            r.system_apps@ =~= Seq::<EntryView>::empty(),
            r.wf(),
    {
        MimeApps {
            default_apps: MimeMap::new(),
            added_associations: MimeMap::new(),
            system_apps: SystemApps::new(),
        }
    }

    /// The user's default for exactly `mime`: the first handler of its
    /// list, or `NotFound` when the tier has no entry.
    pub fn get_handler_from_user(&self, mime: &MimeType) -> (r: Result<Handler, Error>)
        requires
            self.wf(),
        ensures
            match r {
                Ok(h) => self.default_apps.find(mime@) matches Some(l) && h@ == l[0],
                Err(e) => self.default_apps.find(mime@) is None && (e matches Error::NotFound(t)
                    && t@ == mime@),
            },
    {
        match self.default_apps.get(mime) {
            Some(hs) => {
                proof {
                    lemma_assoc_find(self.default_apps@, mime@);
                }
                Ok(hs[0].clone())
            },
            None => Err(Error::NotFound(mime.to_string())),
        }
    }

    /// The added association for `mime`, or failing that the system
    /// default: the first handler of the first of those tiers that has an
    /// entry.
    pub fn get_handler_from_added_associations(&self, mime: &MimeType) -> (r: Result<
        Handler,
        Error,
    >)
        requires
            self.wf(),
        ensures
            match r {
                Ok(h) => {
                    if self.added_associations.find(mime@) is Some {
                        head_of(self.added_associations.find(mime@)) == Some(h@)
                    } else {
                        head_of(assoc_find(self.system_apps@, mime@)) == Some(h@)
                    }
                },
                Err(e) => self.added_associations.find(mime@) is None && assoc_find(
                    self.system_apps@,
                    mime@,
                ) is None && (e matches Error::NotFound(t) && t@ == mime@),
            },
    {
        match self.added_associations.get(mime) {
            Some(hs) => {
                proof {
                    lemma_assoc_find(self.added_associations@, mime@);
                }
                Ok(hs[0].clone())
            },
            None => {
                match self.system_apps.get_handler(mime) {
                    Some(h) => Ok(h),
                    None => Err(Error::NotFound(mime.to_string())),
                }
            },
        }
    }

    /// Resolves `mime` with interactive selection disabled, trying the
    /// four tiers in priority order and returning the first tier's first
    /// handler; `NotFound` only when no tier has an entry.
    pub fn get_handler(&self, mime: &MimeType) -> (r: Result<Handler, Error>)
        requires
            self.wf(),
            mime.wf(),
        ensures
            match r {
                Ok(h) => self.resolved_handler(mime@) == Some(h@),
                Err(e) => self.resolved_handler(mime@) is None && (e matches Error::NotFound(t)
                    && t@ == mime@),
            },
    {
        match self.get_handler_from_user(mime) {
            Ok(h) => Ok(h),
            Err(_) => {
                let w = mime.wildcard();
                match self.get_handler_from_user(&w) {
                    Ok(h) => Ok(h),
                    Err(_) => {
                        match self.get_handler_from_added_associations(mime) {
                            Ok(h) => Ok(h),
                            Err(_) => Err(Error::NotFound(mime.to_string())),
                        }
                    },
                }
            },
        }
    }

    /// One resolution step for `mime`.  With selection enabled, a user
    /// default (exact or wildcard) holding several handlers is handed
    /// back for the user to pick from; otherwise resolution proceeds as
    /// with selection disabled.
    pub fn resolve(&self, mime: &MimeType, enable_selector: bool) -> (r: Resolution)
        requires
            self.wf(),
            mime.wf(),
        ensures
            match r {
                Resolution::NeedsSelection(hs) => enable_selector && self.selection_candidates(
                    mime@,
                ) == Some(hs@.map_values(|h: Handler| h@)),
                Resolution::Resolved(h) => self.resolved_handler(mime@) == Some(h@) && (
                enable_selector ==> self.selection_candidates(mime@) is None),
                Resolution::NotFound => self.resolved_handler(mime@) is None,
            },
    {
        if enable_selector {
            match self.default_apps.get(mime) {
                Some(hs) => {
                    if hs.len() > 1 {
                        return Resolution::NeedsSelection(clone_handlers(hs));
                    }
                },
                None => {
                    let w = mime.wildcard();
                    match self.default_apps.get(&w) {
                        Some(hs) => {
                            if hs.len() > 1 {
                                return Resolution::NeedsSelection(clone_handlers(hs));
                            }
                        },
                        None => {},
                    }
                },
            }
        }
        match self.get_handler(mime) {
            Ok(h) => Resolution::Resolved(h),
            Err(_) => Resolution::NotFound,
        }
    }

    /// Appends `handler` to the default list for `mime` (no duplicate is
    /// added), creating the entry when absent.  The caller persists.
    pub fn add_handler(&mut self, mime: MimeType, handler: Handler)
        requires
            old(self).wf(),
            mime.wf(),
            valid_handler(handler@),
        ensures
            final(self).default_apps@ == upsert_append(old(self).default_apps@, mime@, handler@),
            final(self).added_associations@ == old(self).added_associations@,
            final(self).system_apps@ == old(self).system_apps@,
            final(self).wf(),
    {
        self.default_apps.add_to(mime, handler);
    }

    /// Makes `handler` the sole default for `mime`, discarding prior
    /// alternates.  The caller persists.
    pub fn set_handler(&mut self, mime: MimeType, handler: Handler)
        requires
            old(self).wf(),
            mime.wf(),
            valid_handler(handler@),
        ensures
            final(self).default_apps@ == upsert_replace(
                old(self).default_apps@,
                mime@,
                seq![handler@],
            ),
            final(self).added_associations@ == old(self).added_associations@,
            final(self).system_apps@ == old(self).system_apps@,
            final(self).wf(),
    {
        let ghost hv = handler@;
        let mut l: Vec<Handler> = Vec::new();
        l.push(handler);
        proof {
            assert(l@.map_values(|h: Handler| h@) =~= seq![hv]);
            assert(wf_handlers(seq![hv]));
        }
        self.default_apps.set(mime, l);
    }

    /// Deletes the default entry for `mime`, reporting whether one was
    /// there; an absent key is a no-op, and only a `true` answer obliges
    /// the caller to persist.
    pub fn remove_handler(&mut self, mime: &MimeType) -> (changed: bool)
        requires
            old(self).wf(),
        ensures
            final(self).default_apps@ == remove_key(old(self).default_apps@, mime@),
            final(self).added_associations@ == old(self).added_associations@,
            final(self).system_apps@ == old(self).system_apps@,
            final(self).wf(),
            changed == (old(self).default_apps.find(mime@) is Some),
            !changed ==> final(self).default_apps@ == old(self).default_apps@,
    {
        self.default_apps.remove(mime)
    }

    /// The MIME types whose default list names `handler`, in key order.
    pub fn get_status(&self, handler: &Handler) -> (r: Vec<MimeType>)
        ensures
            r@.map_values(|m: MimeType| m@) == keys_with_handler(self.default_apps@, handler@),
    {
        let s = &self.default_apps.entries;
        let mut r: Vec<MimeType> = Vec::new();
        let mut i: usize = 0;
        proof {
            assert(self.default_apps@.subrange(0, 0).len() == 0);
            assert(r@.map_values(|m: MimeType| m@) =~= keys_with_handler(
                self.default_apps@.subrange(0, 0),
                handler@,
            ));
        }
        while i < s.len()
            invariant
                i <= s@.len(),
                self.default_apps@.len() == s@.len(),
                self.default_apps@ == s@.map_values(|e: crate::mime_map::MapEntry| e@),
                r@.map_values(|m: MimeType| m@) == keys_with_handler(
                    self.default_apps@.subrange(0, i as int),
                    handler@,
                ),
            decreases s@.len() - i,
        {
            let ghost pre = self.default_apps@.subrange(0, i as int);
            let ghost cur = self.default_apps@.subrange(0, i + 1);
            proof {
                assert(cur.drop_last() =~= pre);
                assert(cur.last() == self.default_apps@[i as int]);
            }
            let e = &s[i];
            proof {
                assert(self.default_apps@[i as int] == e@);
            }
            let ghost r0 = r@.map_values(|m: MimeType| m@);
            if handlers_contain(&e.handlers, handler) {
                let m = e.key.clone();
                r.push(m);
                proof {
                    assert(r@.map_values(|m: MimeType| m@) =~= r0.push(e@.key));
                    assert(keys_with_handler(cur, handler@) =~= r0.push(e@.key));
                }
            } else {
                proof {
                    assert(keys_with_handler(cur, handler@) =~= r0);
                }
            }
            i += 1;
        }
        proof {
            assert(self.default_apps@.subrange(0, self.default_apps@.len() as int)
                =~= self.default_apps@);
        }
        r
    }
}

/// A user default always wins: when `default_apps` has an entry for the
/// queried type, resolution yields that entry's first handler, whatever
/// the wildcard, added-association and system tiers hold.
pub proof fn lemma_priority_order(apps: MimeApps, m: Seq<char>, l: Seq<Seq<char>>)
    requires
        apps.default_apps.find(m) == Some(l),
    ensures
        apps.resolved_handler(m) == Some(l[0]),
{
}

/// Exact beats wildcard, and wildcard beats the weaker tiers: with no
/// exact user default, a wildcard default resolves to its first handler,
/// whatever the added-association and system tiers hold.
pub proof fn lemma_wildcard_fallback(apps: MimeApps, m: Seq<char>, l: Seq<Seq<char>>)
    requires
        apps.default_apps.find(m) is None,
        apps.default_apps.find(wildcard_of(m)) == Some(l),
    ensures
        apps.resolved_handler(m) == Some(l[0]),
{
}

/// The keys of `s` whose handler list holds `h`, in order.
pub open spec fn keys_with_handler(s: Seq<EntryView>, h: Seq<char>) -> Seq<Seq<char>>
    decreases s.len(),
{
    if s.len() == 0 {
        Seq::empty()
    } else if s.last().handlers.contains(h) {
        keys_with_handler(s.drop_last(), h).push(s.last().key)
    } else {
        keys_with_handler(s.drop_last(), h)
    }
}

/// One row of the tabular listing: a key and its handlers, joined.
pub struct TableRow {
    pub mime: String,
    pub handlers: String,
}

/// The rows of one tier's table, in the map's key order: each key beside
/// its handlers joined with a comma and a space.
pub fn rows_of_map(m: &MimeMap) -> (r: Vec<TableRow>)
    ensures
        r@.len() == m@.len(),
        forall|i: int|
            0 <= i < r@.len() ==> (#[trigger] r@[i]).mime@ == m@[i].key && r@[i].handlers@
                == join_with(m@[i].handlers, ", "@),
{
    let mut r: Vec<TableRow> = Vec::new();
    let mut i: usize = 0;
    while i < m.entries.len()
        invariant
            i <= m.entries@.len(),
            m@.len() == m.entries@.len(),
            m@ == m.entries@.map_values(|e: crate::mime_map::MapEntry| e@),
            r@.len() == i,
            forall|j: int|
                0 <= j < i ==> (#[trigger] r@[j]).mime@ == m@[j].key && r@[j].handlers@
                    == join_with(m@[j].handlers, ", "@),
        decreases m.entries@.len() - i,
    {
        let e = &m.entries[i];
        proof {
            assert(m@[i as int] == e@);
        }
        let joined = join_handlers(&e.handlers, ", ");
        let row = TableRow { mime: e.key.to_string(), handlers: joined };
        r.push(row);
        i += 1;
    }
    r
}

/// The identifiers of `hs` joined with `sep` between neighbours.
pub fn join_handlers(hs: &Vec<Handler>, sep: &str) -> (r: String)
    ensures
        r@ == join_with(hs@.map_values(|h: Handler| h@), sep@),
{
    let ghost v = hs@.map_values(|h: Handler| h@);
    let mut r = String::new();
    let mut i: usize = 0;
    proof {
        assert(v.subrange(0, 0).len() == 0);
    }
    while i < hs.len()
        invariant
            i <= hs@.len(),
            v == hs@.map_values(|h: Handler| h@),
            r@ == join_with(v.subrange(0, i as int), sep@),
        decreases hs@.len() - i,
    {
        let ghost pre = v.subrange(0, i as int);
        let ghost cur = v.subrange(0, i + 1);
        proof {
            assert(cur.drop_last() =~= pre);
            assert(cur.last() == v[i as int]);
        }
        if i > 0 {
            r.append(sep);
        }
        r.append(hs[i].name.as_str());
        proof {
            if i == 0 {
                assert(cur.len() == 1);
                assert(r@ == cur[0]);
            }
        }
        i += 1;
    }
    proof {
        assert(v.subrange(0, v.len() as int) =~= v);
    }
    r
}

} // verus!
