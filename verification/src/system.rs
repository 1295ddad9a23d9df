//! The snapshot of installed applications: which handlers declare support
//! for each MIME type, in scan order.

use vstd::prelude::*;

use crate::desktop_entry::DesktopEntry;
use crate::desktop_entry::DesktopEntryView;
use crate::handler::Handler;
use crate::mime_map::MimeMap;
use crate::mime_map::assoc_find;
use crate::mime_map::clone_handlers;
use crate::mime_map::upsert_append;
use crate::mime_map::wf_entries;
use crate::mime_map::EntryView;
use crate::mime_type::MimeType;

verus! {

/// `s` after appending `h` under each key of `mimes`, in order.
pub open spec fn add_mimes(s: Seq<EntryView>, mimes: Seq<Seq<char>>, h: Seq<char>) -> Seq<EntryView>
    decreases mimes.len(),
{
    if mimes.len() == 0 {
        s
    } else {
        add_mimes(upsert_append(s, mimes[0], h), mimes.subrange(1, mimes.len() as int), h)
    }
}

/// `s` after registering every entry of `entries`, in order: each entry's
/// file name is appended under each MIME type it declares.
pub open spec fn registry_of(s: Seq<EntryView>, entries: Seq<DesktopEntryView>) -> Seq<EntryView>
    decreases entries.len(),
{
    if entries.len() == 0 {
        s
    } else {
        registry_of(
            add_mimes(s, entries[0].mimes, entries[0].file_name),
            entries.subrange(1, entries.len() as int),
        )
    }
}

/// The installed applications, as an immutable mapping from MIME type to
/// the handlers that declare support for it, in scan order.
pub struct SystemApps {
    pub map: MimeMap,
}

impl View for SystemApps {
    type V = Seq<EntryView>;

    open spec fn view(&self) -> Seq<EntryView> {
        self.map@
    }
}

impl SystemApps {
    /// Whether the snapshot is well formed.
    pub open spec fn wf(self) -> bool {
        self.map.wf()
    }

    /// An empty snapshot.
    pub fn new() -> (r: SystemApps)
        ensures
            r@ =~= Seq::<EntryView>::empty(),
            r.wf(),
    {
        SystemApps { map: MimeMap::new() }
    }

    /// Builds the snapshot from the parsed entries, in scan order: for
    /// every (entry, declared MIME type) pair the entry's file name is
    /// appended to that type's handler list, first occurrence first.
    pub fn populate(entries: &Vec<DesktopEntry>) -> (r: SystemApps)
        requires
            forall|i: int| 0 <= i < entries@.len() ==> (#[trigger] entries@[i]).wf(),
        ensures
            r@ == registry_of(
                Seq::<EntryView>::empty(),
                entries@.map_values(|e: DesktopEntry| e@),
            ),
            r.wf(),
    {
        let ghost evs = entries@.map_values(|e: DesktopEntry| e@);
        let mut map = MimeMap::new();
        let mut i: usize = 0;
        proof {
            assert(evs.subrange(0, evs.len() as int) =~= evs);
        }
        while i < entries.len()
            invariant
                i <= entries@.len(),
                evs == entries@.map_values(|e: DesktopEntry| e@),
                forall|j: int| 0 <= j < entries@.len() ==> (#[trigger] entries@[j]).wf(),
                map.wf(),
                registry_of(map@, evs.subrange(i as int, evs.len() as int)) == registry_of(
                    Seq::<EntryView>::empty(),
                    evs,
                ),
            decreases entries@.len() - i,
        {
            let e = &entries[i];
            let ghost rest = evs.subrange(i as int, evs.len() as int);
            proof {
                assert(rest[0] == evs[i as int]);
                assert(evs[i as int] == e@);
                assert(rest.subrange(1, rest.len() as int) =~= evs.subrange(
                    i + 1,
                    evs.len() as int,
                ));
            }
            let ghost m0 = map@;
            let mut j: usize = 0;
            proof {
                assert(e@.mimes.subrange(0, e@.mimes.len() as int) =~= e@.mimes);
            }
            while j < e.mimes.len()
                invariant
                    j <= e.mimes@.len(),
                    e.wf(),
                    map.wf(),
                    add_mimes(map@, e@.mimes.subrange(j as int, e@.mimes.len() as int), e@.file_name)
                        == add_mimes(m0, e@.mimes, e@.file_name),
                decreases e.mimes@.len() - j,
            {
                let ghost mrest = e@.mimes.subrange(j as int, e@.mimes.len() as int);
                proof {
                    assert(mrest[0] == e@.mimes[j as int]);
                    assert(e@.mimes[j as int] == e.mimes@[j as int]@);
                    assert(mrest.subrange(1, mrest.len() as int) =~= e@.mimes.subrange(
                        j + 1,
                        e@.mimes.len() as int,
                    ));
                }
                let m = e.mimes[j].clone();
                let h = Handler { name: e.file_name.clone() };
                map.add_to(m, h);
                j += 1;
            }
            proof {
                assert(e@.mimes.subrange(e@.mimes.len() as int, e@.mimes.len() as int).len() == 0);
                assert(map@ == add_mimes(m0, e@.mimes, e@.file_name));
            }
            i += 1;
        }
        proof {
            assert(evs.subrange(i as int, evs.len() as int).len() == 0);
        }
        SystemApps { map }
    }

    /// The handlers that declare support for `mime`, or `None` when no
    /// installed application does.
    pub fn get_handlers(&self, mime: &MimeType) -> (r: Option<Vec<Handler>>)
        ensures
            match r {
                Some(hs) => assoc_find(self@, mime@) == Some(hs@.map_values(|h: Handler| h@)),
                None => assoc_find(self@, mime@) is None,
            },
    {
        match self.map.get(mime) {
            Some(hs) => Some(clone_handlers(hs)),
            None => None,
        }
    }

    /// The first handler that declares support for `mime`.
    pub fn get_handler(&self, mime: &MimeType) -> (r: Option<Handler>)
        requires
            self.wf(),
        ensures
            match r {
                Some(h) => assoc_find(self@, mime@) matches Some(l) && h@ == l[0],
                None => assoc_find(self@, mime@) is None,
            },
    {
        match self.map.get(mime) {
            Some(hs) => {
                proof {
                    crate::mime_map::lemma_assoc_find(self@, mime@);
                }
                Some(hs[0].clone())
            },
            None => None,
        }
    }
}

} // verus!
