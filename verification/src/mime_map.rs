//! A mapping from MIME type to an ordered list of distinct handlers, kept
//! as an association list sorted by key.

use vstd::prelude::*;

use crate::handler::Handler;
use crate::handler::valid_handler;
use crate::mime_type::MimeType;
use crate::mime_type::valid_mime;
use crate::text::lemma_lex_lt_total;
use crate::text::lemma_lex_lt_trans;
use crate::text::lex_lt;
use crate::text::str_lex_le;

verus! {

/// The view of one entry: a key and its handler identifiers, in order.
pub struct EntryView {
    pub key: Seq<char>,
    pub handlers: Seq<Seq<char>>,
}

/// One key of the map with its ordered handler list.
pub struct MapEntry {
    pub key: MimeType,
    pub handlers: Vec<Handler>,
}

impl View for MapEntry {
    type V = EntryView;

    open spec fn view(&self) -> EntryView {
        EntryView { key: self.key@, handlers: self.handlers@.map_values(|h: Handler| h@) }
    }
}

/// The handler list stored under `k`, or `None` when `k` has no entry.
pub open spec fn assoc_find(s: Seq<EntryView>, k: Seq<char>) -> Option<Seq<Seq<char>>>
    decreases s.len(),
{
    if s.len() == 0 {
        None
    } else if s[0].key == k {
        Some(s[0].handlers)
    } else {
        assoc_find(s.subrange(1, s.len() as int), k)
    }
}

/// No sequence occurs twice.
pub open spec fn distinct_seqs(hs: Seq<Seq<char>>) -> bool {
    forall|i: int, j: int| 0 <= i < j < hs.len() ==> hs[i] != hs[j]
}

/// A well-formed stored handler list: nonempty, duplicate-free, every
/// token valid.
pub open spec fn wf_handlers(hs: Seq<Seq<char>>) -> bool {
    &&& hs.len() > 0
    &&& distinct_seqs(hs)
    &&& forall|i: int| 0 <= i < hs.len() ==> valid_handler(#[trigger] hs[i])
}

/// A well-formed map: keys strictly sorted (hence distinct), keys valid
/// MIME strings, every list well formed.
pub open spec fn wf_entries(s: Seq<EntryView>) -> bool {
    &&& forall|i: int, j: int|
        0 <= i < j < s.len() ==> lex_lt((#[trigger] s[i]).key, (#[trigger] s[j]).key)
    &&& forall|i: int| 0 <= i < s.len() ==> valid_mime((#[trigger] s[i]).key)
    &&& forall|i: int| 0 <= i < s.len() ==> wf_handlers((#[trigger] s[i]).handlers)
}

/// `assoc_find` answers `Some` exactly for the keys that occur, with the
/// handlers stored beside the first occurrence.
pub proof fn lemma_assoc_find(s: Seq<EntryView>, k: Seq<char>)
    ensures
        match assoc_find(s, k) {
            Some(hs) => exists|i: int|
                0 <= i < s.len() && (#[trigger] s[i]).key == k && s[i].handlers == hs,
            None => forall|i: int| 0 <= i < s.len() ==> (#[trigger] s[i]).key != k,
        },
    decreases s.len(),
{
    if s.len() != 0 && s[0].key != k {
        let t = s.subrange(1, s.len() as int);
        lemma_assoc_find(t, k);
        match assoc_find(s, k) {
            Some(hs) => {
                let i = choose|i: int| 0 <= i < t.len() && (#[trigger] t[i]).key == k
                    && t[i].handlers == hs;
                assert(s[i + 1] == t[i]);
            },
            None => {
                assert forall|i: int| 0 <= i < s.len() implies (#[trigger] s[i]).key != k by {
                    if i > 0 {
                        assert(t[i - 1] == s[i]);
                    }
                }
            },
        }
    }
}

/// Finding a key is unaffected by a prefix of entries with other keys.
pub proof fn lemma_assoc_find_skip(s: Seq<EntryView>, k: Seq<char>, i: int)
    requires
        0 <= i <= s.len(),
        forall|j: int| 0 <= j < i ==> (#[trigger] s[j]).key != k,
    ensures
        assoc_find(s, k) == assoc_find(s.subrange(i, s.len() as int), k),
    decreases i,
{
    if i > 0 {
        let t = s.subrange(1, s.len() as int);
        assert forall|j: int| 0 <= j < i - 1 implies (#[trigger] t[j]).key != k by {
            assert(t[j] == s[j + 1]);
        }
        lemma_assoc_find_skip(t, k, i - 1);
        assert(t.subrange(i - 1, t.len() as int) =~= s.subrange(i, s.len() as int));
    } else {
        assert(s.subrange(0, s.len() as int) =~= s);
    }
}

/// An entry view with the given key and handlers.
pub open spec fn entry_of(k: Seq<char>, hs: Seq<Seq<char>>) -> EntryView {
    EntryView { key: k, handlers: hs }
}

/// `s` with the handler list under `k` replaced by `hs` (the entry is
/// created in key order when absent).
pub open spec fn upsert_replace(s: Seq<EntryView>, k: Seq<char>, hs: Seq<Seq<char>>) -> Seq<
    EntryView,
>
    decreases s.len(),
{
    if s.len() == 0 {
        seq![entry_of(k, hs)]
    } else if lex_lt(s[0].key, k) {
        seq![s[0]] + upsert_replace(s.subrange(1, s.len() as int), k, hs)
    } else if s[0].key == k {
        seq![entry_of(k, hs)] + s.subrange(1, s.len() as int)
    } else {
        seq![entry_of(k, hs)] + s
    }
}

/// `hs` with `h` appended, unless `h` already occurs (first occurrence
/// wins, order stable).
pub open spec fn append_handler_list(hs: Seq<Seq<char>>, h: Seq<char>) -> Seq<Seq<char>> {
    if hs.contains(h) {
        hs
    } else {
        hs.push(h)
    }
}

/// `s` with `h` appended to the list under `k` (deduplicated), the entry
/// being created in key order when absent.
pub open spec fn upsert_append(s: Seq<EntryView>, k: Seq<char>, h: Seq<char>) -> Seq<EntryView>
    decreases s.len(),
{
    if s.len() == 0 {
        seq![entry_of(k, seq![h])]
    } else if lex_lt(s[0].key, k) {
        seq![s[0]] + upsert_append(s.subrange(1, s.len() as int), k, h)
    } else if s[0].key == k {
        seq![entry_of(k, append_handler_list(s[0].handlers, h))] + s.subrange(1, s.len() as int)
    } else {
        seq![entry_of(k, seq![h])] + s
    }
}

/// `s` without the entry whose key is `k`, if there is one.
pub open spec fn remove_key(s: Seq<EntryView>, k: Seq<char>) -> Seq<EntryView>
    decreases s.len(),
{
    if s.len() == 0 {
        s
    } else if s[0].key == k {
        s.subrange(1, s.len() as int)
    } else {
        seq![s[0]] + remove_key(s.subrange(1, s.len() as int), k)
    }
}

/// Whether some entry of `s` carries the key `k`.
pub open spec fn has_key(s: Seq<EntryView>, k: Seq<char>) -> bool {
    exists|j: int| 0 <= j < s.len() && (#[trigger] s[j]).key == k
}

/// Well-formedness carries over to the tail of the entry list.
pub proof fn lemma_wf_tail(s: Seq<EntryView>)
    requires
        wf_entries(s),
        s.len() > 0,
    ensures
        wf_entries(s.subrange(1, s.len() as int)),
{
    let t = s.subrange(1, s.len() as int);
    assert(forall|i: int| 0 <= i < t.len() ==> #[trigger] t[i] == s[i + 1]);
}

/// What replacing a key's list does: the result is well formed, holds `hs`
/// under `k`, leaves every other key unchanged, and introduces no key
/// besides `k`.
pub proof fn lemma_upsert_replace_props(s: Seq<EntryView>, k: Seq<char>, hs: Seq<Seq<char>>)
    requires
        wf_entries(s),
        valid_mime(k),
        wf_handlers(hs),
    ensures
        wf_entries(upsert_replace(s, k, hs)),
        assoc_find(upsert_replace(s, k, hs), k) == Some(hs),
        forall|k2: Seq<char>|
            k2 != k ==> #[trigger] assoc_find(upsert_replace(s, k, hs), k2) == assoc_find(s, k2),
        forall|i: int|
            0 <= i < upsert_replace(s, k, hs).len() ==> (#[trigger] upsert_replace(s, k, hs)[i]).key
                == k || has_key(s, upsert_replace(s, k, hs)[i].key),
    decreases s.len(),
{
    let r = upsert_replace(s, k, hs);
    if s.len() == 0 {
        assert(r == seq![entry_of(k, hs)]);
        assert(r[0].key == k);
        assert(r.subrange(1, 1) =~= Seq::<EntryView>::empty());
        assert forall|k2: Seq<char>| k2 != k implies #[trigger] assoc_find(r, k2) == assoc_find(
            s,
            k2,
        ) by {
            assert(assoc_find(r, k2) == assoc_find(r.subrange(1, 1), k2));
        }
    } else {
        let t = s.subrange(1, s.len() as int);
        lemma_wf_tail(s);
        assert(forall|i: int| 0 <= i < t.len() ==> #[trigger] t[i] == s[i + 1]);
        if lex_lt(s[0].key, k) {
            lemma_upsert_replace_props(t, k, hs);
            let rt = upsert_replace(t, k, hs);
            assert(r == seq![s[0]] + rt);
            assert(r[0] == s[0]);
            assert(forall|i: int| 1 <= i < r.len() ==> #[trigger] r[i] == rt[i - 1]);
            assert(r.subrange(1, r.len() as int) =~= rt);
            assert forall|i: int, j: int| 0 <= i < j < r.len() implies lex_lt(
                (#[trigger] r[i]).key,
                (#[trigger] r[j]).key,
            ) by {
                if i == 0 {
                    let e = rt[j - 1];
                    if e.key == k {
                        assert(lex_lt(s[0].key, k));
                    } else {
                        assert(has_key(t, e.key));
                        let m = choose|m: int| 0 <= m < t.len() && (#[trigger] t[m]).key == e.key;
                        assert(t[m] == s[m + 1]);
                        assert(lex_lt(s[0].key, s[m + 1].key));
                    }
                }
            }
            assert(wf_entries(r));
            assert(r[0].key != k);
            assert(assoc_find(r, k) == assoc_find(rt, k));
            assert forall|k2: Seq<char>| k2 != k implies #[trigger] assoc_find(r, k2)
                == assoc_find(s, k2) by {
                if k2 == s[0].key {
                } else {
                    assert(assoc_find(r, k2) == assoc_find(rt, k2));
                    assert(assoc_find(s, k2) == assoc_find(t, k2));
                }
            }
            assert forall|i: int| 0 <= i < r.len() implies (#[trigger] r[i]).key == k || has_key(
                s,
                r[i].key,
            ) by {
                if i == 0 {
                    assert(s[0].key == r[0].key);
                    assert(has_key(s, r[0].key));
                } else {
                    let e = rt[i - 1];
                    if e.key != k {
                        let m = choose|m: int| 0 <= m < t.len() && (#[trigger] t[m]).key == e.key;
                        assert(s[m + 1].key == e.key);
                        assert(has_key(s, e.key));
                    }
                }
            }
        } else if s[0].key == k {
            assert(r == seq![entry_of(k, hs)] + t);
            assert(r[0].key == k);
            assert(forall|i: int| 1 <= i < r.len() ==> #[trigger] r[i] == t[i - 1]);
            assert(r.subrange(1, r.len() as int) =~= t);
            assert forall|i: int, j: int| 0 <= i < j < r.len() implies lex_lt(
                (#[trigger] r[i]).key,
                (#[trigger] r[j]).key,
            ) by {
                if i == 0 {
                    assert(r[j] == s[j]);
                    assert(lex_lt(s[0].key, s[j].key));
                }
            }
            assert(wf_entries(r));
            assert forall|k2: Seq<char>| k2 != k implies #[trigger] assoc_find(r, k2)
                == assoc_find(s, k2) by {
                assert(assoc_find(r, k2) == assoc_find(t, k2));
                assert(assoc_find(s, k2) == assoc_find(t, k2));
            }
            assert forall|i: int| 0 <= i < r.len() implies (#[trigger] r[i]).key == k || has_key(
                s,
                r[i].key,
            ) by {
                if i > 0 {
                    assert(r[i] == s[i]);
                    assert(has_key(s, r[i].key));
                }
            }
        } else {
            lemma_lex_lt_total(s[0].key, k);
            assert(lex_lt(k, s[0].key));
            assert(r == seq![entry_of(k, hs)] + s);
            assert(r[0].key == k);
            assert(forall|i: int| 1 <= i < r.len() ==> #[trigger] r[i] == s[i - 1]);
            assert(r.subrange(1, r.len() as int) =~= s);
            assert forall|i: int, j: int| 0 <= i < j < r.len() implies lex_lt(
                (#[trigger] r[i]).key,
                (#[trigger] r[j]).key,
            ) by {
                if i == 0 {
                    if j > 1 {
                        assert(lex_lt(s[0].key, s[j - 1].key));
                        lemma_lex_lt_trans(k, s[0].key, s[j - 1].key);
                    }
                }
            }
            assert(wf_entries(r));
            assert forall|k2: Seq<char>| k2 != k implies #[trigger] assoc_find(r, k2)
                == assoc_find(s, k2) by {
                assert(assoc_find(r, k2) == assoc_find(s, k2));
            }
            assert forall|i: int| 0 <= i < r.len() implies (#[trigger] r[i]).key == k || has_key(
                s,
                r[i].key,
            ) by {
                if i > 0 {
                    assert(r[i] == s[i - 1]);
                    assert(has_key(s, r[i].key));
                }
            }
        }
    }
}

/// Appending to a key's list is replacing it with the appended list (an
/// absent key gets the one-element list).
pub proof fn lemma_upsert_append_as_replace(s: Seq<EntryView>, k: Seq<char>, h: Seq<char>)
    requires
        wf_entries(s),
    ensures
        upsert_append(s, k, h) == match assoc_find(s, k) {
            Some(l) => upsert_replace(s, k, append_handler_list(l, h)),
            None => upsert_replace(s, k, seq![h]),
        },
    decreases s.len(),
{
    if s.len() == 0 {
    } else {
        let t = s.subrange(1, s.len() as int);
        lemma_wf_tail(s);
        if lex_lt(s[0].key, k) {
            lemma_upsert_append_as_replace(t, k, h);
        } else if s[0].key == k {
        } else {
            lemma_lex_lt_total(s[0].key, k);
            assert(lex_lt(k, s[0].key));
            lemma_assoc_find(s, k);
            if assoc_find(s, k) is Some {
                let i = choose|i: int|
                    0 <= i < s.len() && (#[trigger] s[i]).key == k && s[i].handlers
                        == assoc_find(s, k)->Some_0;
                if i == 0 {
                } else {
                    assert(lex_lt(s[0].key, s[i].key));
                    lemma_lex_lt_trans(k, s[0].key, s[i].key);
                    assert(lex_lt(k, k));
                }
                assert(false);
            }
        }
    }
}

/// Removing an absent key changes nothing.
pub proof fn lemma_remove_absent(s: Seq<EntryView>, k: Seq<char>)
    requires
        assoc_find(s, k) is None,
    ensures
        remove_key(s, k) == s,
    decreases s.len(),
{
    if s.len() != 0 {
        let t = s.subrange(1, s.len() as int);
        lemma_remove_absent(t, k);
        assert(remove_key(s, k) =~= s);
    }
}

/// What removing a key does: the key is gone, every other key is
/// unchanged, and well-formedness is kept.
pub proof fn lemma_remove_props(s: Seq<EntryView>, k: Seq<char>)
    requires
        wf_entries(s),
    ensures
        wf_entries(remove_key(s, k)),
        assoc_find(remove_key(s, k), k) is None,
        forall|k2: Seq<char>|
            k2 != k ==> #[trigger] assoc_find(remove_key(s, k), k2) == assoc_find(s, k2),
    decreases s.len(),
{
    let r = remove_key(s, k);
    if s.len() == 0 {
    } else {
        let t = s.subrange(1, s.len() as int);
        lemma_wf_tail(s);
        assert(forall|i: int| 0 <= i < t.len() ==> #[trigger] t[i] == s[i + 1]);
        if s[0].key == k {
            assert(r == t);
            lemma_assoc_find(t, k);
            if assoc_find(t, k) is Some {
                let i = choose|i: int| 0 <= i < t.len() && (#[trigger] t[i]).key == k;
                assert(lex_lt(s[0].key, s[i + 1].key));
                assert(false);
            }
        } else {
            lemma_remove_props(t, k);
            let rt = remove_key(t, k);
            assert(r == seq![s[0]] + rt);
            assert(r[0] == s[0]);
            assert(forall|i: int| 1 <= i < r.len() ==> #[trigger] r[i] == rt[i - 1]);
            assert(r.subrange(1, r.len() as int) =~= rt);
            assert forall|i: int|
                0 <= i < rt.len() implies exists|j: int|
                0 <= j < t.len() && #[trigger] rt[i] == t[j] by {
                lemma_remove_is_sub(t, k, i);
            }
            assert forall|i: int, j: int| 0 <= i < j < r.len() implies lex_lt(
                (#[trigger] r[i]).key,
                (#[trigger] r[j]).key,
            ) by {
                if i == 0 {
                    let m = choose|m: int| 0 <= m < t.len() && #[trigger] rt[j - 1] == t[m];
                    assert(lex_lt(s[0].key, s[m + 1].key));
                }
            }
            assert forall|i: int| 0 <= i < r.len() implies valid_mime((#[trigger] r[i]).key)
                && wf_handlers(r[i].handlers) by {
                if i > 0 {
                    let m = choose|m: int| 0 <= m < t.len() && #[trigger] rt[i - 1] == t[m];
                    assert(t[m] == s[m + 1]);
                }
            }
            assert(wf_entries(r));
            assert(assoc_find(r, k) == assoc_find(rt, k));
            assert forall|k2: Seq<char>| k2 != k implies #[trigger] assoc_find(r, k2)
                == assoc_find(s, k2) by {
                if k2 == s[0].key {
                } else {
                    assert(assoc_find(r, k2) == assoc_find(rt, k2));
                    assert(assoc_find(s, k2) == assoc_find(t, k2));
                }
            }
        }
    }
}

/// Every entry of `remove_key(s, k)` is an entry of `s`.
pub proof fn lemma_remove_is_sub(s: Seq<EntryView>, k: Seq<char>, i: int)
    requires
        0 <= i < remove_key(s, k).len(),
    ensures
        exists|j: int| 0 <= j < s.len() && #[trigger] remove_key(s, k)[i] == s[j],
    decreases s.len(),
{
    let r = remove_key(s, k);
    if s.len() == 0 {
    } else {
        let t = s.subrange(1, s.len() as int);
        if s[0].key == k {
            assert(r[i] == t[i]);
            assert(t[i] == s[i + 1]);
        } else {
            if i == 0 {
                assert(r[0] == s[0]);
            } else {
                lemma_remove_is_sub(t, k, i - 1);
                let m = choose|m: int| 0 <= m < t.len() && #[trigger] remove_key(t, k)[i - 1] == t[m];
                assert(r[i] == remove_key(t, k)[i - 1]);
                assert(t[m] == s[m + 1]);
            }
        }
    }
}

/// A mapping from MIME type to the ordered handlers configured for it.
pub struct MimeMap {
    pub entries: Vec<MapEntry>,
}

impl View for MimeMap {
    type V = Seq<EntryView>;

    open spec fn view(&self) -> Seq<EntryView> {
        self.entries@.map_values(|e: MapEntry| e@)
    }
}

impl MimeMap {
    /// Whether the map is well formed.
    pub open spec fn wf(self) -> bool {
        wf_entries(self@)
    }

    /// The handler list stored under key `k`.
    pub open spec fn find(self, k: Seq<char>) -> Option<Seq<Seq<char>>> {
        assoc_find(self@, k)
    }

    /// An empty map.
    pub fn new() -> (r: MimeMap)
        ensures
            r@ =~= Seq::<EntryView>::empty(),
            r.wf(),
    {
        MimeMap { entries: Vec::new() }
    }

    /// The stored handler list for `m`, if any.
    pub fn get(&self, m: &MimeType) -> (r: Option<&Vec<Handler>>)
        ensures
            match r {
                Some(hs) => self.find(m@) == Some(hs@.map_values(|h: Handler| h@)),
                None => self.find(m@) is None,
            },
    {
        let n = self.entries.len();
        let mut i: usize = 0;
        proof {
            assert(self@.subrange(0, self@.len() as int) =~= self@);
        }
        while i < n
            invariant
                i <= n,
                n == self.entries@.len(),
                self@.len() == n,
                forall|j: int| 0 <= j < i ==> (#[trigger] self@[j]).key != m@,
            decreases n - i,
        {
            let e = &self.entries[i];
            if e.key == *m {
                proof {
                    assert(self@[i as int].key == m@);
                    lemma_assoc_find_skip(self@, m@, i as int);
                    assert(self@.subrange(i as int, self@.len() as int)[0] == self@[i as int]);
                }
                return Some(&e.handlers);
            }
            proof {
                assert(self@[i as int] == e@);
            }
            i += 1;
        }
        proof {
            lemma_assoc_find_skip(self@, m@, n as int);
            assert(self@.subrange(n as int, self@.len() as int).len() == 0);
        }
        None
    }

    /// Replaces the list under `key` with `handlers`, creating the entry
    /// in key order when absent.
    pub fn set(&mut self, key: MimeType, handlers: Vec<Handler>)
        requires
            old(self).wf(),
            valid_mime(key@),
            wf_handlers(handlers@.map_values(|h: Handler| h@)),
        ensures
            final(self)@ == upsert_replace(
                old(self)@,
                key@,
                handlers@.map_values(|h: Handler| h@),
            ),
            final(self).wf(),
    {
        let ghost s0 = self@;
        let ghost hsv = handlers@.map_values(|h: Handler| h@);
        let idx = self.lower_bound(&key);
        let found = idx < self.entries.len() && self.entries[idx].key == key;
        proof {
            lemma_upsert_peel(s0, key@, hsv, idx as int);
            let tail = s0.subrange(idx as int, s0.len() as int);
            if idx < self.entries.len() {
                assert(tail[0] == s0[idx as int]);
            }
            lemma_upsert_replace_props(s0, key@, hsv);
        }
        let e = MapEntry { key, handlers };
        if found {
            self.entries.set(idx, e);
            proof {
                assert(final(self)@ =~~= upsert_replace(s0, e.key@, hsv));
            }
        } else {
            self.entries.insert(idx, e);
            proof {
                assert(final(self)@ =~~= upsert_replace(s0, e.key@, hsv));
            }
        }
    }

    /// Appends `h` to the list under `key` unless it is already there,
    /// creating the entry when absent.
    pub fn add_to(&mut self, key: MimeType, h: Handler)
        requires
            old(self).wf(),
            valid_mime(key@),
            valid_handler(h@),
        ensures
            final(self)@ == upsert_append(old(self)@, key@, h@),
            final(self).wf(),
    {
        let ghost s0 = self@;
        proof {
            lemma_upsert_append_as_replace(s0, key@, h@);
        }
        let new_list = match self.get(&key) {
            Some(hs) => {
                if handlers_contain(hs, &h) {
                    proof {
                        let l = assoc_find(s0, key@)->Some_0;
                        assert(append_handler_list(l, h@) == l);
                        lemma_replace_same(s0, key@, l);
                    }
                    return ;
                }
                let mut nl = clone_handlers(hs);
                proof {
                    let l = assoc_find(s0, key@)->Some_0;
                    lemma_assoc_find(s0, key@);
                    let w = choose|w: int| 0 <= w < s0.len() && (#[trigger] s0[w]).key == key@
                        && s0[w].handlers == l;
                    assert(wf_handlers(l));
                    lemma_append_list_wf(l, h@);
                }
                nl.push(h);
                proof {
                    let l = assoc_find(s0, key@)->Some_0;
                    assert(nl@.map_values(|x: Handler| x@) =~= l.push(h@));
                    assert(append_handler_list(l, h@) == l.push(h@));
                }
                nl
            },
            None => {
                let mut nl: Vec<Handler> = Vec::new();
                nl.push(h);
                proof {
                    assert(nl@.map_values(|x: Handler| x@) =~= seq![h@]);
                    assert(seq![h@][0] == h@);
                    assert(seq![h@].contains(h@));
                    assert(wf_handlers(seq![h@]));
                }
                nl
            },
        };
        self.set(key, new_list);
    }

    /// Removes the entry under `m`, reporting whether one was there; an
    /// absent key leaves the map untouched.
    pub fn remove(&mut self, m: &MimeType) -> (changed: bool)
        requires
            old(self).wf(),
        ensures
            final(self)@ == remove_key(old(self)@, m@),
            final(self).wf(),
            changed == (assoc_find(old(self)@, m@) is Some),
            !changed ==> final(self)@ == old(self)@,
    {
        let ghost s0 = self@;
        proof {
            lemma_remove_props(s0, m@);
        }
        let n = self.entries.len();
        let mut i: usize = 0;
        while i < n
            invariant
                i <= n,
                n == self.entries@.len(),
                s0 == old(self)@,
                old(self).wf(),
                self@ == s0,
                self@.len() == n,
                forall|j: int| 0 <= j < i ==> (#[trigger] s0[j]).key != m@,
            decreases n - i,
        {
            let e = &self.entries[i];
            if e.key == *m {
                proof {
                    assert(s0[i as int] == e@);
                    assert(s0[i as int].key == m@);
                    lemma_remove_peel(s0, m@, i as int);
                    let tail = s0.subrange(i as int, s0.len() as int);
                    assert(tail[0] == s0[i as int]);
                    assert(remove_key(tail, m@) == tail.subrange(1, tail.len() as int));
                    lemma_assoc_find_skip(s0, m@, i as int);
                }
                self.entries.remove(i);
                proof {
                    assert(self@ =~~= remove_key(s0, m@));
                }
                return true;
            }
            proof {
                assert(self@[i as int] == e@);
            }
            i += 1;
        }
        proof {
            lemma_assoc_find_skip(s0, m@, n as int);
            assert(s0.subrange(n as int, s0.len() as int).len() == 0);
            lemma_remove_absent(s0, m@);
        }
        false
    }

    /// The index of the first entry whose key is not before `key`.
    fn lower_bound(&self, key: &MimeType) -> (idx: usize)
        requires
            self.wf(),
        ensures
            idx <= self@.len(),
            forall|j: int| 0 <= j < idx ==> lex_lt((#[trigger] self@[j]).key, key@),
            idx < self@.len() ==> !lex_lt(self@[idx as int].key, key@),
    {
        let n = self.entries.len();
        let mut i: usize = 0;
        while i < n
            invariant
                i <= n,
                n == self.entries@.len(),
                self@.len() == n,
                forall|j: int| 0 <= j < i ==> lex_lt((#[trigger] self@[j]).key, key@),
            decreases n - i,
        {
            let e = &self.entries[i];
            proof {
                assert(self@[i as int] == e@);
            }
            if !mime_lt(&e.key, key) {
                return i;
            }
            i += 1;
        }
        n
    }
}

/// Whether `a` comes strictly before `b` in key order.
pub fn mime_lt(a: &MimeType, b: &MimeType) -> (r: bool)
    ensures
        r == lex_lt(a@, b@),
{
    let le = str_lex_le(a.text.as_str(), b.text.as_str());
    le && !(a == b)
}

/// Whether the list holds a handler with the same identifier.
pub fn handlers_contain(hs: &Vec<Handler>, h: &Handler) -> (r: bool)
    ensures
        r == hs@.map_values(|x: Handler| x@).contains(h@),
{
    let ghost v = hs@.map_values(|x: Handler| x@);
    let mut i: usize = 0;
    while i < hs.len()
        invariant
            i <= hs@.len(),
            v == hs@.map_values(|x: Handler| x@),
            forall|j: int| 0 <= j < i ==> v[j] != h@,
        decreases hs@.len() - i,
    {
        if hs[i] == *h {
            proof {
                assert(v[i as int] == h@);
            }
            return true;
        }
        i += 1;
    }
    proof {
        if v.contains(h@) {
            let j = choose|j: int| 0 <= j < v.len() && v[j] == h@;
        }
    }
    false
}

/// A copy of a handler list.
pub fn clone_handlers(hs: &Vec<Handler>) -> (r: Vec<Handler>)
    ensures
        r@.map_values(|x: Handler| x@) == hs@.map_values(|x: Handler| x@),
{
    let mut r: Vec<Handler> = Vec::new();
    let mut i: usize = 0;
    while i < hs.len()
        invariant
            i <= hs@.len(),
            r@.len() == i,
            forall|j: int| 0 <= j < i ==> (#[trigger] r@[j])@ == hs@[j]@,
        decreases hs@.len() - i,
    {
        let c = hs[i].clone();
        r.push(c);
        i += 1;
    }
    proof {
        assert(r@.map_values(|x: Handler| x@) =~= hs@.map_values(|x: Handler| x@));
    }
    r
}

/// Replacing a key's list with the list it already holds is the identity.
pub proof fn lemma_replace_same(s: Seq<EntryView>, k: Seq<char>, l: Seq<Seq<char>>)
    requires
        wf_entries(s),
        assoc_find(s, k) == Some(l),
    ensures
        upsert_replace(s, k, l) == s,
    decreases s.len(),
{
    if s.len() != 0 {
        let t = s.subrange(1, s.len() as int);
        lemma_wf_tail(s);
        if s[0].key == k {
            assert(upsert_replace(s, k, l) =~= s);
        } else {
            if lex_lt(s[0].key, k) {
                lemma_replace_same(t, k, l);
                assert(upsert_replace(s, k, l) =~= s);
            } else {
                lemma_lex_lt_total(s[0].key, k);
                lemma_assoc_find(t, k);
                let i = choose|i: int| 0 <= i < t.len() && (#[trigger] t[i]).key == k
                    && t[i].handlers == l;
                assert(t[i] == s[i + 1]);
                assert(lex_lt(s[0].key, s[i + 1].key));
                lemma_lex_lt_trans(k, s[0].key, s[i + 1].key);
                assert(false);
            }
        }
    }
}

/// Appending to a well-formed list keeps it well formed and makes it hold
/// the appended handler.
pub proof fn lemma_append_list_wf(l: Seq<Seq<char>>, h: Seq<char>)
    requires
        wf_handlers(l),
        valid_handler(h),
    ensures
        wf_handlers(append_handler_list(l, h)),
        append_handler_list(l, h).contains(h),
{
    let l1 = append_handler_list(l, h);
    if l.contains(h) {
    } else {
        assert(l1[l.len() as int] == h);
        assert(l1.contains(h));
        assert forall|i: int, j: int| 0 <= i < j < l1.len() implies l1[i] != l1[j] by {
            if j == l1.len() - 1 {
                if l1[i] == h {
                    assert(0 <= i < l.len() && l[i] == h);
                    assert(l.contains(h));
                }
            } else {
                assert(l1[i] == l[i] && l1[j] == l[j]);
            }
        }
    }
}

/// Adding the same handler twice to one key's list leaves the map exactly
/// as adding it once leaves it: the list's length and order are stable,
/// the first occurrence winning.
pub proof fn lemma_append_idempotent(s: Seq<EntryView>, k: Seq<char>, h: Seq<char>)
    requires
        wf_entries(s),
        valid_mime(k),
        valid_handler(h),
    ensures
        upsert_append(upsert_append(s, k, h), k, h) == upsert_append(s, k, h),
{
    let s1 = upsert_append(s, k, h);
    lemma_upsert_append_as_replace(s, k, h);
    lemma_assoc_find(s, k);
    match assoc_find(s, k) {
        Some(l) => {
            let w = choose|w: int|
                0 <= w < s.len() && (#[trigger] s[w]).key == k && s[w].handlers == l;
            assert(wf_handlers(l));
            let l1 = append_handler_list(l, h);
            lemma_append_list_wf(l, h);
            lemma_upsert_replace_props(s, k, l1);
            assert(s1 == upsert_replace(s, k, l1));
            lemma_upsert_append_as_replace(s1, k, h);
            assert(assoc_find(s1, k) == Some(l1));
            assert(append_handler_list(l1, h) == l1);
            lemma_replace_same(s1, k, l1);
        },
        None => {
            let l1 = seq![h];
            assert(l1[0] == h);
            assert(l1.contains(h));
            assert(wf_handlers(l1));
            lemma_upsert_replace_props(s, k, l1);
            assert(s1 == upsert_replace(s, k, l1));
            lemma_upsert_append_as_replace(s1, k, h);
            assert(assoc_find(s1, k) == Some(l1));
            assert(append_handler_list(l1, h) == l1);
            lemma_replace_same(s1, k, l1);
        },
    }
}

/// Peeling a strictly smaller prefix off an upsert.
pub proof fn lemma_upsert_peel(s: Seq<EntryView>, k: Seq<char>, hs: Seq<Seq<char>>, i: int)
    requires
        0 <= i <= s.len(),
        forall|j: int| 0 <= j < i ==> lex_lt((#[trigger] s[j]).key, k),
    ensures
        upsert_replace(s, k, hs) == s.subrange(0, i) + upsert_replace(
            s.subrange(i, s.len() as int),
            k,
            hs,
        ),
    decreases i,
{
    if i == 0 {
        assert(s.subrange(0, 0).len() == 0);
        assert(s.subrange(0, s.len() as int) =~= s);
        assert(upsert_replace(s, k, hs) =~= s.subrange(0, 0) + upsert_replace(s, k, hs));
    } else {
        let t = s.subrange(1, s.len() as int);
        assert(forall|j: int| 0 <= j < t.len() ==> #[trigger] t[j] == s[j + 1]);
        lemma_upsert_peel(t, k, hs, i - 1);
        assert(t.subrange(i - 1, t.len() as int) =~= s.subrange(i, s.len() as int));
        assert(t.subrange(0, i - 1) =~= s.subrange(1, i));
        assert(upsert_replace(s, k, hs) == seq![s[0]] + upsert_replace(t, k, hs));
        assert(seq![s[0]] + (s.subrange(1, i) + upsert_replace(s.subrange(i, s.len() as int), k, hs))
            =~= s.subrange(0, i) + upsert_replace(s.subrange(i, s.len() as int), k, hs));
    }
}

/// Peeling a non-matching prefix off a removal.
pub proof fn lemma_remove_peel(s: Seq<EntryView>, k: Seq<char>, i: int)
    requires
        0 <= i <= s.len(),
        forall|j: int| 0 <= j < i ==> (#[trigger] s[j]).key != k,
    ensures
        remove_key(s, k) == s.subrange(0, i) + remove_key(s.subrange(i, s.len() as int), k),
    decreases i,
{
    if i == 0 {
        assert(s.subrange(0, 0).len() == 0);
        assert(s.subrange(0, s.len() as int) =~= s);
        assert(remove_key(s, k) =~= s.subrange(0, 0) + remove_key(s, k));
    } else {
        let t = s.subrange(1, s.len() as int);
        assert(forall|j: int| 0 <= j < t.len() ==> #[trigger] t[j] == s[j + 1]);
        lemma_remove_peel(t, k, i - 1);
        assert(t.subrange(i - 1, t.len() as int) =~= s.subrange(i, s.len() as int));
        assert(t.subrange(0, i - 1) =~= s.subrange(1, i));
        assert(remove_key(s, k) == seq![s[0]] + remove_key(t, k));
        assert(seq![s[0]] + (s.subrange(1, i) + remove_key(s.subrange(i, s.len() as int), k)) =~= s
            .subrange(0, i) + remove_key(s.subrange(i, s.len() as int), k));
    }
}

} // verus!
