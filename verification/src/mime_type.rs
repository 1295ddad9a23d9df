//! A normalized `type/subtype` MIME string, with the subtype `*` standing
//! for a type-level wildcard.

use vstd::prelude::*;

use crate::Error;
use crate::text::chars_of;
use crate::text::find_char;
use crate::text::lemma_find_char;
use crate::text::lemma_find_char_at;
use crate::text::lemma_find_char_none;
use crate::text::string_from_chars;
use crate::text::subvec;

verus! {

/// Characters that may appear in a MIME string.  The set excludes
/// everything with structural meaning in the override file (newline, `=`,
/// `;`, brackets) and whitespace.
pub open spec fn allowed_mime_char(c: char) -> bool {
    c != '\n' && c != '\r' && c != '=' && c != ';' && c != '[' && c != ']' && c != ' ' && c != '\t'
}

/// A valid MIME string: exactly one `/`, with a nonempty type before it and
/// a nonempty subtype after it, all characters allowed.
pub open spec fn valid_mime(s: Seq<char>) -> bool {
    &&& s.len() >= 3
    &&& forall|i: int| 0 <= i < s.len() ==> allowed_mime_char(#[trigger] s[i])
    &&& 0 < find_char(s, '/') < s.len() - 1
    &&& forall|i: int| find_char(s, '/') < i < s.len() ==> #[trigger] s[i] != '/'
}

/// The position of the `/` in a valid MIME string.
pub open spec fn slash_pos(s: Seq<char>) -> int {
    find_char(s, '/')
}

/// The type-level wildcard of a MIME string: its type followed by `/*`.
pub open spec fn wildcard_of(s: Seq<char>) -> Seq<char> {
    s.subrange(0, slash_pos(s)) + seq!['/', '*']
}

/// A `type/subtype` MIME string.  Equality is exact, case-sensitive string
/// equality; resolution treats `type/*` as a wildcard key.
pub struct MimeType {
    pub text: String,
}

impl View for MimeType {
    type V = Seq<char>;

    open spec fn view(&self) -> Seq<char> {
        self.text@
    }
}

impl PartialEq for MimeType {
    fn eq(&self, other: &Self) -> (r: bool) {
        self.text == other.text
    }
}

impl vstd::std_specs::cmp::PartialEqSpecImpl for MimeType {
    open spec fn obeys_eq_spec() -> bool {
        true
    }

    open spec fn eq_spec(&self, other: &Self) -> bool {
        self.text@ == other.text@
    }
}

impl Eq for MimeType {

}

impl Clone for MimeType {
    fn clone(&self) -> (r: Self)
        ensures
            r@ == self@,
    {
        MimeType { text: self.text.clone() }
    }
}

impl MimeType {
    /// Whether the held text is a valid MIME string.
    pub open spec fn wf(self) -> bool {
        valid_mime(self@)
    }

    /// Parses `s` as a `type/subtype` MIME string; rejects exactly the
    /// strings that `valid_mime` excludes.
    pub fn parse(s: &str) -> (r: Result<MimeType, Error>)
        ensures
            match r {
                Ok(m) => m@ == s@ && valid_mime(s@),
                Err(e) => !valid_mime(s@) && (e matches Error::BadMime(t) && t@ == s@),
            },
    {
        let v = chars_of(s);
        let n = v.len();
        if n < 3 {
            return Err(Error::BadMime(s.to_owned()));
        }
        let mut i: usize = 0;
        let mut slash: usize = n;
        while i < n
            invariant
                i <= n,
                slash <= n,
                n == v@.len(),
                v@ == s@,
                forall|j: int| 0 <= j < i ==> allowed_mime_char(#[trigger] v@[j]),
                slash == n ==> forall|j: int| 0 <= j < i ==> v@[j] != '/',
                slash < n ==> slash < i && v@[slash as int] == '/' && (forall|j: int|
                    0 <= j < i && j != slash ==> v@[j] != '/'),
            decreases n - i,
        {
            let c = v[i];
            if c == '\n' || c == '\r' || c == '=' || c == ';' || c == '[' || c == ']' || c == ' '
                || c == '\t' {
                return Err(Error::BadMime(s.to_owned()));
            }
            if c == '/' {
                if slash < n {
                    proof {
                        assert(s@[i as int] == '/');
                        lemma_find_char_at(s@, '/', slash as int);
                        assert(!valid_mime(s@));
                    }
                    return Err(Error::BadMime(s.to_owned()));
                }
                slash = i;
            }
            proof {
                assert(v@[i as int] == c);
                if slash < n {
                    assert(slash <= i);
                    assert(v@[slash as int] == '/');
                    assert forall|j: int| 0 <= j < i + 1 && j != slash implies v@[j] != '/' by {}
                }
            }
            i += 1;
        }
        if slash == n {
            proof {
                lemma_find_char_none(s@, '/');
            }
            return Err(Error::BadMime(s.to_owned()));
        }
        proof {
            lemma_find_char_at(s@, '/', slash as int);
        }
        if slash == 0 || slash == n - 1 {
            return Err(Error::BadMime(s.to_owned()));
        }
        Ok(MimeType { text: s.to_owned() })
    }

    /// The `type/*` wildcard of this MIME type.
    pub fn wildcard(&self) -> (r: MimeType)
        requires
            self.wf(),
        ensures
            r@ == wildcard_of(self@),
            valid_mime(r@),
    {
        let v = chars_of(self.text.as_str());
        let ghost k = slash_pos(self@);
        proof {
            lemma_find_char(self@, '/');
        }
        let mut i: usize = 0;
        while i < v.len() && v[i] != '/'
            invariant
                i <= v@.len(),
                v@ == self@,
                self.wf(),
                forall|j: int| 0 <= j < i ==> v@[j] != '/',
            decreases v@.len() - i,
        {
            i += 1;
        }
        proof {
            assert(i < v@.len());
            lemma_find_char_at(self@, '/', i as int);
            assert(i as int == k);
        }
        let mut w = subvec(&v, 0, i);
        w.push('/');
        w.push('*');
        let r = MimeType { text: string_from_chars(&w) };
        proof {
            assert(w@ =~= wildcard_of(self@));
            let ws = wildcard_of(self@);
            assert forall|j: int| 0 <= j < k implies ws[j] == self@[j] by {}
            assert(ws[k] == '/' && ws[k + 1] == '*');
            assert forall|j: int| 0 <= j < k implies ws[j] != '/' by {}
            lemma_find_char_at(ws, '/', k);
            assert forall|j: int| 0 <= j < ws.len() implies allowed_mime_char(#[trigger] ws[j]) by {
                if j < k {
                    assert(ws[j] == self@[j]);
                }
            }
            assert(valid_mime(ws));
        }
        r
    }

    /// The MIME string as owned text.
    pub fn to_string(&self) -> (r: String)
        ensures
            r@ == self@,
    {
        self.text.clone()
    }
}

} // verus!
