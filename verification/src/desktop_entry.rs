//! The finished record of one installed application, as the surrounding
//! tooling hands it over after parsing a desktop-entry file.

use vstd::prelude::*;

use crate::handler::valid_handler;
use crate::mime_type::MimeType;
use crate::mime_type::valid_mime;

verus! {

/// The view of a desktop entry: plain character sequences.
pub struct DesktopEntryView {
    pub file_name: Seq<char>,
    pub name: Seq<char>,
    pub mimes: Seq<Seq<char>>,
    pub categories: Seq<Seq<char>>,
    pub exec_cmd: Seq<char>,
}

/// One installed application: its entry-file name, display name, declared
/// MIME types, categories, and launch template.
pub struct DesktopEntry {
    pub file_name: String,
    pub name: String,
    pub mimes: Vec<MimeType>,
    pub categories: Vec<String>,
    pub exec_cmd: String,
}

impl View for DesktopEntry {
    type V = DesktopEntryView;

    open spec fn view(&self) -> DesktopEntryView {
        DesktopEntryView {
            file_name: self.file_name@,
            name: self.name@,
            mimes: self.mimes@.map_values(|m: MimeType| m@),
            categories: self.categories@.map_values(|c: String| c@),
            exec_cmd: self.exec_cmd@,
        }
    }
}

impl DesktopEntry {
    /// A record fit for the registry: the file name can serve as a handler
    /// token and every declared MIME type is valid.
    pub open spec fn wf(self) -> bool {
        &&& valid_handler(self@.file_name)
        &&& forall|i: int| 0 <= i < self@.mimes.len() ==> valid_mime(#[trigger] self@.mimes[i])
    }
}

impl Clone for DesktopEntry {
    fn clone(&self) -> (r: Self)
        ensures
            r@ == self@,
    {
        let mut mimes: Vec<MimeType> = Vec::new();
        let mut i: usize = 0;
        while i < self.mimes.len()
            invariant
                i <= self.mimes@.len(),
                mimes@.len() == i,
                forall|j: int| 0 <= j < i ==> (#[trigger] mimes@[j])@ == self.mimes@[j]@,
            decreases self.mimes@.len() - i,
        {
            let m = self.mimes[i].clone();
            mimes.push(m);
            i += 1;
        }
        let mut categories: Vec<String> = Vec::new();
        let mut j: usize = 0;
        while j < self.categories.len()
            invariant
                j <= self.categories@.len(),
                categories@.len() == j,
                forall|l: int| 0 <= l < j ==> (#[trigger] categories@[l])@ == self.categories@[l]@,
            decreases self.categories@.len() - j,
        {
            let c = self.categories[j].clone();
            categories.push(c);
            j += 1;
        }
        let r = DesktopEntry {
            file_name: self.file_name.clone(),
            name: self.name.clone(),
            mimes,
            categories,
            exec_cmd: self.exec_cmd.clone(),
        };
        proof {
            assert(r@.mimes =~= self@.mimes);
            assert(r@.categories =~= self@.categories);
        }
        r
    }
}

} // verus!
