//! References across files: the occurrences that name a path, directly or
//! in an alias form of it.

use crate::backend::document_symbol::{stretch, stretch_of, TextRange};
use crate::backend::goto_definition::candidates;
use crate::backend::Backend;
use crate::text::texts_view;
use crate::xml_parser::{ident_at, RefNode, XmlParser};
use vstd::prelude::*;

verus! {

/// Where a reference is written.
pub struct ReferenceLocation {
    pub file: String,
    pub range: TextRange,
    pub text_range: TextRange,
}

/// What a [`ReferenceLocation`] stands for.
pub struct ReferenceLocationView {
    pub file: Seq<char>,
    pub range: TextRange,
    pub text_range: TextRange,
}

impl View for ReferenceLocation {
    type V = ReferenceLocationView;

    open spec fn view(&self) -> ReferenceLocationView {
        ReferenceLocationView { file: self.file@, range: self.range, text_range: self.text_range }
    }
}

/// What a list of locations stands for.
pub open spec fn locations_view(list: Seq<ReferenceLocation>) -> Seq<ReferenceLocationView> {
    list.map_values(|l: ReferenceLocation| l@)
}

/// Where `occurrence` is written: its file, its element and its text.
pub open spec fn location_of(occurrence: RefNode) -> ReferenceLocationView {
    ReferenceLocationView {
        file: occurrence.file@,
        range: stretch(occurrence.start, occurrence.end),
        text_range: stretch(occurrence.text_start, occurrence.text_end),
    }
}

/// Where each of `occurrences` is written.
pub open spec fn locations_of(occurrences: Seq<RefNode>) -> Seq<ReferenceLocationView> {
    occurrences.map_values(|r: RefNode| location_of(r))
}

/// The occurrences in one file that name one of the first `k` of `paths`.
pub open spec fn occurrences_in(file: XmlParser, paths: Seq<Seq<char>>, k: int) -> Seq<
    ReferenceLocationView,
>
    decreases k,
{
    if k <= 0 {
        Seq::empty()
    } else if file.refs@.contains_key(paths[k - 1]) {
        occurrences_in(file, paths, k - 1) + locations_of(file.refs@[paths[k - 1]]@)
    } else {
        occurrences_in(file, paths, k - 1)
    }
}

/// The occurrences in the first `n` files that name one of `paths`.
pub open spec fn references_upto(files: Seq<XmlParser>, paths: Seq<Seq<char>>, n: int) -> Seq<
    ReferenceLocationView,
>
    decreases n,
{
    if n <= 0 {
        Seq::empty()
    } else {
        references_upto(files, paths, n - 1) + occurrences_in(
            files[n - 1],
            paths,
            paths.len() as int,
        )
    }
}

/// The references to `path` in `files`: for each file in order, the
/// occurrences that name `path` and those that name an alias form of it.
pub open spec fn references_to(files: Seq<XmlParser>, path: Seq<char>) -> Seq<
    ReferenceLocationView,
> {
    references_upto(files, candidates(path, files), files.len() as int)
}

/// The locations that a request at a line and column of `file` is
/// answered with: none where the file has no index or no identifier lies
/// there, else the references to that identifier's path.
pub open spec fn reference_locations(
    backend: Backend,
    file: Seq<char>,
    line: u32,
    character: u32,
) -> Option<Seq<ReferenceLocationView>> {
    if backend.parsers@.contains_key(file) {
        match ident_at(backend.parsers@[file], line as int, character as int) {
            Some(ident) => Some(references_to(backend.parsers.values(), ident.path@)),
            None => None,
        }
    } else {
        None
    }
}

impl Backend {
    /// The references to `path` in the workspace: for each file in order,
    /// the occurrences that name `path` and those that name an alias form
    /// of it. A path that nothing refers to has none.
    pub fn find_references(&self, path: &str) -> (found: Vec<ReferenceLocation>)
        ensures
            locations_view(found@) == references_to(self.parsers.values(), path@),
    {
        let paths = self.candidate_paths(path);
        let ghost wanted = texts_view(paths@);
        let ghost files = self.parsers.values();
        let mut found: Vec<ReferenceLocation> = Vec::new();
        let n = self.parsers.len();
        let mut i: usize = 0;
        proof {
            assert(locations_view(found@) =~= references_upto(files, wanted, 0));
        }
        while i < n
            invariant
                i <= n,
                n == files.len(),
                files == self.parsers.values(),
                wanted == texts_view(paths@),
                locations_view(found@) == references_upto(files, wanted, i as int),
            decreases n - i,
        {
            let parser = self.parsers.value_at(i);
            let ghost done = locations_view(found@);
            let mut k: usize = 0;
            proof {
                assert(done + occurrences_in(*parser, wanted, 0) =~= done);
            }
            while k < paths.len()
                invariant
                    k <= paths.len(),
                    wanted == texts_view(paths@),
                    locations_view(found@) == done + occurrences_in(*parser, wanted, k as int),
                decreases paths.len() - k,
            {
                let ghost so_far = locations_view(found@);
                proof {
                    assert(wanted[k as int] == paths@[k as int]@);
                }
                if let Some(list) = parser.refs.get(paths[k].as_str()) {
                    let mut j: usize = 0;
                    proof {
                        assert(so_far + locations_of(list@.take(0)) =~= so_far);
                    }
                    while j < list.len()
                        invariant
                            j <= list.len(),
                            locations_view(found@) == so_far + locations_of(list@.take(j as int)),
                        decreases list.len() - j,
                    {
                        let ghost inner = locations_view(found@);
                        let occurrence = &list[j];
                        found.push(
                            ReferenceLocation {
                                file: occurrence.file.clone(),
                                range: stretch_of(occurrence.start, occurrence.end),
                                text_range: stretch_of(
                                    occurrence.text_start,
                                    occurrence.text_end,
                                ),
                            },
                        );
                        proof {
                            assert(locations_view(found@) =~= inner.push(
                                location_of(*occurrence),
                            ));
                            assert(locations_of(list@.take(j + 1)) =~= locations_of(
                                list@.take(j as int),
                            ).push(location_of(*occurrence)));
                        }
                        j = j + 1;
                    }
                    proof {
                        assert(list@.take(list@.len() as int) =~= list@);
                        assert(done + occurrences_in(*parser, wanted, k + 1) =~= (done
                            + occurrences_in(*parser, wanted, k as int)) + locations_of(list@));
                    }
                }
                k = k + 1;
            }
            i = i + 1;
        }
        found
    }
}

/// Answers a request for the references to the identifier at a line and
/// column of `file`, both counted from 0.
pub fn references(backend: &Backend, file: &str, line: u32, character: u32) -> (found: Option<
    Vec<ReferenceLocation>,
>)
    ensures
        match found {
            Some(list) => reference_locations(*backend, file@, line, character) == Some(
                locations_view(list@),
            ),
            None => reference_locations(*backend, file@, line, character) is None,
        },
{
    let parser = match backend.parsers.get(file) {
        Some(p) => p,
        None => {
            return None;
        },
    };
    match parser.get_ident_node_at(line as usize, character as usize) {
        Some(ident) => Some(backend.find_references(ident.path.as_str())),
        None => None,
    }
}

} // verus!
