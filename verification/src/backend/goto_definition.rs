//! Definitions across files: the identifiers that a path names, directly or
//! through the vendor alias that a file declares.

use crate::backend::document_symbol::{stretch, stretch_of, Position, TextRange};
use crate::backend::Backend;
use crate::text::{byte_len, char_len, joined, starts_with, text_after, text_eq, texts_view};
use crate::xml_parser::{mapping_view, ref_text_at, IdentNode, XmlParser};
use vstd::prelude::*;
use vstd::utf8::encode_utf8;

verus! {

/// `path` with the module path of an alias in place of its overlay prefix,
/// where `path` begins with that prefix.
pub open spec fn rewritten(path: Seq<char>, mapping: (Seq<char>, Seq<char>)) -> Option<Seq<char>> {
    if mapping.0.is_prefix_of(path) {
        Some(mapping.1 + path.skip(mapping.0.len() as int))
    } else {
        None
    }
}

/// The paths to look up for `path` after the aliases of the first `n`
/// files: `path` itself, then what each alias makes of it, none twice.
pub open spec fn candidates_upto(path: Seq<char>, files: Seq<XmlParser>, n: int) -> Seq<Seq<char>>
    decreases n,
{
    if n <= 0 {
        seq![path]
    } else {
        let before = candidates_upto(path, files, n - 1);
        match mapping_view(files[n - 1].vendor_mapping) {
            Some(m) => match rewritten(path, m) {
                Some(r) => if before.contains(r) {
                    before
                } else {
                    before.push(r)
                },
                None => before,
            },
            None => before,
        }
    }
}

/// The paths to look up for `path`: `path` itself, then what the alias of
/// each file makes of it, in the order of the files and none twice.
pub open spec fn candidates(path: Seq<char>, files: Seq<XmlParser>) -> Seq<Seq<char>> {
    candidates_upto(path, files, files.len() as int)
}

/// Where an identifier is defined.
pub struct Definition {
    pub file: String,
    pub range: TextRange,
    pub selection_range: TextRange,
}

/// What a [`Definition`] stands for.
pub struct DefinitionView {
    pub file: Seq<char>,
    pub range: TextRange,
    pub selection_range: TextRange,
}

impl View for Definition {
    type V = DefinitionView;

    open spec fn view(&self) -> DefinitionView {
        DefinitionView {
            file: self.file@,
            range: self.range,
            selection_range: self.selection_range,
        }
    }
}

/// What a list of definitions stands for.
pub open spec fn definitions_view(list: Seq<Definition>) -> Seq<DefinitionView> {
    list.map_values(|d: Definition| d@)
}

/// Where `ident` is defined: its file, its element and its name.
pub open spec fn definition_of(ident: IdentNode) -> DefinitionView {
    DefinitionView {
        file: ident.node.file@,
        range: stretch(ident.node.start, ident.node.end),
        selection_range: stretch(ident.short_name_start, ident.short_name_end),
    }
}

/// The definitions that the first `k` of `paths` name in one file.
pub open spec fn hits_in(file: XmlParser, paths: Seq<Seq<char>>, k: int) -> Seq<DefinitionView>
    decreases k,
{
    if k <= 0 {
        Seq::empty()
    } else if file.ident_nodes@.contains_key(paths[k - 1]) {
        hits_in(file, paths, k - 1).push(definition_of(file.ident_nodes@[paths[k - 1]]))
    } else {
        hits_in(file, paths, k - 1)
    }
}

/// The definitions that `paths` name in the first `n` files.
pub open spec fn definitions_upto(files: Seq<XmlParser>, paths: Seq<Seq<char>>, n: int) -> Seq<
    DefinitionView,
>
    decreases n,
{
    if n <= 0 {
        Seq::empty()
    } else {
        definitions_upto(files, paths, n - 1) + hits_in(files[n - 1], paths, paths.len() as int)
    }
}

/// The definitions of `path` in `files`: for each file in order, the
/// identifier it holds under `path` and under each alias form of `path`.
pub open spec fn definitions(files: Seq<XmlParser>, path: Seq<char>) -> Seq<DefinitionView> {
    definitions_upto(files, candidates(path, files), files.len() as int)
}

fn holds_text(list: &Vec<String>, text: &str) -> (found: bool)
    ensures
        found == texts_view(list@).contains(text@),
{
    let mut k: usize = 0;
    while k < list.len()
        invariant
            k <= list.len(),
            forall|j: int| 0 <= j < k ==> texts_view(list@)[j] != text@,
        decreases list.len() - k,
    {
        if text_eq(list[k].as_str(), text) {
            assert(texts_view(list@)[k as int] == text@);
            return true;
        }
        k = k + 1;
    }
    false
}

/// `path` with the module path of the alias in place of its overlay prefix,
/// where `path` begins with that prefix.
pub fn rewrite(path: &str, overlay: &str, module: &str) -> (r: Option<String>)
    ensures
        match r {
            Some(p) => rewritten(path@, (overlay@, module@)) == Some(p@),
            None => rewritten(path@, (overlay@, module@)) is None,
        },
{
    if starts_with(path, overlay) {
        let rest = text_after(path, char_len(overlay));
        Some(joined(module, rest.as_str()))
    } else {
        None
    }
}

/// A stretch on one line that starts `caret` bytes before `character` and
/// is `len` bytes long, each end kept within 32 bits.
pub open spec fn origin_range(line: u32, character: u32, caret: int, len: int) -> TextRange {
    let start = if caret >= character {
        0
    } else {
        character - caret
    };
    let end = if start + len > u32::MAX {
        u32::MAX as int
    } else {
        start + len
    };
    TextRange {
        start: Position { line, character: start as u32 },
        end: Position { line, character: end as u32 },
    }
}

fn origin_range_of(line: u32, character: u32, caret: usize, len: usize) -> (range: TextRange)
    ensures
        range == origin_range(line, character, caret as int, len as int),
{
    let start: u32 = if caret >= character as usize {
        0
    } else {
        character - (caret as u32)
    };
    let end: u32 = if len > (0xffff_ffffu32 - start) as usize {
        0xffff_ffffu32
    } else {
        start + (len as u32)
    };
    TextRange { start: Position { line, character: start }, end: Position { line, character: end } }
}

/// A link from a reference to a definition of what it names.
pub struct LocationLink {
    pub origin_selection_range: TextRange,
    pub target_file: String,
    pub target_range: TextRange,
    pub target_selection_range: TextRange,
}

/// What a [`LocationLink`] stands for.
pub struct LocationLinkView {
    pub origin_selection_range: TextRange,
    pub target: DefinitionView,
}

impl View for LocationLink {
    type V = LocationLinkView;

    open spec fn view(&self) -> LocationLinkView {
        LocationLinkView {
            origin_selection_range: self.origin_selection_range,
            target: DefinitionView {
                file: self.target_file@,
                range: self.target_range,
                selection_range: self.target_selection_range,
            },
        }
    }
}

/// The links from one origin to each of `targets`.
pub open spec fn links_from(origin: TextRange, targets: Seq<DefinitionView>) -> Seq<
    LocationLinkView,
> {
    targets.map_values(|t: DefinitionView| LocationLinkView { origin_selection_range: origin, target: t })
}

/// What a list of links stands for.
pub open spec fn links_view(list: Seq<LocationLink>) -> Seq<LocationLinkView> {
    list.map_values(|l: LocationLink| l@)
}

/// The links that a request at a line and column of `file` is answered
/// with: none where the file has no index or no reference lies there, else
/// one to each definition of the path under the caret.
pub open spec fn definition_links(backend: Backend, file: Seq<char>, line: u32, character: u32) -> Option<
    Seq<LocationLinkView>,
> {
    if backend.parsers@.contains_key(file) {
        match ref_text_at(backend.parsers@[file], line as int, character as int) {
            Some((path, caret)) => Some(
                links_from(
                    origin_range(line, character, caret, encode_utf8(path).len() as int),
                    definitions(backend.parsers.values(), path),
                ),
            ),
            None => None,
        }
    } else {
        None
    }
}

impl Backend {
    /// The paths to look up for `path`: `path` itself, then what the alias
    /// of each file makes of it, none twice.
    pub fn candidate_paths(&self, path: &str) -> (paths: Vec<String>)
        ensures
            texts_view(paths@) == candidates(path@, self.parsers.values()),
    {
        let mut paths: Vec<String> = Vec::new();
        paths.push(String::from_str(path));
        let n = self.parsers.len();
        let ghost files = self.parsers.values();
        let mut i: usize = 0;
        proof {
            assert(texts_view(paths@) =~= seq![path@]);
        }
        while i < n
            invariant
                i <= n,
                n == files.len(),
                files == self.parsers.values(),
                texts_view(paths@) == candidates_upto(path@, files, i as int),
            decreases n - i,
        {
            let parser = self.parsers.value_at(i);
            let ghost before = texts_view(paths@);
            if let Some((overlay, module)) = &parser.vendor_mapping {
                if let Some(r) = rewrite(path, overlay.as_str(), module.as_str()) {
                    if !holds_text(&paths, r.as_str()) {
                        paths.push(r);
                        proof {
                            assert(texts_view(paths@) =~= before.push(r@));
                        }
                    }
                }
            }
            i = i + 1;
        }
        paths
    }

    /// The definitions of `path` in the workspace: for each file in order,
    /// the identifier it holds under `path` and under each alias form of
    /// `path`. A path that nothing defines has none.
    pub fn find_definition(&self, path: &str) -> (found: Vec<Definition>)
        ensures
            definitions_view(found@) == definitions(self.parsers.values(), path@),
    {
        let paths = self.candidate_paths(path);
        let ghost wanted = texts_view(paths@);
        let ghost files = self.parsers.values();
        let mut found: Vec<Definition> = Vec::new();
        let n = self.parsers.len();
        let mut i: usize = 0;
        proof {
            assert(definitions_view(found@) =~= definitions_upto(files, wanted, 0));
        }
        while i < n
            invariant
                i <= n,
                n == files.len(),
                files == self.parsers.values(),
                wanted == texts_view(paths@),
                definitions_view(found@) == definitions_upto(files, wanted, i as int),
            decreases n - i,
        {
            let parser = self.parsers.value_at(i);
            let ghost done = definitions_view(found@);
            let mut k: usize = 0;
            proof {
                assert(done + hits_in(*parser, wanted, 0) =~= done);
            }
            while k < paths.len()
                invariant
                    k <= paths.len(),
                    wanted == texts_view(paths@),
                    definitions_view(found@) == done + hits_in(*parser, wanted, k as int),
                decreases paths.len() - k,
            {
                let ghost so_far = definitions_view(found@);
                proof {
                    assert(wanted[k as int] == paths@[k as int]@);
                }
                if let Some(ident) = parser.ident_nodes.get(paths[k].as_str()) {
                    found.push(
                        Definition {
                            file: ident.node.file.clone(),
                            range: stretch_of(ident.node.start, ident.node.end),
                            selection_range: stretch_of(
                                ident.short_name_start,
                                ident.short_name_end,
                            ),
                        },
                    );
                    proof {
                        assert(definitions_view(found@) =~= so_far.push(definition_of(*ident)));
                        assert(done + hits_in(*parser, wanted, k + 1) =~= (done + hits_in(
                            *parser,
                            wanted,
                            k as int,
                        )).push(definition_of(*ident)));
                    }
                }
                k = k + 1;
            }
            i = i + 1;
        }
        found
    }
}

/// Answers a request for the definitions of what is written at a line and
/// column of `file`, both counted from 0.
pub fn goto_definition(backend: &Backend, file: &str, line: u32, character: u32) -> (links: Option<
    Vec<LocationLink>,
>)
    ensures
        match links {
            Some(list) => definition_links(*backend, file@, line, character) == Some(
                links_view(list@),
            ),
            None => definition_links(*backend, file@, line, character) is None,
        },
{
    let parser = match backend.parsers.get(file) {
        Some(p) => p,
        None => {
            return None;
        },
    };
    let (path, caret) = match parser.get_ref_text_at(line as usize, character as usize) {
        Some(found) => found,
        None => {
            return None;
        },
    };
    let origin = origin_range_of(line, character, caret, byte_len(path.as_str()));
    let targets = backend.find_definition(path.as_str());
    let mut links: Vec<LocationLink> = Vec::new();
    let mut k: usize = 0;
    while k < targets.len()
        invariant
            k <= targets.len(),
            links_view(links@) == links_from(origin, definitions_view(targets@).take(k as int)),
        decreases targets.len() - k,
    {
        let ghost before = links_view(links@);
        let target = &targets[k];
        links.push(
            LocationLink {
                origin_selection_range: origin,
                target_file: target.file.clone(),
                target_range: target.range,
                target_selection_range: target.selection_range,
            },
        );
        proof {
            assert(links_view(links@) =~= before.push(
                LocationLinkView { origin_selection_range: origin, target: target@ },
            ));
            assert(links_from(origin, definitions_view(targets@).take(k + 1)) =~= links_from(
                origin,
                definitions_view(targets@).take(k as int),
            ).push(LocationLinkView { origin_selection_range: origin, target: target@ }));
        }
        k = k + 1;
    }
    proof {
        assert(definitions_view(targets@).take(targets@.len() as int) =~= definitions_view(
            targets@,
        ));
    }
    Some(links)
}

} // verus!
