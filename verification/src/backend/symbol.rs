//! Symbol search: the identifiers of the workspace whose short name begins
//! with what was asked for, whatever the case of its letters.

use crate::backend::document_symbol::{stretch, stretch_of, TextRange};
use crate::backend::Backend;
use crate::text::{lowercase, starts_with, to_lowercase};
use crate::xml_parser::{IdentNode, SymbolKind, XmlParser};
use vstd::prelude::*;

verus! {

/// A search is answered with no more symbols than this.
pub const MAX_SYMBOLS: usize = 10000;

/// An identifier found by a search.
pub struct SymbolInformation {
    pub name: String,
    pub kind: SymbolKind,
    pub file: String,
    pub range: TextRange,
    pub container_name: String,
}

/// What a [`SymbolInformation`] stands for.
pub struct SymbolInformationView {
    pub name: Seq<char>,
    pub kind: SymbolKind,
    pub file: Seq<char>,
    pub range: TextRange,
    pub container_name: Seq<char>,
}

impl View for SymbolInformation {
    type V = SymbolInformationView;

    open spec fn view(&self) -> SymbolInformationView {
        SymbolInformationView {
            name: self.name@,
            kind: self.kind,
            file: self.file@,
            range: self.range,
            container_name: self.container_name@,
        }
    }
}

/// What a list of symbols stands for.
pub open spec fn symbols_view(list: Seq<SymbolInformation>) -> Seq<SymbolInformationView> {
    list.map_values(|s: SymbolInformation| s@)
}

/// Whether the short name of `ident` begins with `query`, both taken in
/// lower case.
pub open spec fn answers(ident: IdentNode, query: Seq<char>) -> bool {
    lowercase(query).is_prefix_of(lowercase(ident.short_name@))
}

/// The symbol that stands for `ident`: its short name, its file and
/// element, and its path as the container.
pub open spec fn symbol_of(ident: IdentNode) -> SymbolInformationView {
    SymbolInformationView {
        name: ident.short_name@,
        kind: SymbolKind::Object,
        file: ident.node.file@,
        range: stretch(ident.node.start, ident.node.end),
        container_name: ident.path@,
    }
}

/// The symbols of those among the first `k` of `idents` that answer
/// `query`, in order.
pub open spec fn answers_in(idents: Seq<IdentNode>, query: Seq<char>, k: int) -> Seq<
    SymbolInformationView,
>
    decreases k,
{
    if k <= 0 {
        Seq::empty()
    } else if answers(idents[k - 1], query) {
        answers_in(idents, query, k - 1).push(symbol_of(idents[k - 1]))
    } else {
        answers_in(idents, query, k - 1)
    }
}

/// The symbols of the identifiers of the first `n` files that answer
/// `query`, file by file and in path order within each.
pub open spec fn answers_upto(files: Seq<XmlParser>, query: Seq<char>, n: int) -> Seq<
    SymbolInformationView,
>
    decreases n,
{
    if n <= 0 {
        Seq::empty()
    } else {
        answers_upto(files, query, n - 1) + answers_in(
            files[n - 1].ident_nodes.values(),
            query,
            files[n - 1].ident_nodes.values().len() as int,
        )
    }
}

/// What a search for `query` finds in `files`: nothing for an empty
/// query, else the first [`MAX_SYMBOLS`] of the identifiers that answer it.
pub open spec fn symbols_found(files: Seq<XmlParser>, query: Seq<char>) -> Seq<
    SymbolInformationView,
> {
    if query.len() == 0 {
        Seq::empty()
    } else {
        let all = answers_upto(files, query, files.len() as int);
        if all.len() > MAX_SYMBOLS {
            all.take(MAX_SYMBOLS as int)
        } else {
            all
        }
    }
}

/// Answers a search for the identifiers whose short name begins with
/// `query`, whatever the case of the letters. An empty query finds nothing,
/// and no more than [`MAX_SYMBOLS`] symbols are handed out: as many as
/// answer the query where they are fewer.
pub fn symbol(backend: &Backend, query: &str) -> (found: Vec<SymbolInformation>)
    ensures
        symbols_view(found@) == symbols_found(backend.parsers.values(), query@),
        query@.len() == 0 ==> found@.len() == 0,
        query@.len() > 0 ==> found@.len() == if answers_upto(
            backend.parsers.values(),
            query@,
            backend.parsers.values().len() as int,
        ).len() > MAX_SYMBOLS {
            MAX_SYMBOLS as int
        } else {
            answers_upto(
                backend.parsers.values(),
                query@,
                backend.parsers.values().len() as int,
            ).len() as int
        },
{
    let mut found: Vec<SymbolInformation> = Vec::new();
    if query.is_empty() {
        proof {
            assert(symbols_view(found@) =~= Seq::<SymbolInformationView>::empty());
        }
        return found;
    }
    let wanted = to_lowercase(query);
    let ghost files = backend.parsers.values();
    let n = backend.parsers.len();
    let mut i: usize = 0;
    proof {
        assert(symbols_view(found@) =~= answers_upto(files, query@, 0));
    }
    while i < n
        invariant
            i <= n,
            n == files.len(),
            files == backend.parsers.values(),
            wanted@ == lowercase(query@),
            symbols_view(found@) == answers_upto(files, query@, i as int),
        decreases n - i,
    {
        let parser = backend.parsers.value_at(i);
        let ghost done = symbols_view(found@);
        let ghost idents = parser.ident_nodes.values();
        let m = parser.ident_nodes.len();
        let mut k: usize = 0;
        proof {
            assert(done + answers_in(idents, query@, 0) =~= done);
        }
        while k < m
            invariant
                k <= m,
                m == idents.len(),
                idents == parser.ident_nodes.values(),
                wanted@ == lowercase(query@),
                symbols_view(found@) == done + answers_in(idents, query@, k as int),
            decreases m - k,
        {
            let ghost so_far = symbols_view(found@);
            let ident = parser.ident_nodes.value_at(k);
            let name = to_lowercase(ident.short_name.as_str());
            if starts_with(name.as_str(), wanted.as_str()) {
                found.push(
                    SymbolInformation {
                        name: ident.short_name.clone(),
                        kind: SymbolKind::Object,
                        file: ident.node.file.clone(),
                        range: stretch_of(ident.node.start, ident.node.end),
                        container_name: ident.path.clone(),
                    },
                );
                proof {
                    assert(symbols_view(found@) =~= so_far.push(symbol_of(*ident)));
                    assert(done + answers_in(idents, query@, k + 1) =~= (done + answers_in(
                        idents,
                        query@,
                        k as int,
                    )).push(symbol_of(*ident)));
                }
            }
            k = k + 1;
        }
        i = i + 1;
    }
    let ghost all = symbols_view(found@);
    if found.len() > MAX_SYMBOLS {
        found.truncate(MAX_SYMBOLS);
        proof {
            assert(symbols_view(found@) =~= all.take(MAX_SYMBOLS as int));
        }
    }
    found
}

} // verus!
