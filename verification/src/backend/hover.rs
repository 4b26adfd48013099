//! Hover text: the path of the identifier under the caret and a line for
//! each reference to it.

use crate::backend::goto_definition::candidates;
use crate::backend::{normalized, Backend};
use crate::text::{decimal, decimal_of, replace_char, texts_view};
use crate::xml_parser::{ident_at, IdentNode, RefNode, XmlParser};
use vstd::prelude::*;
use vstd::string::StringExecFns;

verus! {

/// A line that shows `path` and links to a line of a file.
pub open spec fn link_line(path: Seq<char>, file: Seq<char>, row: u32) -> Seq<char> {
    "["@ + path + "](file:///"@ + normalized(file) + "#"@ + decimal(row as nat) + ")\n"@
}

/// A line for each of the first `k` of `occurrences`: the path around the
/// occurrence, linked to the line it starts on.
pub open spec fn occurrence_lines(occurrences: Seq<RefNode>, k: int) -> Seq<char>
    decreases k,
{
    if k <= 0 {
        Seq::empty()
    } else {
        occurrence_lines(occurrences, k - 1) + link_line(
            occurrences[k - 1].path@,
            occurrences[k - 1].file@,
            occurrences[k - 1].start.row,
        )
    }
}

/// The lines for the occurrences in one file that name one of the first `k`
/// of `paths`.
pub open spec fn lines_in(file: XmlParser, paths: Seq<Seq<char>>, k: int) -> Seq<char>
    decreases k,
{
    if k <= 0 {
        Seq::empty()
    } else if file.refs@.contains_key(paths[k - 1]) {
        lines_in(file, paths, k - 1) + occurrence_lines(
            file.refs@[paths[k - 1]]@,
            file.refs@[paths[k - 1]]@.len() as int,
        )
    } else {
        lines_in(file, paths, k - 1)
    }
}

/// The lines for the occurrences in the first `n` files that name one of
/// `paths`.
pub open spec fn lines_upto(files: Seq<XmlParser>, paths: Seq<Seq<char>>, n: int) -> Seq<char>
    decreases n,
{
    if n <= 0 {
        Seq::empty()
    } else {
        lines_upto(files, paths, n - 1) + lines_in(files[n - 1], paths, paths.len() as int)
    }
}

/// The hover text of `ident`: its path, linked to the line it starts on,
/// then a heading and a line for each reference to the path or to an alias
/// form of it.
pub open spec fn hover_text(files: Seq<XmlParser>, ident: IdentNode) -> Seq<char> {
    "**PATH:** "@ + link_line(ident.path@, ident.node.file@, ident.node.start.row)
        + "### References\n"@ + lines_upto(
        files,
        candidates(ident.path@, files),
        files.len() as int,
    )
}

/// The text that a request at a line and column of `file` is answered
/// with: none where the file has no index or no identifier lies there.
pub open spec fn hover_at(backend: Backend, file: Seq<char>, line: u32, character: u32) -> Option<
    Seq<char>,
> {
    if backend.parsers@.contains_key(file) {
        match ident_at(backend.parsers@[file], line as int, character as int) {
            Some(ident) => Some(hover_text(backend.parsers.values(), ident)),
            None => None,
        }
    } else {
        None
    }
}

fn append_link(out: &mut String, path: &str, file: &str, row: u32)
    ensures
        final(out)@ == old(out)@ + link_line(path@, file@, row),
{
    let ghost before = out@;
    let shown = replace_char(file, '\\', '/');
    let number = decimal_of(row);
    out.append("[");
    out.append(path);
    out.append("](file:///");
    out.append(shown.as_str());
    out.append("#");
    out.append(number.as_str());
    out.append(")\n");
    proof {
        assert(out@ =~= before + link_line(path@, file@, row));
    }
}

/// Answers a request for the hover text at a line and column of `file`,
/// both counted from 0.
pub fn hover(backend: &Backend, file: &str, line: u32, character: u32) -> (text: Option<String>)
    ensures
        match text {
            Some(t) => hover_at(*backend, file@, line, character) == Some(t@),
            None => hover_at(*backend, file@, line, character) is None,
        },
{
    let parser = match backend.parsers.get(file) {
        Some(p) => p,
        None => {
            return None;
        },
    };
    let ident = match parser.get_ident_node_at(line as usize, character as usize) {
        Some(found) => found,
        None => {
            return None;
        },
    };
    let paths = backend.candidate_paths(ident.path.as_str());
    let ghost wanted = texts_view(paths@);
    let ghost files = backend.parsers.values();
    let mut out = String::from_str("**PATH:** ");
    append_link(&mut out, ident.path.as_str(), ident.node.file.as_str(), ident.node.start.row);
    out.append("### References\n");
    let ghost head = out@;
    let n = backend.parsers.len();
    let mut i: usize = 0;
    proof {
        assert(head + lines_upto(files, wanted, 0) =~= head);
    }
    while i < n
        invariant
            i <= n,
            n == files.len(),
            files == backend.parsers.values(),
            wanted == texts_view(paths@),
            out@ == head + lines_upto(files, wanted, i as int),
        decreases n - i,
    {
        let other = backend.parsers.value_at(i);
        let ghost done = out@;
        let mut k: usize = 0;
        proof {
            assert(done + lines_in(*other, wanted, 0) =~= done);
        }
        while k < paths.len()
            invariant
                k <= paths.len(),
                wanted == texts_view(paths@),
                out@ == done + lines_in(*other, wanted, k as int),
            decreases paths.len() - k,
        {
            let ghost so_far = out@;
            proof {
                assert(wanted[k as int] == paths@[k as int]@);
            }
            if let Some(list) = other.refs.get(paths[k].as_str()) {
                let mut j: usize = 0;
                proof {
                    assert(so_far + occurrence_lines(list@, 0) =~= so_far);
                }
                while j < list.len()
                    invariant
                        j <= list.len(),
                        out@ == so_far + occurrence_lines(list@, j as int),
                    decreases list.len() - j,
                {
                    let ghost inner = out@;
                    let occurrence = &list[j];
                    append_link(
                        &mut out,
                        occurrence.path.as_str(),
                        occurrence.file.as_str(),
                        occurrence.start.row,
                    );
                    proof {
                        assert(out@ =~= so_far + occurrence_lines(list@, j + 1));
                    }
                    j = j + 1;
                }
                proof {
                    assert(out@ =~= done + lines_in(*other, wanted, k + 1));
                }
            }
            k = k + 1;
        }
        proof {
            assert(out@ =~= head + lines_upto(files, wanted, i + 1));
        }
        i = i + 1;
    }
    proof {
        assert(out@ =~= hover_text(files, *ident));
    }
    Some(out)
}

} // verus!
