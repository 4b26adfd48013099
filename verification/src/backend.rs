//! The workspace: one index per file, the rules by which a file's index is
//! made, replaced and dropped, and the lookups that read the indices.

pub mod document_symbol;
pub mod goto_definition;
pub mod hover;
pub mod init;
pub mod references;
pub mod symbol;

use crate::path_map::PathMap;
use crate::text::{chars_of, replace_char, replaced, starts_with, texts_view};
use crate::xml_parser::{empty_index, with_lines, XmlParser, XmlParserView};
use crate::xml_tree::{kept_nodes, parsed_nodes, ParseError};
use vstd::prelude::*;

verus! {

#[verifier::external_type_specification]
#[verifier::external_body]
pub struct ExRegexSet(regex::RegexSet);

#[verifier::external_type_specification]
#[verifier::external_body]
pub struct ExRegexError(regex::Error);

/// The patterns that a set of regular expressions was made of, in order.
pub uninterp spec fn set_patterns(set: regex::RegexSet) -> Seq<Seq<char>>;

/// Whether one of the regular expressions `patterns` matches somewhere in
/// `text`.
pub uninterp spec fn any_matches(patterns: Seq<Seq<char>>, text: Seq<char>) -> bool;

/// Whether the regular expressions `patterns` compile into one set.
pub uninterp spec fn patterns_compile(patterns: Seq<Seq<char>>) -> bool;

/// `regex::RegexSet::new`: whether the patterns compile depends on the
/// patterns alone and is named [`patterns_compile`]; where they do, the set
/// is made of exactly them. A list without patterns always compiles: the
/// crate builds its own empty set, `RegexSet::empty`, in that way and
/// unwraps the result.
#[verifier::external_body]
fn compile_patterns(patterns: &Vec<String>) -> (made: Result<regex::RegexSet, regex::Error>)
    ensures
        made is Ok <==> patterns_compile(texts_view(patterns@)),
        made matches Ok(set) ==> set_patterns(set) == texts_view(patterns@),
        patterns@.len() == 0 ==> made is Ok,
{
    regex::RegexSet::new(patterns)
}

/// `regex::RegexSet::is_match`: whether any pattern of the set matches
/// somewhere in the text. For a set that `RegexSet::new` made, the only kind
/// this library makes, that depends on the patterns and the text alone and
/// is named [`any_matches`].
#[verifier::external_body]
fn matches_any(set: &regex::RegexSet, text: &str) -> (found: bool)
    ensures
        found == any_matches(set_patterns(*set), text@),
{
    set.is_match(text)
}

/// The `Display` text of a `regex::Error`.
#[verifier::external_body]
fn pattern_error_text(error: &regex::Error) -> (text: String) {
    error.to_string()
}

/// What the client has configured: the patterns of files to ignore.
pub struct ClientConfig {
    ignore_regex_set: regex::RegexSet,
}

/// Why a configuration was refused.
pub enum ConfigError {
    /// An ignore pattern is no regular expression that can be compiled.
    BadPattern(String),
}

impl ClientConfig {
    /// The ignore patterns, in the order configured.
    pub closed spec fn patterns(self) -> Seq<Seq<char>> {
        set_patterns(self.ignore_regex_set)
    }

    /// The configuration for a compiled set, or the error in place of one.
    fn from_compiled(made: Result<regex::RegexSet, String>) -> (config: Result<
        ClientConfig,
        ConfigError,
    >)
        ensures
            match config {
                Ok(c) => made matches Ok(set) && c.patterns() == set_patterns(set),
                Err(ConfigError::BadPattern(m)) => made == Err::<regex::RegexSet, String>(m),
            },
    {
        match made {
            Ok(set) => Ok(ClientConfig { ignore_regex_set: set }),
            Err(m) => Err(ConfigError::BadPattern(m)),
        }
    }

    /// The configuration with the given ignore patterns. It is made
    /// exactly where the patterns compile, which a list without patterns
    /// always does.
    pub fn new(ignore_patterns: &Vec<String>) -> (config: Result<ClientConfig, ConfigError>)
        ensures
            config is Ok <==> patterns_compile(texts_view(ignore_patterns@)),
            config matches Ok(c) ==> c.patterns() == texts_view(ignore_patterns@),
            ignore_patterns@.len() == 0 ==> config is Ok,
    {
        match compile_patterns(ignore_patterns) {
            Ok(set) => ClientConfig::from_compiled(Ok(set)),
            Err(e) => ClientConfig::from_compiled(Err(pattern_error_text(&e))),
        }
    }

    /// Whether a pattern matches the normalized path.
    pub fn ignores(&self, normalized_path: &str) -> (r: bool)
        ensures
            r == any_matches(self.patterns(), normalized_path@),
    {
        matches_any(&self.ignore_regex_set, normalized_path)
    }
}

/// A path with forward slashes only.
pub open spec fn normalized(path: Seq<char>) -> Seq<char> {
    replaced(path, '\\', '/')
}

/// Whether the normalized path `file` lies under the normalized path
/// `root`: `root` begins it and ends where a component of `file` ends. Every
/// path lies under the empty root.
pub open spec fn lies_under(file: Seq<char>, root: Seq<char>) -> bool {
    root.len() == 0 || (root.is_prefix_of(file) && (file.len() == root.len() || root.last() == '/'
        || file[root.len() as int] == '/'))
}

/// Whether `file` lies under one of `roots`.
pub open spec fn under_a_root(roots: Seq<Seq<char>>, file: Seq<char>) -> bool {
    exists|k: int| 0 <= k < roots.len() && lies_under(normalized(file), normalized(#[trigger] roots[k]))
}

/// Whether `file` belongs to the workspace: it lies under a root, and no
/// ignore pattern matches its normalized path.
pub open spec fn is_member(
    roots: Seq<Seq<char>>,
    patterns: Option<Seq<Seq<char>>>,
    file: Seq<char>,
) -> bool {
    under_a_root(roots, file) && match patterns {
        Some(p) => !any_matches(p, normalized(file)),
        None => true,
    }
}

/// The members of the workspace among the first `n` of `files`, in order.
pub open spec fn members_upto(
    roots: Seq<Seq<char>>,
    patterns: Option<Seq<Seq<char>>>,
    files: Seq<Seq<char>>,
    n: int,
) -> Seq<Seq<char>>
    decreases n,
{
    if n <= 0 {
        Seq::empty()
    } else if is_member(roots, patterns, files[n - 1]) {
        members_upto(roots, patterns, files, n - 1).push(files[n - 1])
    } else {
        members_upto(roots, patterns, files, n - 1)
    }
}

/// Whether the normalized path `file` lies under the normalized path `root`.
pub fn lies_under_root(file: &str, root: &str) -> (r: bool)
    ensures
        r == lies_under(file@, root@),
{
    let f = chars_of(file);
    let r = chars_of(root);
    if r.len() == 0 {
        return true;
    }
    if !starts_with(file, root) {
        return false;
    }
    f.len() == r.len() || r[r.len() - 1] == '/' || f[r.len()] == '/'
}

/// What the index of a file comes to: the index that the document of
/// `content` leaves in an empty one, or nothing where `content` is no
/// well-formed document.
pub open spec fn parse_outcome(file: Seq<char>, is_ws_file: bool, content: Seq<char>) -> Option<
    XmlParserView,
> {
    match parsed_nodes(content) {
        Some(nodes) => Some(
            with_lines(empty_index(file, is_ws_file), content).indexed(kept_nodes(nodes)),
        ),
        None => None,
    }
}

/// The index of the file `file` with the text `content`.
pub fn create_parser_sync(file: &str, is_ws_file: bool, content: &str) -> (made: Result<
    XmlParser,
    ParseError,
>)
    ensures
        match made {
            Ok(parser) => parse_outcome(file@, is_ws_file, content@) == Some(parser@),
            Err(e) => e is Malformed && parse_outcome(file@, is_ws_file, content@) is None,
        },
{
    let mut parser = XmlParser::new(file, is_ws_file);
    match parser.parse(content) {
        Ok(()) => Ok(parser),
        Err(e) => Err(e),
    }
}

/// What is to be done for a file after an event.
#[derive(Clone, Copy, Debug, PartialEq, Eq, Structural)]
pub enum Action {
    /// Nothing.
    Nothing,
    /// Read the file from disk and index what was read.
    ReadAndParse,
    /// Index the text that came with the event.
    ParseText,
}

/// The workspace: roots, configuration and one index per file.
pub struct Backend {
    /// The index of each file, by file name.
    pub parsers: PathMap<XmlParser>,
    /// The roots of the workspace.
    pub ws_folder: Vec<String>,
    /// What the client has configured, once it has.
    pub config: Option<ClientConfig>,
}

/// What a map of indices stands for.
pub open spec fn parsers_view(parsers: Map<Seq<char>, XmlParser>) -> Map<Seq<char>, XmlParserView> {
    parsers.map_values(|p: XmlParser| p@)
}

/// The cache after the outcome of parsing `file` is stored: a new index
/// takes the place of the old one, and a failure leaves none.
pub open spec fn stored<V>(cache: Map<Seq<char>, V>, file: Seq<char>, outcome: Option<V>) -> Map<
    Seq<char>,
    V,
> {
    match outcome {
        Some(index) => cache.insert(file, index),
        None => cache.remove(file),
    }
}

/// The cache after the outcomes `results` of a scan are stored one after
/// another. A scan follows the rule of every update: a new index takes the
/// place of the old one, and a failure leaves the file without one.
pub open spec fn merged<V>(cache: Map<Seq<char>, V>, results: Seq<(Seq<char>, Option<V>)>) -> Map<
    Seq<char>,
    V,
>
    decreases results.len(),
{
    if results.len() == 0 {
        cache
    } else {
        stored(merged(cache, results.drop_last()), results.last().0, results.last().1)
    }
}

/// No file occurs twice among the results.
pub open spec fn distinct_files<V>(results: Seq<(Seq<char>, Option<V>)>) -> bool {
    forall|i: int, j: int|
        0 <= i < results.len() && 0 <= j < results.len() && results[i].0 == results[j].0 ==> i
            == j
}

/// Whether `file` is one of the files of the results.
pub open spec fn mentions<V>(results: Seq<(Seq<char>, Option<V>)>, file: Seq<char>) -> bool {
    exists|i: int| 0 <= i < results.len() && (#[trigger] results[i]).0 == file
}

/// After the outcomes of distinct files are stored, each file that was
/// indexed has its new index, each that failed has none, and every other
/// file is as it was.
pub proof fn lemma_merged<V>(cache: Map<Seq<char>, V>, results: Seq<(Seq<char>, Option<V>)>)
    requires
        distinct_files(results),
    ensures
        forall|i: int|
            0 <= i < results.len() ==> (match (#[trigger] results[i]).1 {
                Some(index) => merged(cache, results).contains_key(results[i].0) && merged(
                    cache,
                    results,
                )[results[i].0] == index,
                None => !merged(cache, results).contains_key(results[i].0),
            }),
        forall|k: Seq<char>|
            !mentions(results, k) ==> (#[trigger] merged(cache, results).contains_key(k)
                <==> cache.contains_key(k)) && (cache.contains_key(k) ==> merged(cache, results)[k]
                == cache[k]),
    decreases results.len(),
{
    if results.len() > 0 {
        let rest = results.drop_last();
        let last = results.len() - 1;
        assert(distinct_files(rest)) by {
            assert forall|i: int, j: int|
                0 <= i < rest.len() && 0 <= j < rest.len() && rest[i].0 == rest[j].0 implies i
                == j by {
                assert(rest[i] == results[i]);
                assert(rest[j] == results[j]);
            }
        }
        lemma_merged(cache, rest);
        assert forall|i: int| 0 <= i < results.len() implies (match (#[trigger] results[i]).1 {
            Some(index) => merged(cache, results).contains_key(results[i].0) && merged(
                cache,
                results,
            )[results[i].0] == index,
            None => !merged(cache, results).contains_key(results[i].0),
        }) by {
            if i < last {
                assert(rest[i] == results[i]);
                assert(results[i].0 != results[last].0);
            }
        }
        assert forall|k: Seq<char>| !mentions(results, k) implies (#[trigger] merged(
            cache,
            results,
        ).contains_key(k) <==> cache.contains_key(k)) && (cache.contains_key(k) ==> merged(
            cache,
            results,
        )[k] == cache[k]) by {
            if results[last].0 == k {
                assert(mentions(results, k));
            }
            assert(!mentions(rest, k)) by {
                if mentions(rest, k) {
                    let i = choose|i: int| 0 <= i < rest.len() && (#[trigger] rest[i]).0 == k;
                    assert(results[i].0 == k);
                }
            }
            assert(merged(cache, rest).contains_key(k) <==> cache.contains_key(k));
        }
    }
}

/// The cache that a scan leaves does not depend on the order in which the
/// files were finished: two runs that store the same outcomes of the same
/// distinct files, in whatever order, leave the same cache.
pub proof fn lemma_merge_order_independent<V>(
    cache: Map<Seq<char>, V>,
    first: Seq<(Seq<char>, Option<V>)>,
    second: Seq<(Seq<char>, Option<V>)>,
)
    requires
        distinct_files(first),
        distinct_files(second),
        forall|i: int| 0 <= i < first.len() ==> second.contains(#[trigger] first[i]),
        forall|i: int| 0 <= i < second.len() ==> first.contains(#[trigger] second[i]),
    ensures
        merged(cache, first) == merged(cache, second),
{
    lemma_merged(cache, first);
    lemma_merged(cache, second);
    let a = merged(cache, first);
    let b = merged(cache, second);
    assert forall|k: Seq<char>| a.contains_key(k) == b.contains_key(k) && (a.contains_key(k)
        ==> a[k] == b[k]) by {
        if mentions(first, k) {
            let i = choose|i: int| 0 <= i < first.len() && (#[trigger] first[i]).0 == k;
            assert(second.contains(first[i]));
            let j = choose|j: int| 0 <= j < second.len() && second[j] == first[i];
            assert(second[j].0 == k);
            assert(second[j].1 == first[i].1);
        } else {
            if mentions(second, k) {
                let j = choose|j: int| 0 <= j < second.len() && (#[trigger] second[j]).0 == k;
                assert(first.contains(second[j]));
                let i = choose|i: int| 0 <= i < first.len() && first[i] == second[j];
                assert(first[i].0 == k);
            }
            assert(a.contains_key(k) <==> cache.contains_key(k));
            assert(b.contains_key(k) <==> cache.contains_key(k));
        }
    }
    assert(a =~= b);
}

/// Two indices made of the same file with the same text hold the same
/// identifiers, references, alias and diagnostics.
pub proof fn lemma_same_text_same_index(
    file: Seq<char>,
    is_ws_file: bool,
    content: Seq<char>,
    first: XmlParserView,
    second: XmlParserView,
)
    requires
        parse_outcome(file, is_ws_file, content) == Some(first),
        parse_outcome(file, is_ws_file, content) == Some(second),
    ensures
        first.ident_nodes == second.ident_nodes,
        first.refs == second.refs,
        first == second,
{
}

/// Indexing an unchanged file again changes nothing: the cache after its
/// outcome is stored twice is the cache after it is stored once.
pub proof fn lemma_reparse_idempotent(
    cache: Map<Seq<char>, XmlParserView>,
    file: Seq<char>,
    is_ws_file: bool,
    content: Seq<char>,
)
    ensures
        stored(
            stored(cache, file, parse_outcome(file, is_ws_file, content)),
            file,
            parse_outcome(file, is_ws_file, content),
        ) == stored(cache, file, parse_outcome(file, is_ws_file, content)),
{
    let outcome = parse_outcome(file, is_ws_file, content);
    assert(stored(stored(cache, file, outcome), file, outcome) =~= stored(cache, file, outcome));
}

impl Backend {
    /// A workspace without roots, configuration or files.
    pub fn new() -> (backend: Backend)
        ensures
            backend.parsers@ == Map::<Seq<char>, XmlParser>::empty(),
            backend.ws_folder@ == Seq::<String>::empty(),
            backend.config is None,
    {
        Backend { parsers: PathMap::new(), ws_folder: Vec::new(), config: None }
    }

    /// The ignore patterns configured, if any are.
    pub open spec fn patterns(self) -> Option<Seq<Seq<char>>> {
        match self.config {
            Some(c) => Some(c.patterns()),
            None => None,
        }
    }

    /// Whether the normalized path `path` lies under one of the roots.
    fn under_root(&self, file: &str, path: &str) -> (under: bool)
        requires
            path@ == normalized(file@),
        ensures
            under == under_a_root(texts_view(self.ws_folder@), file@),
    {
        let ghost roots = texts_view(self.ws_folder@);
        let mut k: usize = 0;
        while k < self.ws_folder.len()
            invariant
                k <= self.ws_folder.len(),
                roots == texts_view(self.ws_folder@),
                path@ == normalized(file@),
                forall|j: int|
                    0 <= j < k ==> !lies_under(normalized(file@), normalized(#[trigger] roots[j])),
            decreases self.ws_folder.len() - k,
        {
            let root = replace_char(self.ws_folder[k].as_str(), '\\', '/');
            proof {
                assert(roots[k as int] == self.ws_folder@[k as int]@);
            }
            if lies_under_root(path, root.as_str()) {
                return true;
            }
            k = k + 1;
        }
        false
    }

    /// Whether `file` belongs to the workspace: it lies under a root and no
    /// ignore pattern matches its path written with forward slashes.
    pub fn is_ws_file(&self, file: &str) -> (member: bool)
        ensures
            member == is_member(texts_view(self.ws_folder@), self.patterns(), file@),
    {
        let path = replace_char(file, '\\', '/');
        if !self.under_root(file, path.as_str()) {
            return false;
        }
        match &self.config {
            Some(config) => !config.ignores(path.as_str()),
            None => true,
        }
    }

    /// The files among `found` that belong to the workspace, in the order
    /// found.
    pub fn eligible_files(&self, found: Vec<String>) -> (eligible: Vec<String>)
        ensures
            texts_view(eligible@) == members_upto(
                texts_view(self.ws_folder@),
                self.patterns(),
                texts_view(found@),
                found@.len() as int,
            ),
    {
        let mut eligible: Vec<String> = Vec::new();
        let ghost all = texts_view(found@);
        let ghost roots = texts_view(self.ws_folder@);
        proof {
            assert(texts_view(eligible@) =~= Seq::<Seq<char>>::empty());
        }
        for file in it: found
            invariant
                it.seq() == found@,
                all == texts_view(found@),
                roots == texts_view(self.ws_folder@),
                texts_view(eligible@) == members_upto(roots, self.patterns(), all, it.index()),
        {
            let ghost before = texts_view(eligible@);
            proof {
                assert(all[it.index()] == file@);
            }
            if self.is_ws_file(file.as_str()) {
                eligible.push(file);
                proof {
                    assert(texts_view(eligible@) =~= before.push(file@));
                }
            }
        }
        eligible
    }

    /// Stores the outcome of parsing `file`: an index takes the place of
    /// the one the cache had, and a failure leaves the file without one and
    /// is handed back.
    pub fn store(&mut self, file: &str, outcome: Result<XmlParser, ParseError>) -> (done: Result<
        (),
        ParseError,
    >)
        ensures
            final(self).ws_folder == old(self).ws_folder,
            final(self).config == old(self).config,
            match outcome {
                Ok(parser) => done is Ok && final(self).parsers@ == old(self).parsers@.insert(
                    file@,
                    parser,
                ),
                Err(e) => done == Err::<(), ParseError>(e) && final(self).parsers@ == old(
                    self,
                ).parsers@.remove(file@),
            },
    {
        match outcome {
            Ok(parser) => {
                let _ = self.parsers.insert(String::from_str(file), parser);
                Ok(())
            },
            Err(e) => {
                let _ = self.parsers.remove(file);
                Err(e)
            },
        }
    }

    /// Indexes `file` from what was read of it and stores the outcome. A
    /// file that could not be read, or whose text is no well-formed
    /// document, is left without an index.
    pub fn create_parser(&mut self, file: &str, read: Result<String, String>) -> (done: Result<
        (),
        ParseError,
    >)
        ensures
            final(self).ws_folder == old(self).ws_folder,
            final(self).config == old(self).config,
            parsers_view(final(self).parsers@) == stored(
                parsers_view(old(self).parsers@),
                file@,
                match read {
                    Ok(content) => parse_outcome(
                        file@,
                        is_member(texts_view(old(self).ws_folder@), old(self).patterns(), file@),
                        content@,
                    ),
                    Err(_) => None,
                },
            ),
            match read {
                Ok(content) => done is Ok <==> parse_outcome(
                    file@,
                    is_member(texts_view(old(self).ws_folder@), old(self).patterns(), file@),
                    content@,
                ) is Some,
                Err(m) => done == Err::<(), ParseError>(ParseError::Unreadable(m)),
            },
            done matches Err(e) ==> (e is Unreadable <==> read is Err),
    {
        let ghost before = self.parsers@;
        let outcome = match read {
            Ok(content) => {
                let member = self.is_ws_file(file);
                create_parser_sync(file, member, content.as_str())
            },
            Err(m) => Err(ParseError::Unreadable(m)),
        };
        proof {
            if outcome is Ok {
                let parser = outcome->Ok_0;
                assert(parsers_view(before.insert(file@, parser)) =~= parsers_view(before).insert(
                    file@,
                    parser@,
                ));
            } else {
                assert(parsers_view(before.remove(file@)) =~= parsers_view(before).remove(file@));
            }
        }
        self.store(file, outcome)
    }

    /// A file was opened: it is read and indexed only where the cache has
    /// no index of it yet.
    pub fn did_open(&self, file: &str) -> (action: Action)
        ensures
            action == if self.parsers@.contains_key(file@) {
                Action::Nothing
            } else {
                Action::ReadAndParse
            },
    {
        if self.parsers.contains_key(file) {
            Action::Nothing
        } else {
            Action::ReadAndParse
        }
    }

    /// A file was changed: its index is dropped, and it is indexed anew,
    /// from the text that came with the change where there is one and the
    /// file belongs to the workspace, else from disk.
    pub fn did_change(&mut self, file: &str, has_text: bool) -> (action: Action)
        ensures
            final(self).ws_folder == old(self).ws_folder,
            final(self).config == old(self).config,
            final(self).parsers@ == old(self).parsers@.remove(file@),
            action == if has_text && is_member(
                texts_view(old(self).ws_folder@),
                old(self).patterns(),
                file@,
            ) {
                Action::ParseText
            } else {
                Action::ReadAndParse
            },
    {
        let _ = self.parsers.remove(file);
        if has_text && self.is_ws_file(file) {
            Action::ParseText
        } else {
            Action::ReadAndParse
        }
    }

    /// A file was saved: it is read and indexed anew, whatever the cache
    /// holds.
    pub fn did_save(&self, file: &str) -> (action: Action)
        ensures
            action == Action::ReadAndParse,
    {
        Action::ReadAndParse
    }

    /// A file was closed: its index is dropped unless the file belongs to
    /// the workspace. Tells whether it was dropped.
    pub fn did_close(&mut self, file: &str) -> (dropped: bool)
        ensures
            final(self).ws_folder == old(self).ws_folder,
            final(self).config == old(self).config,
            dropped == (old(self).parsers@.contains_key(file@) && !old(
                self,
            ).parsers@[file@].is_ws_file),
            final(self).parsers@ == if dropped {
                old(self).parsers@.remove(file@)
            } else {
                old(self).parsers@
            },
    {
        let keep = match self.parsers.get(file) {
            Some(parser) => parser.is_ws_file,
            None => true,
        };
        if keep {
            false
        } else {
            let _ = self.parsers.remove(file);
            true
        }
    }

    /// A file was deleted: its index is dropped.
    pub fn did_delete(&mut self, file: &str)
        ensures
            final(self).ws_folder == old(self).ws_folder,
            final(self).config == old(self).config,
            final(self).parsers@ == old(self).parsers@.remove(file@),
    {
        let _ = self.parsers.remove(file);
    }
}

/// What came of one file of a scan.
pub struct ScanResult {
    pub file: String,
    pub outcome: Result<XmlParser, ParseError>,
}

/// A file of a scan that has no index, and why.
pub struct ScanFailure {
    pub file: String,
    pub error: ParseError,
}

/// The file of a result with its index, if it has one.
pub open spec fn outcome_of(result: ScanResult) -> (Seq<char>, Option<XmlParser>) {
    (
        result.file@,
        match result.outcome {
            Ok(parser) => Some(parser),
            Err(_) => None,
        },
    )
}

/// The files with their indices, result by result.
pub open spec fn outcomes_of(results: Seq<ScanResult>) -> Seq<(Seq<char>, Option<XmlParser>)> {
    results.map_values(|r: ScanResult| outcome_of(r))
}

/// The failures among the first `n` results, in order.
pub open spec fn failures_upto(results: Seq<ScanResult>, n: int) -> Seq<ScanFailure>
    decreases n,
{
    if n <= 0 {
        Seq::empty()
    } else {
        match results[n - 1].outcome {
            Ok(_) => failures_upto(results, n - 1),
            Err(e) => failures_upto(results, n - 1).push(
                ScanFailure { file: results[n - 1].file, error: e },
            ),
        }
    }
}

/// What a request at a place of a file lies on.
pub enum QueryHit {
    /// A reference: the path under the caret and the caret's offset from
    /// the start of the reference.
    Reference { path: String, caret: usize },
    /// An identifier, by its path.
    Identifier { path: String },
    /// Neither.
    Nothing,
}

impl Backend {
    /// Takes the results of a scan into the cache, by the rule of every
    /// update: each index takes the place of the one its file had, and each
    /// failure leaves its file without an index and is handed back with the
    /// file. Every result is looked at, whatever came of the others.
    pub fn parse_ws(&mut self, results: Vec<ScanResult>) -> (failed: Vec<ScanFailure>)
        ensures
            final(self).ws_folder == old(self).ws_folder,
            final(self).config == old(self).config,
            final(self).parsers@ == merged(old(self).parsers@, outcomes_of(results@)),
            failed@ == failures_upto(results@, results@.len() as int),
    {
        let mut failed: Vec<ScanFailure> = Vec::new();
        let ghost all = outcomes_of(results@);
        let ghost start = self.parsers@;
        proof {
            assert(all.take(0) =~= Seq::empty());
        }
        for result in it: results
            invariant
                it.seq() == results@,
                all == outcomes_of(results@),
                self.ws_folder == old(self).ws_folder,
                self.config == old(self).config,
                start == old(self).parsers@,
                self.parsers@ == merged(start, all.take(it.index())),
                failed@ == failures_upto(results@, it.index()),
        {
            let ghost k = it.index();
            proof {
                assert(all.take(k + 1).drop_last() =~= all.take(k));
                assert(all.take(k + 1).last() == outcome_of(result));
            }
            match result.outcome {
                Ok(parser) => {
                    let _ = self.parsers.insert(result.file, parser);
                },
                Err(error) => {
                    let _ = self.parsers.remove(result.file.as_str());
                    failed.push(ScanFailure { file: result.file, error });
                },
            }
        }
        proof {
            assert(all.take(all.len() as int) =~= all);
        }
        failed
    }

    /// What lies at a line and column of `file`, both counted from 0: a
    /// reference where one is written there, else the innermost identifier
    /// there, else nothing.
    pub fn query_at(&self, file: &str, line: usize, position: usize) -> (hit: QueryHit)
        ensures
            match hit {
                QueryHit::Reference { path, caret } => self.parsers@.contains_key(file@)
                    && crate::xml_parser::ref_text_at(
                    self.parsers@[file@],
                    line as int,
                    position as int,
                ) == Some((path@, caret as int)),
                QueryHit::Identifier { path } => {
                    &&& self.parsers@.contains_key(file@)
                    &&& crate::xml_parser::ref_text_at(
                        self.parsers@[file@],
                        line as int,
                        position as int,
                    ) is None
                    &&& crate::xml_parser::ident_at(
                        self.parsers@[file@],
                        line as int,
                        position as int,
                    ) is Some
                    &&& crate::xml_parser::ident_at(
                        self.parsers@[file@],
                        line as int,
                        position as int,
                    )->0.path@ == path@
                },
                QueryHit::Nothing => self.parsers@.contains_key(file@)
                    ==> crate::xml_parser::ref_text_at(
                    self.parsers@[file@],
                    line as int,
                    position as int,
                ) is None && crate::xml_parser::ident_at(
                    self.parsers@[file@],
                    line as int,
                    position as int,
                ) is None,
            },
    {
        let parser = match self.parsers.get(file) {
            Some(p) => p,
            None => {
                return QueryHit::Nothing;
            },
        };
        if let Some((path, caret)) = parser.get_ref_text_at(line, position) {
            return QueryHit::Reference { path, caret };
        }
        match parser.get_ident_node_at(line, position) {
            Some(ident) => QueryHit::Identifier { path: ident.path.clone() },
            None => QueryHit::Nothing,
        }
    }
}

} // verus!
