//! Function extraction: parse a source file with Tree-sitter, run the
//! language's function query, and turn each match of a function and its
//! body into a header, a source text and a line number.
use vstd::prelude::*;
use vstd::string::StringSliceAdditionalSpecFns;
use vstd::utf8::{decode_utf8, encode_utf8_decode_utf8, is_char_boundary};
use crate::language_specs::{LanguageSpec, SourceLanguage};
use crate::text::{byte_slice, spec_trim, text_eq, trim};
use tree_sitter::StreamingIterator;

verus! {

#[verifier::external_type_specification]
#[verifier::external_body]
pub struct ExTree(tree_sitter::Tree);

#[verifier::external_type_specification]
#[verifier::external_body]
pub struct ExQuery(tree_sitter::Query);

#[verifier::external_type_specification]
#[verifier::external_body]
pub struct ExLanguageError(tree_sitter::LanguageError);

#[verifier::external_type_specification]
#[verifier::external_body]
pub struct ExQueryError(tree_sitter::QueryError);

/// A function found in a source file.
#[derive(Debug)]
pub struct ExtractedFunction {
    pub header: String,
    pub source: String,
    pub line_number: usize,
}

/// The text of a function: header, source and one-based line number.
pub type FunctionModel = (Seq<char>, Seq<char>, usize);

impl View for ExtractedFunction {
    type V = FunctionModel;

    open spec fn view(&self) -> FunctionModel {
        (self.header@, self.source@, self.line_number)
    }
}

/// One capture of a query match: the capture's index among the query's
/// capture names, the byte range of the captured node and its first row.
#[derive(Debug, Clone, Copy, PartialEq, Eq)]
pub struct CaptureSpan {
    pub index: u32,
    pub start_byte: usize,
    pub end_byte: usize,
    pub start_row: usize,
}

/// Why parsing or extraction failed.
#[derive(Debug)]
pub enum TreeSitterError {
    /// The grammar could not be loaded into the parser.
    LanguageLoad(tree_sitter::LanguageError),
    /// The parser returned no tree.
    NoTree,
    /// The function query could not be built.
    QueryCreation(tree_sitter::QueryError),
    /// A captured byte range is not a range of the source's characters.
    InvalidSourceRange,
    /// A line number does not fit in a `usize`.
    LineOverflow,
}

/// A parsed source: the tree that Tree-sitter builds from `text` with the
/// grammar of `kind`. Only `generate_tree_from_source` makes one.
pub struct SourceTree {
    tree: tree_sitter::Tree,
    kind: SourceLanguage,
    text: String,
}

impl SourceTree {
    /// The language the source was parsed as.
    pub closed spec fn tree_kind(&self) -> SourceLanguage {
        self.kind
    }

    /// The text that was parsed.
    pub closed spec fn tree_text(&self) -> Seq<char> {
        self.text@
    }
}

/// A compiled function query: Tree-sitter's query built from the grammar
/// and the function query of `kind`. Only `new_function_query` makes one.
pub struct FunctionQuery {
    query: tree_sitter::Query,
    kind: SourceLanguage,
}

/// Whether `Parser::set_language` accepts the grammar of a language: it
/// depends on the grammar's ABI version and on whether it can be parsed
/// with, both fixed by the grammar.
pub uninterp spec fn grammar_loads(kind: SourceLanguage) -> bool;

/// Whether `Query::new` builds the function query of a language from its
/// grammar and its query text, both fixed by the language.
pub uninterp spec fn query_builds(kind: SourceLanguage) -> bool;

/// The capture names of the function query of a language.
pub uninterp spec fn capture_names_of(kind: SourceLanguage) -> Seq<Seq<char>>;

/// The matches, in the order found, of the function query of `query_kind`
/// over the tree that the grammar of `tree_kind` builds from `text`, each
/// as its captures' indices, byte ranges and first rows.
pub uninterp spec fn function_matches_of(query_kind: SourceLanguage, tree_kind: SourceLanguage, text: Seq<char>) -> Seq<
    Seq<CaptureSpan>,
>;

/// A new `tree_sitter::Parser`, `Parser::set_language` with the grammar of
/// `spec`, then `Parser::parse` of the whole text with no previous tree.
/// Loading succeeds exactly when the grammar loads (a function of the
/// grammar alone); once a language is set, `parse` gives a tree (it gives
/// none only when no language is set). Nothing is stated of the tree here:
/// a `SourceTree` records the grammar and text it came from.
#[verifier::external_body]
fn parse_source(spec: &LanguageSpec, source: &str) -> (r: Result<Option<tree_sitter::Tree>, tree_sitter::LanguageError>)
    ensures
        r is Ok <==> grammar_loads(spec.spec_kind()),
        r matches Ok(t) ==> t is Some,
{
    let mut parser = tree_sitter::Parser::new();
    parser.set_language(&spec.language)?;
    Ok(parser.parse(source, None))
}

/// `tree_sitter::Query::new` with the grammar and the function query of
/// `spec`: it builds exactly when the language's query builds.
#[verifier::external_body]
fn new_function_query(spec: &LanguageSpec) -> (r: Result<FunctionQuery, tree_sitter::QueryError>)
    ensures
        r is Ok <==> query_builds(spec.spec_kind()),
        r matches Ok(q) ==> q.kind == spec.spec_kind(),
{
    tree_sitter::Query::new(&spec.language, spec.function_query).map(|query| FunctionQuery { query, kind: spec.kind })
}

/// `tree_sitter::Query::capture_names`, converted to owned strings: the
/// capture names of the query's language.
#[verifier::external_body]
fn query_capture_names(q: &FunctionQuery) -> (r: Vec<String>)
    ensures
        names_view(r@) == capture_names_of(q.kind),
{
    q.query.capture_names().iter().map(|name| name.to_string()).collect()
}

/// `tree_sitter::QueryCursor::matches` of the query over the tree's root
/// node, with the tree's text: every match in the order found, each
/// converted to its captures' indices, byte ranges and first rows.
#[verifier::external_body]
fn query_matches(q: &FunctionQuery, t: &SourceTree) -> (r: Vec<Vec<CaptureSpan>>)
    ensures
        r@.map_values(|m: Vec<CaptureSpan>| m@) == function_matches_of(q.kind, t.kind, t.text@),
{
    let mut cursor = tree_sitter::QueryCursor::new();
    let mut matches = cursor.matches(&q.query, t.tree.root_node(), t.text.as_bytes());
    let mut result = Vec::new();
    while let Some(item) = matches.next() {
        result.push(item.captures().iter().map(|c| CaptureSpan {
            index: c.index,
            start_byte: c.node.start_byte(),
            end_byte: c.node.end_byte(),
            start_row: c.node.start_position().row,
        }).collect());
    }
    result
}

/// Parses `source_code` with the grammar of `spec`: it succeeds exactly
/// when the grammar loads.
pub fn generate_tree_from_source(spec: &LanguageSpec, source_code: &str) -> (r: Result<SourceTree, TreeSitterError>)
    ensures
        r is Ok <==> grammar_loads(spec.spec_kind()),
        r matches Ok(t) ==> t.tree_kind() == spec.spec_kind() && t.tree_text() == source_code@,
        r matches Err(e) ==> e is LanguageLoad,
{
    match parse_source(spec, source_code) {
        Err(error) => Err(TreeSitterError::LanguageLoad(error)),
        Ok(Some(tree)) => Ok(SourceTree { tree, kind: spec.kind(), text: source_code.to_owned() }),
        Ok(None) => Err(TreeSitterError::NoTree),
    }
}

/// The last capture of a match that has the given name.
pub open spec fn last_capture(caps: Seq<CaptureSpan>, names: Seq<Seq<char>>, name: Seq<char>) -> Option<CaptureSpan>
    decreases caps.len(),
{
    if caps.len() == 0 {
        None
    } else if (caps.last().index as int) < names.len() && names[caps.last().index as int] == name {
        Some(caps.last())
    } else {
        last_capture(caps.drop_last(), names, name)
    }
}

/// The characters between two byte offsets of a text, when the offsets are
/// in order, within the text and on character boundaries.
pub open spec fn text_between(bytes: Seq<u8>, start: usize, end: usize) -> Option<Seq<char>> {
    if start <= end <= bytes.len() && is_char_boundary(bytes, start as int) && is_char_boundary(bytes, end as int) {
        Some(decode_utf8(bytes.subrange(start as int, end as int)))
    } else {
        None
    }
}

/// The function a match describes: none unless it captures both a
/// `function` and a `body`; then the trimmed text from the function's start
/// to the body's start, the function's whole text, and its one-based line.
pub open spec fn function_of_match(bytes: Seq<u8>, names: Seq<Seq<char>>, caps: Seq<CaptureSpan>) -> Option<
    Result<FunctionModel, ()>,
> {
    match (last_capture(caps, names, seq!['f', 'u', 'n', 'c', 't', 'i', 'o', 'n']), last_capture(caps, names, seq!['b', 'o', 'd', 'y'])) {
        (Some(f), Some(b)) => Some(
            match (text_between(bytes, f.start_byte, b.start_byte), text_between(bytes, f.start_byte, f.end_byte)) {
                (Some(header), Some(text)) => if f.start_row < usize::MAX {
                    Ok((spec_trim(header), text, (f.start_row + 1) as usize))
                } else {
                    Err(())
                },
                _ => Err(()),
            },
        ),
        _ => None,
    }
}

/// The functions of all matches, in order; the first match whose ranges do
/// not fit the text ends extraction with an error.
pub open spec fn functions_of_matches(bytes: Seq<u8>, names: Seq<Seq<char>>, ms: Seq<Seq<CaptureSpan>>) -> Result<Seq<FunctionModel>, ()>
    decreases ms.len(),
{
    if ms.len() == 0 {
        Ok(Seq::empty())
    } else {
        match functions_of_matches(bytes, names, ms.drop_last()) {
            Err(e) => Err(e),
            Ok(prev) => match function_of_match(bytes, names, ms.last()) {
                None => Ok(prev),
                Some(Err(e)) => Err(e),
                Some(Ok(f)) => Ok(prev.push(f)),
            },
        }
    }
}

/// The capture names as texts.
pub open spec fn names_view(names: Seq<String>) -> Seq<Seq<char>> {
    names.map_values(|n: String| n@)
}

/// The last capture of `caps` named `name`.
pub fn find_last_capture(caps: &Vec<CaptureSpan>, names: &Vec<String>, name: &str) -> (r: Option<CaptureSpan>)
    ensures
        r == last_capture(caps@, names_view(names@), name@),
{
    let mut found: Option<CaptureSpan> = None;
    let mut k: usize = 0;
    while k < caps.len()
        invariant
            k <= caps.len(),
            found == last_capture(caps@.take(k as int), names_view(names@), name@),
        decreases caps.len() - k,
    {
        let capture = caps[k];
        assert(caps@.take(k + 1).drop_last() =~= caps@.take(k as int));
        let index = capture.index as usize;
        if index < names.len() && text_eq(names[index].as_str(), name) {
            found = Some(capture);
        } else {
            assert(!((capture.index as int) < names@.len() && names_view(names@)[capture.index as int] == name@));
        }
        k += 1;
    }
    assert(caps@.take(k as int) =~= caps@);
    found
}

/// The characters between two byte offsets of `source`.
fn slice_text(source: &str, start: usize, end: usize) -> (r: Option<String>)
    ensures
        r matches Some(t) ==> text_between(source.spec_bytes(), start, end) == Some(t@),
        r is None ==> text_between(source.spec_bytes(), start, end) is None,
{
    let r = byte_slice(source, start, end);
    proof {
        if r is Some {
            encode_utf8_decode_utf8(r->0@);
        }
    }
    r
}

/// The function a match describes, as `function_of_match` says.
pub fn function_from_match(source: &str, names: &Vec<String>, caps: &Vec<CaptureSpan>) -> (r: Option<Result<ExtractedFunction, TreeSitterError>>)
    ensures
        match function_of_match(source.spec_bytes(), names_view(names@), caps@) {
            None => r is None,
            Some(Err(())) => r matches Some(Err(e)) && (e is InvalidSourceRange || e is LineOverflow),
            Some(Ok(f)) => r matches Some(Ok(g)) && g@ == f,
        },
{
    proof {
        reveal_strlit("function");
        reveal_strlit("body");
        assert("function"@ =~= seq!['f', 'u', 'n', 'c', 't', 'i', 'o', 'n']);
        assert("body"@ =~= seq!['b', 'o', 'd', 'y']);
    }
    let function = find_last_capture(caps, names, "function");
    let body = find_last_capture(caps, names, "body");
    match (function, body) {
        (Some(f), Some(b)) => {
            let header = match slice_text(source, f.start_byte, b.start_byte) {
                Some(h) => h,
                None => {
                    return Some(Err(TreeSitterError::InvalidSourceRange));
                },
            };
            let function_source = match slice_text(source, f.start_byte, f.end_byte) {
                Some(t) => t,
                None => {
                    return Some(Err(TreeSitterError::InvalidSourceRange));
                },
            };
            if f.start_row == usize::MAX {
                return Some(Err(TreeSitterError::LineOverflow));
            }
            let header = trim(header.as_str());
            Some(Ok(ExtractedFunction { header, source: function_source, line_number: f.start_row + 1 }))
        },
        _ => None,
    }
}

/// The views of a list of functions.
pub open spec fn functions_view(fs: Seq<ExtractedFunction>) -> Seq<FunctionModel> {
    fs.map_values(|f: ExtractedFunction| f@)
}

/// The functions that a query's matches describe, in the order of the
/// matches, as `functions_of_matches` says.
pub fn functions_from_matches(source: &str, names: &Vec<String>, matches: &Vec<Vec<CaptureSpan>>) -> (r: Result<Vec<ExtractedFunction>, TreeSitterError>)
    ensures
        match functions_of_matches(source.spec_bytes(), names_view(names@), matches@.map_values(|m: Vec<CaptureSpan>| m@)) {
            Ok(fs) => r matches Ok(v) && functions_view(v@) == fs,
            Err(()) => r matches Err(e) && (e is InvalidSourceRange || e is LineOverflow),
        },
{
    let ghost ms = matches@.map_values(|m: Vec<CaptureSpan>| m@);
    let ghost bytes = source.spec_bytes();
    let ghost nv = names_view(names@);
    let mut result: Vec<ExtractedFunction> = Vec::new();
    let mut k: usize = 0;
    assert(ms.take(0) =~= Seq::<Seq<CaptureSpan>>::empty());
    assert(functions_view(result@) =~= Seq::<FunctionModel>::empty());
    while k < matches.len()
        invariant
            k <= matches.len(),
            ms == matches@.map_values(|m: Vec<CaptureSpan>| m@),
            bytes == source.spec_bytes(),
            nv == names_view(names@),
            functions_of_matches(bytes, nv, ms.take(k as int)) == Ok::<Seq<FunctionModel>, ()>(functions_view(result@)),
        decreases matches.len() - k,
    {
        assert(ms.take(k + 1).drop_last() =~= ms.take(k as int));
        assert(ms.take(k + 1).last() == matches@[k as int]@);
        match function_from_match(source, names, &matches[k]) {
            None => {},
            Some(Err(e)) => {
                assert(ms.take(k as int) + ms.skip(k as int) =~= ms);
                proof {
                    lemma_functions_of_matches_err(bytes, nv, ms, k as int + 1);
                }
                return Err(e);
            },
            Some(Ok(f)) => {
                let ghost before = result@;
                result.push(f);
                assert(functions_view(result@) =~= functions_view(before).push(f@));
            },
        }
        k += 1;
    }
    assert(ms.take(k as int) =~= ms);
    Ok(result)
}

/// Once extraction fails on a prefix of the matches, it fails on all of them.
pub proof fn lemma_functions_of_matches_err(bytes: Seq<u8>, names: Seq<Seq<char>>, ms: Seq<Seq<CaptureSpan>>, k: int)
    requires
        0 <= k <= ms.len(),
        functions_of_matches(bytes, names, ms.take(k)) is Err,
    ensures
        functions_of_matches(bytes, names, ms) is Err,
    decreases ms.len() - k,
{
    if k < ms.len() {
        assert(ms.take(k + 1).drop_last() =~= ms.take(k));
        lemma_functions_of_matches_err(bytes, names, ms, k + 1);
    } else {
        assert(ms.take(k) =~= ms);
    }
}

/// What extraction gives: the functions of the matches of the function
/// query of `spec_kind` over the tree of `tree_kind` and `tree_text`, their
/// texts taken from the bytes of the source.
pub open spec fn extraction(
    bytes: Seq<u8>,
    spec_kind: SourceLanguage,
    tree_kind: SourceLanguage,
    tree_text: Seq<char>,
) -> Result<Seq<FunctionModel>, ()> {
    functions_of_matches(bytes, capture_names_of(spec_kind), function_matches_of(spec_kind, tree_kind, tree_text))
}

/// The functions of a parsed source, as the language's function query finds
/// them: refused when the query does not build; otherwise exactly the
/// functions of its matches, or an error when a match's ranges do not fit
/// the source.
pub fn extract_functions(tree: &SourceTree, source: &str, spec: &LanguageSpec) -> (r: Result<Vec<ExtractedFunction>, TreeSitterError>)
    ensures
        !query_builds(spec.spec_kind()) ==> (r matches Err(e) && e is QueryCreation),
        query_builds(spec.spec_kind()) ==> match extraction(source.spec_bytes(), spec.spec_kind(), tree.tree_kind(), tree.tree_text()) {
            Ok(fs) => r matches Ok(v) && functions_view(v@) == fs,
            Err(()) => r matches Err(e) && (e is InvalidSourceRange || e is LineOverflow),
        },
        r matches Ok(fs) ==> forall|i: int| 0 <= i < fs.len() ==> {
            &&& exists|start: usize, end: usize| text_between(source.spec_bytes(), start, end) == Some((#[trigger] fs@[i]).source@)
            &&& fs@[i].line_number >= 1
        },
{
    let query = match new_function_query(spec) {
        Ok(q) => q,
        Err(error) => {
            return Err(TreeSitterError::QueryCreation(error));
        },
    };
    let names = query_capture_names(&query);
    let matches = query_matches(&query, tree);
    let r = functions_from_matches(source, &names, &matches);
    proof {
        if r is Ok {
            let fs = r->Ok_0;
            let ms = matches@.map_values(|m: Vec<CaptureSpan>| m@);
            lemma_functions_of_matches_facts(source.spec_bytes(), names_view(names@), ms);
            assert forall|i: int| 0 <= i < fs.len() implies {
                &&& exists|start: usize, end: usize| text_between(source.spec_bytes(), start, end) == Some((#[trigger] fs@[i]).source@)
                &&& fs@[i].line_number >= 1
            } by {
                assert(functions_view(fs@)[i] == fs@[i]@);
            }
        }
    }
    r
}

/// Every function extracted has a source that is a range of the text and a
/// line number of at least 1.
pub proof fn lemma_functions_of_matches_facts(bytes: Seq<u8>, names: Seq<Seq<char>>, ms: Seq<Seq<CaptureSpan>>)
    ensures
        functions_of_matches(bytes, names, ms) matches Ok(fs) ==> forall|i: int| 0 <= i < fs.len() ==> {
            &&& exists|start: usize, end: usize| text_between(bytes, start, end) == Some((#[trigger] fs[i]).1)
            &&& fs[i].2 >= 1
        },
    decreases ms.len(),
{
    if ms.len() > 0 {
        lemma_functions_of_matches_facts(bytes, names, ms.drop_last());
        if let Ok(fs) = functions_of_matches(bytes, names, ms) {
            if let Ok(prev) = functions_of_matches(bytes, names, ms.drop_last()) {
                if let Some(Ok(f)) = function_of_match(bytes, names, ms.last()) {
                    let fc = last_capture(ms.last(), names, seq!['f', 'u', 'n', 'c', 't', 'i', 'o', 'n']).unwrap();
                    assert(text_between(bytes, fc.start_byte, fc.end_byte) == Some(f.1));
                    assert forall|i: int| 0 <= i < fs.len() implies {
                        &&& exists|start: usize, end: usize| text_between(bytes, start, end) == Some((#[trigger] fs[i]).1)
                        &&& fs[i].2 >= 1
                    } by {
                        if i == fs.len() - 1 {
                            assert(fs[i] == f);
                        } else {
                            assert(fs[i] == prev[i]);
                        }
                    }
                }
            }
        }
    }
}

} // verus!
