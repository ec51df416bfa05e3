use vstd::prelude::*;
use vstd::string::StrSliceExecFns;
use crate::buffer::line_start;
use crate::buffer::spec_line_start;
use crate::error::Error;
use tree_sitter::Parser;
use tree_sitter::Query;
use tree_sitter::QueryCursor;
use tree_sitter_typescript::language_tsx;
use tree_sitter_typescript::language_typescript;

verus! {

/// The grammar a source file is parsed with, chosen by its suffix.
#[derive(Debug, Clone, Copy, PartialEq, Eq, Structural)]
pub enum Lang {
    TypeScript,
    TypeScriptTsx,
}

/// One located string literal, by the (row, column) pairs the parser
/// reports for the whole literal node, quote characters included. Columns
/// are offsets within the row exactly as the parser counts them; the engine
/// reads them as character offsets, and the two agree on ASCII text.
pub struct TextSlice {
    pub start_row: usize,
    pub start_col: usize,
    pub end_row: usize,
    pub end_col: usize,
}

impl View for TextSlice {
    type V = (nat, nat, nat, nat);

    open spec fn view(&self) -> (nat, nat, nat, nat) {
        (self.start_row as nat, self.start_col as nat, self.end_row as nat, self.end_col as nat)
    }
}

impl DeepView for TextSlice {
    type V = (nat, nat, nat, nat);

    open spec fn deep_view(&self) -> (nat, nat, nat, nat) {
        self.view()
    }
}

/// The linear character range strictly inside the quotes of a located
/// literal: line starts plus column offsets, with the first and last
/// character (the quotes) excluded. `None` when the span does not fit the
/// text.
pub open spec fn spec_inner_range(text: Seq<char>, s: (nat, nat, nat, nat)) -> Option<(int, int)> {
    let a = spec_line_start(text, s.0) + s.1;
    let b = spec_line_start(text, s.2) + s.3;
    if a + 2 <= b && b - 1 <= text.len() {
        Some((a + 1, b - 1))
    } else {
        None
    }
}

impl TextSlice {
    /// Converts the located literal to the linear character range of the
    /// text strictly inside its quotes, refusing spans that fall outside
    /// the text.
    pub fn to_index_range(&self, text: &str) -> (r: Option<(usize, usize)>)
        ensures
            match r {
                Some((s, e)) => spec_inner_range(text@, self@) == Some((s as int, e as int)) && s
                    <= e <= text@.len(),
                None => spec_inner_range(text@, self@) is None,
            },
    {
        let n = text.unicode_len();
        let ls = line_start(text, self.start_row);
        let le = line_start(text, self.end_row);
        let ghost a = spec_line_start(text@, self.start_row as nat) + self.start_col as nat;
        let ghost b = spec_line_start(text@, self.end_row as nat) + self.end_col as nat;
        if self.start_col > n - ls {
            proof {
                assert(a > n);
                assert(spec_inner_range(text@, self@) is None);
            }
            return None;
        }
        let start_raw = ls + self.start_col;
        let e: usize;
        if self.end_col == 0 {
            if le == 0 {
                proof {
                    assert(b == 0);
                    assert(spec_inner_range(text@, self@) is None);
                }
                return None;
            }
            e = le - 1;
        } else {
            if self.end_col - 1 > n - le {
                proof {
                    assert(b - 1 > n);
                    assert(spec_inner_range(text@, self@) is None);
                }
                return None;
            }
            e = le + (self.end_col - 1);
        }
        proof {
            assert(e as int == b - 1);
        }
        if start_raw >= e {
            proof {
                assert(a + 2 > b);
                assert(spec_inner_range(text@, self@) is None);
            }
            return None;
        }
        Some((start_raw + 1, e))
    }
}

/// The spans of every import-target string literal that the chosen grammar's
/// import query finds in a text: the string of a static `import ... from`,
/// the string of a re-export `export ... from`, and the string argument of a
/// dynamic `import(...)` call.
pub uninterp spec fn import_spans(text: Seq<char>, tsx: bool) -> Seq<(nat, nat, nat, nat)>;

/// Relies on `tree_sitter` with the `tree_sitter_typescript` grammars: the
/// tree of a text under a fixed grammar, and the captures of a fixed query
/// over that tree, are functions of the text and the grammar choice alone.
/// At the locked versions the call succeeds on every text: both grammars
/// carry an ABI version the parser accepts, so `set_language` cannot fail; a
/// fresh parser with a language set and neither a timeout nor a cancellation
/// flag always yields a tree (malformed source parses to a tree with error
/// nodes); and the fixed query names only node kinds both grammars define.
/// The failure mapping in the body is defensive and never taken.
#[verifier::external_body]
pub(crate) fn find_import_spans(source_code: &str, lang: &Lang) -> (r: Result<Vec<TextSlice>, Error>)
    ensures
        r is Ok,
        r->Ok_0.deep_view() == import_spans(source_code@, *lang is TypeScriptTsx),
{
    let language = match lang { Lang::TypeScript => language_typescript(), Lang::TypeScriptTsx => language_tsx() };
    let mut parser = Parser::new();
    parser.set_language(language).map_err(|_| Error::ParseFailure)?;
    let tree = parser.parse(source_code, None).ok_or(Error::ParseFailure)?;
    let query = Query::new(language, "(import_statement (string) @import_string)\n(export_statement (string) @import_string)\n(call_expression (import) (arguments (string) @import_string))").map_err(|_| Error::ParseFailure)?;
    let mut slices = Vec::new();
    for m in QueryCursor::new().matches(&query, tree.root_node(), source_code.as_bytes()) {
        for c in m.captures {
            let (s, e) = (c.node.start_position(), c.node.end_position());
            slices.push(TextSlice { start_row: s.row, start_col: s.column, end_row: e.row, end_col: e.column });
        }
    }
    Ok(slices)
}

} // verus!
