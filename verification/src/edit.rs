use vstd::prelude::*;
use vstd::string::StrSliceExecFns;
use vstd::string::StringExecFns;
use crate::buffer::splice;
use crate::buffer::str_eq;
use crate::error::Error;
use crate::import_string::RequiredFileRename;
use crate::import_string::SourceFileRename;
use crate::import_string::is_import_from;
use crate::import_string::rename_required_file;
use crate::import_string::rename_source_file;
use crate::import_string::spec_is_import_from;
use crate::import_string::spec_rename_required_file;
use crate::import_string::spec_rename_source_file;
use crate::import_string::starts_with_dot;
use crate::parser::Lang;
use crate::parser::TextSlice;
use crate::parser::find_import_spans;
use crate::parser::import_spans;
use crate::parser::spec_inner_range;
use crate::path::FilePath;
use crate::path::SpecPath;

verus! {

/// The extension found by scanning a segment from its end: the characters
/// after the last `.`, provided that dot stands after the first character.
pub open spec fn seg_ext_rec(seg: Seq<char>) -> Option<Seq<char>>
    decreases seg.len(),
{
    if seg.len() == 0 {
        None
    } else if seg.last() == '.' {
        if seg.len() >= 2 {
            Some(Seq::empty())
        } else {
            None
        }
    } else {
        match seg_ext_rec(seg.drop_last()) {
            None => None,
            Some(e) => Some(e.push(seg.last())),
        }
    }
}

/// The extension of a path's final segment; the segment `..` carries none.
pub open spec fn spec_seg_extension(seg: Seq<char>) -> Option<Seq<char>> {
    if seg == seq!['.', '.'] {
        None
    } else {
        seg_ext_rec(seg)
    }
}

proof fn lemma_seg_ext_at(seg: Seq<char>, p: int)
    requires
        1 <= p < seg.len(),
        seg[p] == '.',
        forall|j: int| p < j < seg.len() ==> seg[j] != '.',
    ensures
        seg_ext_rec(seg) == Some(seg.skip(p + 1)),
    decreases seg.len(),
{
    if p == seg.len() - 1 {
        assert(seg.skip(p + 1) =~= Seq::<char>::empty());
    } else {
        assert(seg.last() != '.');
        lemma_seg_ext_at(seg.drop_last(), p);
        assert(seg.drop_last().skip(p + 1).push(seg.last()) =~= seg.skip(p + 1));
    }
}

proof fn lemma_seg_ext_none(seg: Seq<char>)
    requires
        forall|j: int| 1 <= j < seg.len() ==> seg[j] != '.',
    ensures
        seg_ext_rec(seg) is None,
    decreases seg.len(),
{
    if seg.len() == 0 {
    } else if seg.last() == '.' {
        assert(seg.len() == 1);
    } else {
        lemma_seg_ext_none(seg.drop_last());
    }
}

/// The extension of one segment, or `None` when it has none.
fn seg_extension<'a>(seg: &'a str) -> (r: Option<&'a str>)
    ensures
        match r {
            Some(e) => spec_seg_extension(seg@) == Some(e@),
            None => spec_seg_extension(seg@) is None,
        },
{
    if str_eq(seg, "..") {
        proof {
            reveal_strlit("..");
            assert(seg@ =~= seq!['.', '.']);
        }
        return None;
    }
    proof {
        reveal_strlit("..");
        assert(seq!['.', '.'] =~= ".."@);
    }
    let n = seg.unicode_len();
    let mut i: usize = n;
    while i > 0
        invariant
            i <= n,
            n == seg@.len(),
            seg@ != seq!['.', '.'],
            forall|j: int| i <= j < n ==> seg@[j] != '.',
        decreases i,
    {
        if seg.get_char(i - 1) == '.' {
            if i - 1 >= 1 {
                proof {
                    lemma_seg_ext_at(seg@, i as int - 1);
                    assert(seg_ext_rec(seg@) == Some(seg@.skip(i as int)));
                    assert(seg@ != seq!['.', '.']);
                    assert(spec_seg_extension(seg@) == Some(seg@.skip(i as int)));
                    assert(seg@.subrange(i as int, n as int) =~= seg@.skip(i as int));
                }
                return Some(seg.substring_char(i, n));
            } else {
                proof {
                    lemma_seg_ext_none(seg@);
                }
                return None;
            }
        }
        i = i - 1;
    }
    proof {
        lemma_seg_ext_none(seg@);
    }
    None
}

/// What [`infer_langauge_from_suffix`] computes: the grammar named by the
/// extension of the path's last segment, or an unsupported-file error.
pub open spec fn spec_infer_lang(p: SpecPath) -> Result<Lang, Error> {
    if p.segs.len() == 0 {
        Err(Error::UnsupportedFileType)
    } else {
        match spec_seg_extension(p.segs.last()) {
            None => Err(Error::UnsupportedFileType),
            Some(e) => if e == seq!['t', 's'] {
                Ok(Lang::TypeScript)
            } else if e == seq!['t', 's', 'x'] {
                Ok(Lang::TypeScriptTsx)
            } else {
                Err(Error::UnsupportedFileType)
            },
        }
    }
}

/// Chooses the grammar from the file's suffix: `ts` or `tsx`. Any other
/// suffix, and a file without one, is an unsupported file type.
pub fn infer_langauge_from_suffix(file_name: &FilePath) -> (r: Result<Lang, Error>)
    ensures
        ({
            let d = spec_infer_lang(file_name@);
            match r {
                Ok(l) => d == Ok::<Lang, Error>(l),
                Err(e) => d == Err::<Lang, Error>(e),
            }
        }),
{
    let k = file_name.segs.len();
    if k == 0 {
        return Err(Error::UnsupportedFileType);
    }
    let last = file_name.segs[k - 1].as_str();
    proof {
        assert(last@ == file_name@.segs.last());
    }
    match seg_extension(last) {
        None => Err(Error::UnsupportedFileType),
        Some(e) => {
            if str_eq(e, "ts") {
                proof {
                    reveal_strlit("ts");
                    assert(e@ =~= seq!['t', 's']);
                }
                Ok(Lang::TypeScript)
            } else if str_eq(e, "tsx") {
                proof {
                    reveal_strlit("tsx");
                    assert(e@ =~= seq!['t', 's', 'x']);
                }
                Ok(Lang::TypeScriptTsx)
            } else {
                proof {
                    reveal_strlit("ts");
                    reveal_strlit("tsx");
                    assert(seq!['t', 's'] =~= "ts"@);
                    assert(seq!['t', 's', 'x'] =~= "tsx"@);
                }
                Err(Error::UnsupportedFileType)
            }
        },
    }
}

/// One moved file: where it was and where it now lies.
pub struct MoveRecord {
    pub old_location: FilePath,
    pub new_location: FilePath,
}

/// The mathematical shape of a [`MoveRecord`].
pub struct SpecMoveRecord {
    pub old_location: SpecPath,
    pub new_location: SpecPath,
}

impl View for MoveRecord {
    type V = SpecMoveRecord;

    open spec fn view(&self) -> SpecMoveRecord {
        SpecMoveRecord { old_location: self.old_location@, new_location: self.new_location@ }
    }
}

impl DeepView for MoveRecord {
    type V = SpecMoveRecord;

    open spec fn deep_view(&self) -> SpecMoveRecord {
        self.view()
    }
}

/// How each located relative import string is to be rewritten.
pub enum RewriteRule<'a> {
    /// The file holding the imports moved: every relative import is
    /// re-expressed from the new location.
    SourceMove { old_location: &'a FilePath, new_location: &'a FilePath },
    /// One dependency moved: an import denoting it is pointed at the new
    /// location, with the extension kept exactly when the import wrote one;
    /// every other import is kept as written.
    ImportMove { source_file: &'a FilePath, old_location: &'a FilePath, new_location: &'a FilePath },
    /// A set of files moved together: an import of a moved dependency is
    /// re-aimed first, and when the file itself moved too, the result is
    /// re-expressed from its new location.
    DirMove { source_file: &'a FilePath, new_location: Option<&'a FilePath>, moves: &'a Vec<MoveRecord> },
    /// Every relative import is replaced by one fixed string.
    SetImport { new_import: &'a str },
}

/// The mathematical shape of a [`RewriteRule`].
pub enum SpecRewriteRule {
    SourceMove { old_location: SpecPath, new_location: SpecPath },
    ImportMove { source_file: SpecPath, old_location: SpecPath, new_location: SpecPath },
    DirMove { source_file: SpecPath, new_location: Option<SpecPath>, moves: Seq<SpecMoveRecord> },
    SetImport { new_import: Seq<char> },
}

impl View for RewriteRule<'_> {
    type V = SpecRewriteRule;

    open spec fn view(&self) -> SpecRewriteRule {
        match self {
            RewriteRule::SourceMove { old_location, new_location } => SpecRewriteRule::SourceMove {
                old_location: old_location@,
                new_location: new_location@,
            },
            RewriteRule::ImportMove { source_file, old_location, new_location } => SpecRewriteRule::ImportMove {
                source_file: source_file@,
                old_location: old_location@,
                new_location: new_location@,
            },
            RewriteRule::DirMove { source_file, new_location, moves } => SpecRewriteRule::DirMove {
                source_file: source_file@,
                new_location: match new_location {
                    Some(p) => Some(p@),
                    None => None,
                },
                moves: moves.deep_view(),
            },
            RewriteRule::SetImport { new_import } => SpecRewriteRule::SetImport {
                new_import: new_import@,
            },
        }
    }
}

/// The first moved file that the import string denotes; a record whose test
/// cannot be computed is passed over.
pub open spec fn spec_find_move(
    source_file: SpecPath,
    moves: Seq<SpecMoveRecord>,
    import: Seq<char>,
) -> Option<SpecMoveRecord>
    decreases moves.len(),
{
    if moves.len() == 0 {
        None
    } else if spec_is_import_from(source_file, moves.first().old_location, import) == Ok::<
        bool,
        Error,
    >(true) {
        Some(moves.first())
    } else {
        spec_find_move(source_file, moves.drop_first(), import)
    }
}

/// What one relative import string becomes under a rule.
pub open spec fn spec_apply_rule(rule: SpecRewriteRule, import: Seq<char>) -> Result<
    Seq<char>,
    Error,
> {
    match rule {
        SpecRewriteRule::SourceMove { old_location, new_location } => spec_rename_source_file(
            old_location,
            new_location,
            import,
        ),
        SpecRewriteRule::ImportMove { source_file, old_location, new_location } => spec_rename_required_file(
            source_file,
            import,
            old_location,
            new_location,
        ),
        SpecRewriteRule::DirMove { source_file, new_location, moves } => {
            let step = match spec_find_move(source_file, moves, import) {
                Some(rec) => spec_rename_required_file(
                    source_file,
                    import,
                    rec.old_location,
                    rec.new_location,
                ),
                None => Ok(import),
            };
            match step {
                Err(e) => Err(e),
                Ok(s) => match new_location {
                    Some(target) => spec_rename_source_file(source_file, target, s),
                    None => Ok(s),
                },
            }
        },
        SpecRewriteRule::SetImport { new_import } => Ok(new_import),
    }
}

fn find_move_index(source_file: &FilePath, moves: &Vec<MoveRecord>, import: &str, i: usize) -> (r:
    Option<usize>)
    requires
        i <= moves.len(),
    ensures
        match r {
            Some(j) => i <= j < moves.len() && spec_find_move(
                source_file@,
                moves.deep_view().skip(i as int),
                import@,
            ) == Some(moves.deep_view()[j as int]),
            None => spec_find_move(source_file@, moves.deep_view().skip(i as int), import@)
                is None,
        },
    decreases moves.len() - i,
{
    if i == moves.len() {
        proof {
            assert(moves.deep_view().skip(i as int) =~= Seq::<SpecMoveRecord>::empty());
        }
        return None;
    }
    proof {
        assert(moves.deep_view().skip(i as int).first() == moves.deep_view()[i as int]);
        assert(moves.deep_view().skip(i as int).drop_first() =~= moves.deep_view().skip(i + 1));
    }
    let matched = match is_import_from(source_file, &moves[i].old_location, import) {
        Ok(b) => b,
        Err(_) => false,
    };
    if matched {
        Some(i)
    } else {
        find_move_index(source_file, moves, import, i + 1)
    }
}

/// Applies the rule to one relative import string.
pub fn apply_rule(rule: &RewriteRule<'_>, import: &str) -> (r: Result<String, Error>)
    ensures
        ({
            let d = spec_apply_rule(rule@, import@);
            match r {
                Ok(s) => d == Ok::<Seq<char>, Error>(s@),
                Err(e) => d == Err::<Seq<char>, Error>(e),
            }
        }),
{
    match rule {
        RewriteRule::SourceMove { old_location, new_location } => {
            let args = SourceFileRename { old_location, new_location, import_string: import };
            rename_source_file(&args)
        },
        RewriteRule::ImportMove { source_file, old_location, new_location } => {
            let args = RequiredFileRename {
                source_file,
                import_string: import,
                old_location,
                new_location,
            };
            rename_required_file(&args)
        },
        RewriteRule::DirMove { source_file, new_location, moves } => {
            proof {
                assert(moves.deep_view().skip(0) =~= moves.deep_view());
            }
            let step = match find_move_index(source_file, moves, import, 0) {
                Some(j) => {
                    let args = RequiredFileRename {
                        source_file,
                        import_string: import,
                        old_location: &moves[j].old_location,
                        new_location: &moves[j].new_location,
                    };
                    rename_required_file(&args)?
                },
                None => String::from_str(import),
            };
            match new_location {
                Some(target) => {
                    let args = SourceFileRename {
                        old_location: source_file,
                        new_location: target,
                        import_string: step.as_str(),
                    };
                    rename_source_file(&args)
                },
                None => Ok(step),
            }
        },
        RewriteRule::SetImport { new_import } => Ok(String::from_str(new_import)),
    }
}

/// What the engine computes, span by span: each located literal's inner text
/// is read from the buffer as it then stands; text that does not begin with
/// `.` is passed over untouched; otherwise the rule decides the new string,
/// and a differing result is spliced in. The flag records whether any edit
/// landed; a span that does not fit the buffer is a parse failure.
pub open spec fn spec_rewrite_spans(
    text: Seq<char>,
    spans: Seq<(nat, nat, nat, nat)>,
    rule: SpecRewriteRule,
    changed: bool,
) -> Result<(Seq<char>, bool), Error>
    decreases spans.len(),
{
    if spans.len() == 0 {
        Ok((text, changed))
    } else {
        match spec_inner_range(text, spans.first()) {
            None => Err(Error::ParseFailure),
            Some((s, e)) => {
                let old = text.subrange(s, e);
                if starts_with_dot(old) {
                    match spec_apply_rule(rule, old) {
                        Err(err) => Err(err),
                        Ok(new) => if new == old {
                            spec_rewrite_spans(text, spans.drop_first(), rule, changed)
                        } else {
                            spec_rewrite_spans(
                                text.take(s) + new + text.skip(e),
                                spans.drop_first(),
                                rule,
                                true,
                            )
                        },
                    }
                } else {
                    spec_rewrite_spans(text, spans.drop_first(), rule, changed)
                }
            },
        }
    }
}

/// Applies the rule at every located span, editing the buffer in place, and
/// reports whether anything changed.
pub fn rewrite_spans(source_code: &str, spans: &Vec<TextSlice>, rule: &RewriteRule<'_>) -> (r:
    Result<(String, bool), Error>)
    ensures
        ({
            let d = spec_rewrite_spans(source_code@, spans.deep_view(), rule@, false);
            match r {
                Ok(p) => d == Ok::<(Seq<char>, bool), Error>((p.0@, p.1)),
                Err(e) => d == Err::<(Seq<char>, bool), Error>(e),
            }
        }),
{
    let mut text = String::from_str(source_code);
    let mut changed = false;
    let n = spans.len();
    let mut i: usize = 0;
    proof {
        assert(spans.deep_view().skip(0) =~= spans.deep_view());
    }
    while i < n
        invariant
            i <= n,
            n == spans.len(),
            spec_rewrite_spans(source_code@, spans.deep_view(), rule@, false) == spec_rewrite_spans(
                text@,
                spans.deep_view().skip(i as int),
                rule@,
                changed,
            ),
        decreases n - i,
    {
        proof {
            assert(spans.deep_view().skip(i as int).first() == spans.deep_view()[i as int]);
            assert(spans.deep_view().skip(i as int).drop_first() =~= spans.deep_view().skip(i + 1));
        }
        let slice = &spans[i];
        match slice.to_index_range(text.as_str()) {
            None => {
                return Err(Error::ParseFailure);
            },
            Some((s, e)) => {
                let old = String::from_str(text.as_str().substring_char(s, e));
                let is_rel = old.as_str().unicode_len() > 0 && old.as_str().get_char(0) == '.';
                if is_rel {
                    let stepped = apply_rule(rule, old.as_str());
                    match stepped {
                        Err(err) => {
                            return Err(err);
                        },
                        Ok(new) => {
                            if !str_eq(new.as_str(), old.as_str()) {
                                let ghost tprev = text@;
                                text = splice(text.as_str(), s, e, new.as_str());
                                changed = true;
                                proof {
                                    assert(text@ == tprev.take(s as int) + new@ + tprev.skip(
                                        e as int,
                                    ));
                                }
                            }
                        },
                    }
                }
            },
        }
        i = i + 1;
    }
    proof {
        assert(spans.deep_view().skip(n as int) =~= Seq::<(nat, nat, nat, nat)>::empty());
    }
    Ok((text, changed))
}

/// Locates every import string under the chosen grammar and applies the rule
/// to each relative one; the flag reports whether any edit landed.
pub fn replace_rel_imports(source_code: &str, lang: &Lang, rule: &RewriteRule<'_>) -> (r: Result<
    (String, bool),
    Error,
>)
    ensures
        ({
            let d = spec_rewrite_spans(
                source_code@,
                import_spans(source_code@, *lang is TypeScriptTsx),
                rule@,
                false,
            );
            match r {
                Ok(p) => d == Ok::<(Seq<char>, bool), Error>((p.0@, p.1)),
                Err(e) => d == Err::<(Seq<char>, bool), Error>(e),
            }
        }),
{
    let spans = find_import_spans(source_code, lang)?;
    rewrite_spans(source_code, &spans, rule)
}

/// Rewrites the relative imports of a file that moved from `source_file` to
/// `target_file`, so that each keeps denoting the same location: every
/// relative import is resolved against the old location and re-expressed
/// from the new one.
pub fn update_imports(source_code: String, source_file: &FilePath, target_file: &FilePath) -> (r:
    Result<String, Error>)
    ensures
        ({
            match spec_infer_lang(source_file@) {
                Err(e) => r == Err::<String, Error>(e),
                Ok(lang) => {
                    let d = spec_rewrite_spans(
                        source_code@,
                        import_spans(source_code@, lang is TypeScriptTsx),
                        SpecRewriteRule::SourceMove {
                            old_location: source_file@,
                            new_location: target_file@,
                        },
                        false,
                    );
                    match r {
                        Ok(t) => d is Ok && d->Ok_0.0 == t@,
                        Err(e) => d == Err::<(Seq<char>, bool), Error>(e),
                    }
                },
            }
        }),
{
    let lang = infer_langauge_from_suffix(source_file)?;
    let rule = RewriteRule::SourceMove { old_location: source_file, new_location: target_file };
    let stepped = replace_rel_imports(source_code.as_str(), &lang, &rule)?;
    Ok(stepped.0)
}

/// Rewrites the imports of a file whose dependency moved: each relative
/// import denoting `old_import_location` is pointed at
/// `new_import_location`, keeping an extension if and only if the import
/// wrote one; all others are kept as written.
pub fn update_import(
    source_code: &str,
    source_file: &FilePath,
    old_import_location: &FilePath,
    new_import_location: &FilePath,
) -> (r: Result<String, Error>)
    ensures
        ({
            match spec_infer_lang(source_file@) {
                Err(e) => r == Err::<String, Error>(e),
                Ok(lang) => {
                    let d = spec_rewrite_spans(
                        source_code@,
                        import_spans(source_code@, lang is TypeScriptTsx),
                        SpecRewriteRule::ImportMove {
                            source_file: source_file@,
                            old_location: old_import_location@,
                            new_location: new_import_location@,
                        },
                        false,
                    );
                    match r {
                        Ok(t) => d is Ok && d->Ok_0.0 == t@,
                        Err(e) => d == Err::<(Seq<char>, bool), Error>(e),
                    }
                },
            }
        }),
{
    let lang = infer_langauge_from_suffix(source_file)?;
    let rule = RewriteRule::ImportMove {
        source_file,
        old_location: old_import_location,
        new_location: new_import_location,
    };
    let stepped = replace_rel_imports(source_code, &lang, &rule)?;
    Ok(stepped.0)
}

/// Replaces every relative import string of the file with `new_import`.
/// `None` reports that no literal changed, so a caller can skip the write.
pub fn replace_imports(path: &FilePath, source_code: &str, new_import: &str) -> (r: Result<
    Option<String>,
    Error,
>)
    ensures
        ({
            match spec_infer_lang(path@) {
                Err(e) => r == Err::<Option<String>, Error>(e),
                Ok(lang) => {
                    let d = spec_rewrite_spans(
                        source_code@,
                        import_spans(source_code@, lang is TypeScriptTsx),
                        SpecRewriteRule::SetImport { new_import: new_import@ },
                        false,
                    );
                    match r {
                        Ok(Some(t)) => d == Ok::<(Seq<char>, bool), Error>((t@, true)),
                        Ok(None) => d == Ok::<(Seq<char>, bool), Error>((source_code@, false)),
                        Err(e) => d == Err::<(Seq<char>, bool), Error>(e),
                    }
                },
            }
        }),
{
    let lang = infer_langauge_from_suffix(path)?;
    let rule = RewriteRule::SetImport { new_import };
    let stepped = replace_rel_imports(source_code, &lang, &rule)?;
    let (text, changed) = stepped;
    if changed {
        Ok(Some(text))
    } else {
        proof {
            lemma_unchanged_means_same_text(
                source_code@,
                import_spans(source_code@, lang is TypeScriptTsx),
                rule@,
            );
        }
        Ok(None)
    }
}

/// Rewrites the text of a file that itself moved as one of a set of moved
/// files: imports of moved dependencies are re-aimed first, and every
/// relative import is then re-expressed from the file's new location.
pub fn update_moved_file(
    source_code: &str,
    source_file: &FilePath,
    target_file: &FilePath,
    moves: &Vec<MoveRecord>,
) -> (r: Result<String, Error>)
    ensures
        ({
            match spec_infer_lang(source_file@) {
                Err(e) => r == Err::<String, Error>(e),
                Ok(lang) => {
                    let d = spec_rewrite_spans(
                        source_code@,
                        import_spans(source_code@, lang is TypeScriptTsx),
                        SpecRewriteRule::DirMove {
                            source_file: source_file@,
                            new_location: Some(target_file@),
                            moves: moves.deep_view(),
                        },
                        false,
                    );
                    match r {
                        Ok(t) => d is Ok && d->Ok_0.0 == t@,
                        Err(e) => d == Err::<(Seq<char>, bool), Error>(e),
                    }
                },
            }
        }),
{
    let lang = infer_langauge_from_suffix(source_file)?;
    let rule = RewriteRule::DirMove { source_file, new_location: Some(target_file), moves };
    let stepped = replace_rel_imports(source_code, &lang, &rule)?;
    Ok(stepped.0)
}

/// Rewrites the text of a file that stayed in place while a set of other
/// files moved: each relative import denoting a moved file is re-aimed at
/// its new location; all others are kept as written.
pub fn update_dependent_file(
    source_code: &str,
    source_file: &FilePath,
    moves: &Vec<MoveRecord>,
) -> (r: Result<String, Error>)
    ensures
        ({
            match spec_infer_lang(source_file@) {
                Err(e) => r == Err::<String, Error>(e),
                Ok(lang) => {
                    let d = spec_rewrite_spans(
                        source_code@,
                        import_spans(source_code@, lang is TypeScriptTsx),
                        SpecRewriteRule::DirMove {
                            source_file: source_file@,
                            new_location: None,
                            moves: moves.deep_view(),
                        },
                        false,
                    );
                    match r {
                        Ok(t) => d is Ok && d->Ok_0.0 == t@,
                        Err(e) => d == Err::<(Seq<char>, bool), Error>(e),
                    }
                },
            }
        }),
{
    let lang = infer_langauge_from_suffix(source_file)?;
    let rule = RewriteRule::DirMove { source_file, new_location: None, moves };
    let stepped = replace_rel_imports(source_code, &lang, &rule)?;
    Ok(stepped.0)
}

/// Law: the engine never edits a bare import string. On a text whose located
/// literals all lack the leading `.`, a run changes nothing and reports no
/// change, whatever the rule.
pub proof fn lemma_bare_imports_untouched(
    text: Seq<char>,
    spans: Seq<(nat, nat, nat, nat)>,
    rule: SpecRewriteRule,
    changed: bool,
)
    requires
        forall|i: int|
            0 <= i < spans.len() ==> ({
                let r = spec_inner_range(text, #[trigger] spans[i]);
                r is Some && !starts_with_dot(text.subrange(r->Some_0.0, r->Some_0.1))
            }),
    ensures
        spec_rewrite_spans(text, spans, rule, changed) == Ok::<(Seq<char>, bool), Error>(
            (text, changed),
        ),
    decreases spans.len(),
{
    if spans.len() > 0 {
        assert(spans[0] == spans.first());
        assert(forall|i: int|
            0 <= i < spans.drop_first().len() ==> #[trigger] spans.drop_first()[i] == spans[i + 1]);
        lemma_bare_imports_untouched(text, spans.drop_first(), rule, changed);
    }
}

/// Law: the engine consults the rule only on relative import strings. Two
/// rules that agree on every string starting with `.` produce the same run,
/// whatever the text holds besides — so what a rule would do to a bare
/// import can never show in the result.
pub proof fn lemma_engine_reads_only_relative(
    text: Seq<char>,
    spans: Seq<(nat, nat, nat, nat)>,
    rule1: SpecRewriteRule,
    rule2: SpecRewriteRule,
    changed: bool,
)
    requires
        forall|s: Seq<char>|
            starts_with_dot(s) ==> spec_apply_rule(rule1, s) == spec_apply_rule(rule2, s),
    ensures
        spec_rewrite_spans(text, spans, rule1, changed) == spec_rewrite_spans(
            text,
            spans,
            rule2,
            changed,
        ),
    decreases spans.len(),
{
    if spans.len() > 0 {
        match spec_inner_range(text, spans.first()) {
            None => {},
            Some((s, e)) => {
                let old = text.subrange(s, e);
                if starts_with_dot(old) {
                    assert(spec_apply_rule(rule1, old) == spec_apply_rule(rule2, old));
                    match spec_apply_rule(rule1, old) {
                        Err(_) => {},
                        Ok(new) => {
                            if new == old {
                                lemma_engine_reads_only_relative(
                                    text,
                                    spans.drop_first(),
                                    rule1,
                                    rule2,
                                    changed,
                                );
                            } else {
                                lemma_engine_reads_only_relative(
                                    text.take(s) + new + text.skip(e),
                                    spans.drop_first(),
                                    rule1,
                                    rule2,
                                    true,
                                );
                            }
                        },
                    }
                } else {
                    lemma_engine_reads_only_relative(
                        text,
                        spans.drop_first(),
                        rule1,
                        rule2,
                        changed,
                    );
                }
            },
        }
    }
}

proof fn lemma_changed_sticky(text: Seq<char>, spans: Seq<(nat, nat, nat, nat)>, rule: SpecRewriteRule)
    requires
        spec_rewrite_spans(text, spans, rule, true) is Ok,
    ensures
        spec_rewrite_spans(text, spans, rule, true)->Ok_0.1 == true,
    decreases spans.len(),
{
    if spans.len() > 0 {
        match spec_inner_range(text, spans.first()) {
            None => {},
            Some((s, e)) => {
                let old = text.subrange(s, e);
                if starts_with_dot(old) {
                    match spec_apply_rule(rule, old) {
                        Err(_) => {},
                        Ok(new) => {
                            if new == old {
                                lemma_changed_sticky(text, spans.drop_first(), rule);
                            } else {
                                lemma_changed_sticky(
                                    text.take(s) + new + text.skip(e),
                                    spans.drop_first(),
                                    rule,
                                );
                            }
                        },
                    }
                } else {
                    lemma_changed_sticky(text, spans.drop_first(), rule);
                }
            },
        }
    }
}

/// Law: a run that reports no change hands the text back exactly as it was,
/// so "unchanged" really means the file need not be written.
pub proof fn lemma_unchanged_means_same_text(
    text: Seq<char>,
    spans: Seq<(nat, nat, nat, nat)>,
    rule: SpecRewriteRule,
)
    requires
        spec_rewrite_spans(text, spans, rule, false) is Ok,
        spec_rewrite_spans(text, spans, rule, false)->Ok_0.1 == false,
    ensures
        spec_rewrite_spans(text, spans, rule, false)->Ok_0.0 == text,
    decreases spans.len(),
{
    if spans.len() > 0 {
        match spec_inner_range(text, spans.first()) {
            None => {},
            Some((s, e)) => {
                let old = text.subrange(s, e);
                if starts_with_dot(old) {
                    match spec_apply_rule(rule, old) {
                        Err(_) => {},
                        Ok(new) => {
                            if new == old {
                                lemma_unchanged_means_same_text(text, spans.drop_first(), rule);
                            } else {
                                lemma_changed_sticky(
                                    text.take(s) + new + text.skip(e),
                                    spans.drop_first(),
                                    rule,
                                );
                                assert(false);
                            }
                        },
                    }
                } else {
                    lemma_unchanged_means_same_text(text, spans.drop_first(), rule);
                }
            },
        }
    }
}

} // verus!
