use vstd::prelude::*;
use vstd::string::StrSliceExecFns;
use vstd::string::StringExecFns;
use crate::buffer::str_eq;
use crate::error::Error;
use crate::path::FilePath;
use crate::path::SpecPath;
use crate::path::spec_get_parent;
use crate::path::spec_join;
use crate::path::spec_parse_path;
use crate::path::spec_render_path;
use crate::path::spec_diff;
use crate::path::get_parent;
use crate::path::parse_path;
use crate::path::render_path;
use crate::path::join;
use crate::path::diff;

verus! {

/// The text ends with the given suffix.
pub open spec fn ends_with(s: Seq<char>, suffix: Seq<char>) -> bool {
    s.len() >= suffix.len() && s.skip(s.len() - suffix.len()) == suffix
}

/// The text with its last `k` characters removed.
pub open spec fn chop(s: Seq<char>, k: int) -> Seq<char> {
    s.take(s.len() - k)
}

/// The endings an import string may leave off, in the order they are tried:
/// `/index` with each recognized extension, then `index` with each, then a
/// bare extension. The recognized extensions are `ts`, `tsx`, `js`, `jsx`.
pub open spec fn suffix_list() -> Seq<Seq<char>> {
    let ts = seq!['.', 't', 's'];
    let tsx = seq!['.', 't', 's', 'x'];
    let js = seq!['.', 'j', 's'];
    let jsx = seq!['.', 'j', 's', 'x'];
    let index = seq!['i', 'n', 'd', 'e', 'x'];
    let slash = seq!['/'];
    seq![
        slash + index + ts,
        slash + index + tsx,
        slash + index + js,
        slash + index + jsx,
        index + ts,
        index + tsx,
        index + js,
        index + jsx,
        ts,
        tsx,
        js,
        jsx,
    ]
}

/// Tries the suffixes from position `i` on; the first that matches is
/// removed, and text matching none is returned unchanged.
pub open spec fn try_strip(s: Seq<char>, i: int) -> Seq<char>
    decreases suffix_list().len() - i,
{
    if i >= suffix_list().len() {
        s
    } else if ends_with(s, suffix_list()[i]) {
        chop(s, suffix_list()[i].len() as int)
    } else {
        try_strip(s, i + 1)
    }
}

/// What [`to_node_import`] computes: the first matching resolvable suffix
/// removed, or the input unchanged.
pub open spec fn spec_to_node_import(s: Seq<char>) -> Seq<char> {
    try_strip(s, 0)
}

proof fn lemma_try_strip_skip(s: Seq<char>, k: int, i: int)
    requires
        0 <= k <= i <= suffix_list().len(),
        forall|j: int| k <= j < i ==> !ends_with(s, #[trigger] suffix_list()[j]),
    ensures
        try_strip(s, k) == try_strip(s, i),
    decreases i - k,
{
    if k < i {
        lemma_try_strip_skip(s, k + 1, i);
    }
}

proof fn lemma_try_strip_hit(s: Seq<char>, i: int)
    requires
        0 <= i < suffix_list().len(),
        forall|j: int| 0 <= j < i ==> !ends_with(s, #[trigger] suffix_list()[j]),
        ends_with(s, suffix_list()[i]),
    ensures
        spec_to_node_import(s) == chop(s, suffix_list()[i].len() as int),
{
    lemma_try_strip_skip(s, 0, i);
}

/// If the text ends with `suffix`, the text without that ending, else `None`.
fn try_suffix<'a>(s: &'a str, suffix: &str) -> (r: Option<&'a str>)
    ensures
        match r {
            Some(t) => ends_with(s@, suffix@) && t@ == chop(s@, suffix@.len() as int),
            None => !ends_with(s@, suffix@),
        },
{
    let n = s.unicode_len();
    let m = suffix.unicode_len();
    if m > n {
        return None;
    }
    let mut j: usize = 0;
    while j < m
        invariant
            j <= m,
            m <= n,
            n == s@.len(),
            m == suffix@.len(),
            forall|i: int| 0 <= i < j ==> s@[n - m + i] == suffix@[i],
        decreases m - j,
    {
        if s.get_char(n - m + j) != suffix.get_char(j) {
            proof {
                assert(s@.skip(n as int - m as int)[j as int] != suffix@[j as int]);
            }
            return None;
        }
        j = j + 1;
    }
    proof {
        assert(s@.skip(n as int - m as int) =~= suffix@);
    }
    Some(s.substring_char(0, n - m))
}

/// Strips the first matching resolvable suffix from the end of an import
/// string: `/index.<ext>` first, then `index.<ext>`, then `.<ext>`, for the
/// extensions `ts`, `tsx`, `js`, `jsx`. Anything else, such as an asset
/// ending like `.svg`, is left exactly as written.
pub fn to_node_import<'a>(import_string: &'a str) -> (r: &'a str)
    ensures
        r@ == spec_to_node_import(import_string@),
{
    let mut sufs: Vec<&str> = Vec::new();
    sufs.push("/index.ts");
    sufs.push("/index.tsx");
    sufs.push("/index.js");
    sufs.push("/index.jsx");
    sufs.push("index.ts");
    sufs.push("index.tsx");
    sufs.push("index.js");
    sufs.push("index.jsx");
    sufs.push(".ts");
    sufs.push(".tsx");
    sufs.push(".js");
    sufs.push(".jsx");
    proof {
        reveal_strlit("/index.ts");
        reveal_strlit("/index.tsx");
        reveal_strlit("/index.js");
        reveal_strlit("/index.jsx");
        reveal_strlit("index.ts");
        reveal_strlit("index.tsx");
        reveal_strlit("index.js");
        reveal_strlit("index.jsx");
        reveal_strlit(".ts");
        reveal_strlit(".tsx");
        reveal_strlit(".js");
        reveal_strlit(".jsx");
        assert(sufs@[0]@ =~= suffix_list()[0]);
        assert(sufs@[1]@ =~= suffix_list()[1]);
        assert(sufs@[2]@ =~= suffix_list()[2]);
        assert(sufs@[3]@ =~= suffix_list()[3]);
        assert(sufs@[4]@ =~= suffix_list()[4]);
        assert(sufs@[5]@ =~= suffix_list()[5]);
        assert(sufs@[6]@ =~= suffix_list()[6]);
        assert(sufs@[7]@ =~= suffix_list()[7]);
        assert(sufs@[8]@ =~= suffix_list()[8]);
        assert(sufs@[9]@ =~= suffix_list()[9]);
        assert(sufs@[10]@ =~= suffix_list()[10]);
        assert(sufs@[11]@ =~= suffix_list()[11]);
    }
    let count = sufs.len();
    let mut i: usize = 0;
    while i < count
        invariant
            count == 12,
            sufs.len() == 12,
            suffix_list().len() == 12,
            forall|k: int| 0 <= k < 12 ==> #[trigger] sufs@[k]@ == suffix_list()[k],
            forall|k: int| 0 <= k < i ==> !ends_with(import_string@, #[trigger] suffix_list()[k]),
        decreases count - i,
    {
        match try_suffix(import_string, sufs[i]) {
            Some(t) => {
                proof {
                    lemma_try_strip_hit(import_string@, i as int);
                }
                return t;
            },
            None => {},
        }
        i = i + 1;
    }
    proof {
        lemma_try_strip_skip(import_string@, 0, 12);
    }
    import_string
}

/// The text begins with a `.`, the mark of a relative import.
pub open spec fn starts_with_dot(s: Seq<char>) -> bool {
    s.len() > 0 && s[0] == '.'
}

/// What [`from_relative_path`] computes: the rendered path kept as written
/// when it already starts with `.`, `.` for an empty path, and `./` put in
/// front of anything else.
pub open spec fn spec_from_relative_path(p: SpecPath) -> Seq<char> {
    let s = spec_render_path(p);
    if starts_with_dot(s) {
        s
    } else if s.len() == 0 {
        seq!['.']
    } else {
        seq!['.', '/'] + s
    }
}

/// Writes a relative path as an import string. A path in this library is
/// already text, so unlike a raw operating-system path this can never fail
/// to be representable.
pub fn from_relative_path(rel_path: &FilePath) -> (r: String)
    ensures
        r@ == spec_from_relative_path(rel_path@),
{
    let s = render_path(rel_path);
    let n = s.as_str().unicode_len();
    if n > 0 && s.as_str().get_char(0) == '.' {
        s
    } else if n == 0 {
        let r = String::from_str(".");
        proof {
            reveal_strlit(".");
            assert(r@ =~= seq!['.']);
        }
        r
    } else {
        let r = String::from_str("./").concat(s.as_str());
        proof {
            reveal_strlit("./");
            assert("./"@ =~= seq!['.', '/']);
        }
        r
    }
}

/// What [`to_path`] computes: the import string read as a path, joined onto
/// the file's directory and normalized.
pub open spec fn spec_to_path(file: SpecPath, import_string: Seq<char>) -> Option<SpecPath> {
    spec_join(spec_get_parent(file), spec_parse_path(import_string))
}

/// Resolves an import string written in `file` to the location it denotes:
/// the string is read as a path relative to `file`'s directory.
pub fn to_path(file: &FilePath, import_string: &str) -> (r: Result<FilePath, Error>)
    ensures
        match r {
            Ok(q) => spec_to_path(file@, import_string@) == Some(q@),
            Err(e) => spec_to_path(file@, import_string@) is None && e == Error::PathEscapesRoot,
        },
{
    let dir = get_parent(file);
    let import_path = parse_path(import_string);
    join(&dir, &import_path)
}

/// What [`from_paths`] computes: the relative path from `file`'s directory
/// to `required_file`, written as an import string.
pub open spec fn spec_from_paths(file: SpecPath, required_file: SpecPath) -> Result<
    Seq<char>,
    Error,
> {
    match spec_diff(spec_get_parent(file), required_file) {
        Ok(rel) => Ok(spec_from_relative_path(rel)),
        Err(e) => Err(e),
    }
}

/// The import string a file at `file` would use to reach `required_file`,
/// extension kept exactly as the target path carries it.
pub fn from_paths(file: &FilePath, required_file: &FilePath) -> (r: Result<String, Error>)
    ensures
        ({
            let d = spec_from_paths(file@, required_file@);
            match r {
                Ok(s) => d == Ok::<Seq<char>, Error>(s@),
                Err(e) => d == Err::<Seq<char>, Error>(e),
            }
        }),
{
    let file_dir = get_parent(file);
    let rel_path = diff(&file_dir, required_file)?;
    Ok(from_relative_path(&rel_path))
}

/// What [`is_import_from`] computes: the import string equals the relative
/// form, the suffix-stripped form, or the suffix-stripped form with `/index`
/// put back.
pub open spec fn spec_is_import_from(
    source_file: SpecPath,
    required_file: SpecPath,
    import_string: Seq<char>,
) -> Result<bool, Error> {
    match spec_from_paths(source_file, required_file) {
        Ok(rel) => {
            let wo_index = spec_to_node_import(rel);
            let with_index = wo_index + seq!['/', 'i', 'n', 'd', 'e', 'x'];
            Ok(import_string == rel || import_string == wo_index || import_string == with_index)
        },
        Err(e) => Err(e),
    }
}

/// Whether `import_string`, written in `source_file`, denotes
/// `required_file`: the string is held against the three equivalent surface
/// forms of that target, with extension and with `/index` left off.
pub fn is_import_from(source_file: &FilePath, required_file: &FilePath, import_string: &str) -> (r:
    Result<bool, Error>)
    ensures
        ({
            let d = spec_is_import_from(source_file@, required_file@, import_string@);
            match r {
                Ok(b) => d == Ok::<bool, Error>(b),
                Err(e) => d == Err::<bool, Error>(e),
            }
        }),
{
    let rel_string = from_paths(source_file, required_file)?;
    let wo_index = to_node_import(rel_string.as_str());
    let with_index = String::from_str(wo_index).concat("/index");
    proof {
        reveal_strlit("/index");
        assert("/index"@ =~= seq!['/', 'i', 'n', 'd', 'e', 'x']);
    }
    Ok(
        str_eq(import_string, rel_string.as_str()) || str_eq(import_string, wo_index) || str_eq(
            import_string,
            with_index.as_str(),
        ),
    )
}

/// The segment carries an extension: it is not `..`, and a `.` stands
/// somewhere after its first character.
pub open spec fn seg_has_extension(seg: Seq<char>) -> bool {
    if seg == seq!['.', '.'] {
        false
    } else {
        exists|i: int| 1 <= i < seg.len() && seg[i] == '.'
    }
}

/// What extension preservation looks at: whether the last segment of the
/// import string carries an extension.
pub open spec fn spec_import_has_extension(s: Seq<char>) -> bool {
    let segs = crate::path::split_path(s);
    segs.len() > 0 && seg_has_extension(segs.last())
}

fn seg_has_ext(seg: &str) -> (r: bool)
    ensures
        r == seg_has_extension(seg@),
{
    if str_eq(seg, "..") {
        proof {
            reveal_strlit("..");
            assert(seg@ =~= seq!['.', '.']);
        }
        return false;
    }
    proof {
        reveal_strlit("..");
        assert(seq!['.', '.'] =~= ".."@);
    }
    let n = seg.unicode_len();
    let mut i: usize = 1;
    while i < n
        invariant
            1 <= i,
            n == seg@.len(),
            seg@ != seq!['.', '.'],
            forall|j: int| 1 <= j < i ==> seg@[j] != '.',
        decreases n - i,
    {
        if seg.get_char(i) == '.' {
            return true;
        }
        i = i + 1;
    }
    false
}

/// Whether the import string's last segment carries an extension.
pub fn import_has_extension(s: &str) -> (r: bool)
    ensures
        r == spec_import_has_extension(s@),
{
    let p = parse_path(s);
    if p.segs.len() == 0 {
        false
    } else {
        seg_has_ext(p.segs[p.segs.len() - 1].as_str())
    }
}

/// A file's move from one location to another, as it bears on the relative
/// import strings written inside that file.
pub struct SourceFileRename<'a> {
    pub old_location: &'a FilePath,
    pub new_location: &'a FilePath,
    pub import_string: &'a str,
}

/// What [`rename_source_file`] computes: the import target resolved against
/// the old location, then re-expressed from the new one.
pub open spec fn spec_rename_source_file(
    old_location: SpecPath,
    new_location: SpecPath,
    import_string: Seq<char>,
) -> Result<Seq<char>, Error> {
    match spec_to_path(old_location, import_string) {
        Some(p) => spec_from_paths(new_location, p),
        None => Err(Error::PathEscapesRoot),
    }
}

/// Rewrites one relative import of a file that itself moved: the string is
/// resolved from the old location and written back out from the new one.
pub fn rename_source_file(args: &SourceFileRename<'_>) -> (r: Result<String, Error>)
    ensures
        ({
            let d = spec_rename_source_file(
                args.old_location@,
                args.new_location@,
                args.import_string@,
            );
            match r {
                Ok(s) => d == Ok::<Seq<char>, Error>(s@),
                Err(e) => d == Err::<Seq<char>, Error>(e),
            }
        }),
{
    let path = to_path(args.old_location, args.import_string)?;
    from_paths(args.new_location, &path)
}

/// A dependency's move from one location to another, as it bears on one
/// import string of a file that stays where it is.
pub struct RequiredFileRename<'a> {
    pub source_file: &'a FilePath,
    pub import_string: &'a str,
    pub old_location: &'a FilePath,
    pub new_location: &'a FilePath,
}

/// What [`rename_required_file`] computes: strings that do not denote the
/// moved file pass through; those that do are re-aimed at the new location,
/// keeping an extension exactly when the original string had one.
pub open spec fn spec_rename_required_file(
    source_file: SpecPath,
    import_string: Seq<char>,
    old_location: SpecPath,
    new_location: SpecPath,
) -> Result<Seq<char>, Error> {
    match spec_is_import_from(source_file, old_location, import_string) {
        Err(e) => Err(e),
        Ok(false) => Ok(import_string),
        Ok(true) => match spec_from_paths(source_file, new_location) {
            Err(e) => Err(e),
            Ok(new_import) => Ok(
                if spec_import_has_extension(import_string) {
                    new_import
                } else {
                    spec_to_node_import(new_import)
                },
            ),
        },
    }
}

/// Rewrites one import of a file whose dependency moved. A string that does
/// not denote the moved dependency is returned unchanged; one that does is
/// re-expressed toward the new location, with the extension kept if and only
/// if the original string wrote one.
pub fn rename_required_file(args: &RequiredFileRename<'_>) -> (r: Result<String, Error>)
    ensures
        ({
            let d = spec_rename_required_file(
                args.source_file@,
                args.import_string@,
                args.old_location@,
                args.new_location@,
            );
            match r {
                Ok(s) => d == Ok::<Seq<char>, Error>(s@),
                Err(e) => d == Err::<Seq<char>, Error>(e),
            }
        }),
{
    if !is_import_from(args.source_file, args.old_location, args.import_string)? {
        return Ok(String::from_str(args.import_string));
    }
    let has_ext = import_has_extension(args.import_string);
    let new_import_string = from_paths(args.source_file, args.new_location)?;
    if has_ext {
        Ok(new_import_string)
    } else {
        Ok(String::from_str(to_node_import(new_import_string.as_str())))
    }
}

/// Law: suffix stripping is a no-op on any import string that ends with none
/// of the resolvable suffixes — in particular on asset endings like `.svg`.
pub proof fn lemma_to_node_import_noop(s: Seq<char>)
    requires
        forall|i: int| 0 <= i < suffix_list().len() ==> !ends_with(s, #[trigger] suffix_list()[i]),
    ensures
        spec_to_node_import(s) == s,
{
    lemma_try_strip_skip(s, 0, suffix_list().len() as int);
}

proof fn lemma_try_strip_exact(s: Seq<char>, k: int)
    requires
        0 <= k <= suffix_list().len(),
    ensures
        try_strip(s, k).len() <= s.len(),
        try_strip(s, k) == s.take(try_strip(s, k).len() as int),
        try_strip(s, k).len() < s.len() ==> exists|i: int|
            0 <= i < suffix_list().len() && s.skip(try_strip(s, k).len() as int)
                == #[trigger] suffix_list()[i],
    decreases suffix_list().len() - k,
{
    if k >= suffix_list().len() {
        assert(s.take(s.len() as int) =~= s);
    } else if ends_with(s, suffix_list()[k]) {
        let m = suffix_list()[k].len() as int;
        if m == 0 {
            assert(try_strip(s, k) =~= s.take(s.len() as int));
            assert(s.take(s.len() as int) =~= s);
        } else {
            assert(s.skip(s.len() - m) == suffix_list()[k]);
        }
    } else {
        lemma_try_strip_exact(s, k + 1);
    }
}

/// Law: suffix stripping only ever removes a matched resolvable suffix, and
/// removes it exactly at the end: the result is a prefix of the input, and
/// whatever was cut off is one of the resolvable suffixes.
pub proof fn lemma_to_node_import_exact(s: Seq<char>)
    ensures
        spec_to_node_import(s).len() <= s.len(),
        spec_to_node_import(s) == s.take(spec_to_node_import(s).len() as int),
        spec_to_node_import(s).len() < s.len() ==> exists|i: int|
            0 <= i < suffix_list().len() && s.skip(spec_to_node_import(s).len() as int)
                == #[trigger] suffix_list()[i],
{
    lemma_try_strip_exact(s, 0);
}

/// Law: recognition accepts exactly the three equivalent surface forms of a
/// target — the full relative form, the suffix-stripped form, and the
/// stripped form with `/index` put back — and rejects every other string.
pub proof fn lemma_is_import_from_forms(source_file: SpecPath, required_file: SpecPath)
    requires
        spec_from_paths(source_file, required_file) is Ok,
    ensures
        ({
            let rel = spec_from_paths(source_file, required_file)->Ok_0;
            let wo_index = spec_to_node_import(rel);
            let with_index = wo_index + seq!['/', 'i', 'n', 'd', 'e', 'x'];
            &&& spec_is_import_from(source_file, required_file, rel) == Ok::<bool, Error>(true)
            &&& spec_is_import_from(source_file, required_file, wo_index) == Ok::<bool, Error>(true)
            &&& spec_is_import_from(source_file, required_file, with_index) == Ok::<bool, Error>(
                true,
            )
            &&& forall|other: Seq<char>|
                other != rel && other != wo_index && other != with_index
                    ==> spec_is_import_from(source_file, required_file, other) == Ok::<bool, Error>(
                    false,
                )
        }),
{
}

/// Law: an import string computed by [`diff`] resolves back to the place it
/// was computed for. For any directory `d` and target `t` under the same
/// anchor, both normalizable, writing `diff(d, t)` as an import string and
/// resolving that string against `d` gives `normalize(t)`.
pub proof fn lemma_import_round_trip(d: SpecPath, t: SpecPath)
    requires
        crate::path::path_wf(d),
        crate::path::path_wf(t),
        d.absolute == t.absolute,
        crate::path::spec_normalize(d) is Some,
        crate::path::spec_normalize(t) is Some,
    ensures
        spec_diff(d, t) is Ok,
        spec_join(d, spec_parse_path(spec_from_relative_path(spec_diff(d, t)->Ok_0)))
            == crate::path::spec_normalize(t),
{
    let nd = crate::path::spec_normalize(d)->Some_0;
    let nt = crate::path::spec_normalize(t)->Some_0;
    let k = crate::path::lcp_len(nd.segs, nt.segs);
    crate::path::lemma_lcp_bounds(nd.segs, nt.segs);
    crate::path::lemma_lcp_agree(nd.segs, nt.segs);
    let m = nd.segs.len() - k;
    let rel = spec_diff(d, t)->Ok_0;
    assert(rel.segs == crate::path::repeat_parent(m) + nt.segs.skip(k));
    assert(!rel.absolute);

    crate::path::lemma_norm_segs_wf(t.segs);
    crate::path::lemma_norm_segs_wf(d.segs);
    crate::path::lemma_norm_segs_normal(t.segs);
    assert(forall|i: int| 0 <= i < rel.segs.len() ==> crate::path::seg_wf(#[trigger] rel.segs[i]))
        by {
        assert forall|i: int| 0 <= i < rel.segs.len() implies crate::path::seg_wf(
            #[trigger] rel.segs[i],
        ) by {
            if i < crate::path::repeat_parent(m).len() {
                assert(rel.segs[i] == seq!['.', '.']);
                assert(crate::path::seg_wf(seq!['.', '.']));
            } else {
                assert(rel.segs[i] == nt.segs.skip(k)[i - crate::path::repeat_parent(m).len()]);
            }
        }
    }

    let rendered = crate::path::spec_render_path(rel);
    let rs = spec_from_relative_path(rel);
    let parsed = spec_parse_path(rs);

    // How the import string reads back: its segments are those of `rel`,
    // possibly behind one leading `.`, and it is never anchored.
    if rel.segs.len() == 0 {
        assert(m <= 0 && nt.segs.skip(k).len() == 0);
        assert(k == nd.segs.len() && k == nt.segs.len());
        assert(nd.segs =~= nt.segs);
        assert(rendered.len() == 0);
        assert(rs == seq!['.']);
        assert(crate::path::split_path(seq!['.']) =~= seq![seq!['.']]) by {
            assert(seq!['.'].drop_last().len() == 0);
            assert(crate::path::split_path(seq!['.'].drop_last())
                =~= Seq::<Seq<char>>::empty());
            assert(seq!['.'].last() == '.');
            assert(seq![seq!['.'].last()] =~= seq!['.']);
        }
        assert(parsed.segs =~= seq![seq!['.']]);
        assert(!parsed.absolute);
        assert(parsed.segs =~= seq![seq!['.']] + rel.segs);
        lemma_join_resolves(d, nd, parsed.segs, rel.segs, nt);
    } else {
        crate::path::lemma_split_render(rel.segs);
        crate::path::lemma_render_first(rel.segs);
        if starts_with_dot(rendered) {
            assert(rs == rendered);
            assert(parsed.segs == rel.segs);
            assert(rendered[0] == rel.segs[0][0]);
            assert(rel.segs[0][0] != '/');
            assert(!parsed.absolute);
            lemma_join_resolves(d, nd, parsed.segs, rel.segs, nt);
        } else {
            assert(rs == seq!['.', '/'] + rendered);
            assert(rs =~= seq!['.'] + seq!['/'] + rendered);
            crate::path::lemma_split_append(seq!['.'], rendered);
            assert(crate::path::split_path(seq!['.']) =~= seq![seq!['.']]) by {
                assert(seq!['.'].drop_last().len() == 0);
                assert(crate::path::split_path(seq!['.'].drop_last())
                    =~= Seq::<Seq<char>>::empty());
                assert(seq![seq!['.'].last()] =~= seq!['.']);
            }
            assert(parsed.segs =~= seq![seq!['.']] + rel.segs);
            assert(rs[0] == '.');
            assert(!parsed.absolute);
            lemma_join_resolves(d, nd, parsed.segs, rel.segs, nt);
        }
    }
}

/// Joining `d` with the parsed import string (whose segments are `rel`'s,
/// behind an optional leading `.`) lands on the normalized target.
proof fn lemma_join_resolves(
    d: SpecPath,
    nd: SpecPath,
    parsed_segs: Seq<Seq<char>>,
    rel_segs: Seq<Seq<char>>,
    nt: SpecPath,
)
    requires
        crate::path::spec_normalize(d) == Some(nd),
        parsed_segs == seq![seq!['.']] + rel_segs || parsed_segs == rel_segs,
        rel_segs == crate::path::repeat_parent(nd.segs.len() - crate::path::lcp_len(nd.segs, nt.segs))
            + nt.segs.skip(crate::path::lcp_len(nd.segs, nt.segs)),
        forall|j: int| 0 <= j < crate::path::lcp_len(nd.segs, nt.segs) ==> nd.segs[j] == nt.segs[j],
        crate::path::lcp_len(nd.segs, nt.segs) <= nd.segs.len(),
        crate::path::lcp_len(nd.segs, nt.segs) <= nt.segs.len(),
        0 <= crate::path::lcp_len(nd.segs, nt.segs),
        forall|i: int|
            0 <= i < nt.segs.len() ==> !crate::path::is_cur_seg(#[trigger] nt.segs[i])
                && !crate::path::is_parent_seg(nt.segs[i]),
    ensures
        crate::path::norm_segs(d.segs + parsed_segs) == Some(nt.segs),
{
    let k = crate::path::lcp_len(nd.segs, nt.segs);
    let m = nd.segs.len() - k;
    let par = crate::path::repeat_parent(m);
    let names = nt.segs.skip(k);

    crate::path::lemma_norm_segs_resume(d.segs + parsed_segs);
    crate::path::lemma_norm_segs_resume(d.segs);
    crate::path::lemma_norm_resume_append(Seq::empty(), d.segs, parsed_segs);
    assert(crate::path::norm_resume(Seq::empty(), d.segs) == Some(nd.segs));

    // Resolving a leading `.` leaves the stack alone.
    let after_dot = if parsed_segs == seq![seq!['.']] + rel_segs {
        seq![seq!['.']]
    } else {
        Seq::<Seq<char>>::empty()
    };
    assert(parsed_segs =~= after_dot + rel_segs);
    crate::path::lemma_norm_resume_append(nd.segs, after_dot, rel_segs);
    assert(crate::path::norm_resume(nd.segs, after_dot) == Some(nd.segs)) by {
        if after_dot.len() > 0 {
            assert(after_dot.drop_last().len() == 0);
            assert(crate::path::norm_resume(nd.segs, after_dot.drop_last()) == Some(nd.segs));
            assert(after_dot.last() == seq!['.']);
            assert(crate::path::is_cur_seg(seq!['.']));
        }
    }

    assert(rel_segs =~= par + names);
    crate::path::lemma_norm_resume_append(nd.segs, par, names);
    crate::path::lemma_norm_resume_parents(nd.segs, m);
    assert(crate::path::norm_resume(nd.segs, par) == Some(nd.segs.take(k)));
    crate::path::lemma_norm_resume_names(nd.segs.take(k), names);
    assert(forall|i: int|
        0 <= i < names.len() ==> !crate::path::is_cur_seg(#[trigger] names[i])
            && !crate::path::is_parent_seg(names[i]));
    assert(crate::path::norm_resume(nd.segs.take(k), names) == Some(nd.segs.take(k) + names));
    assert(nd.segs.take(k) =~= nt.segs.take(k));
    assert(nt.segs.take(k) + names =~= nt.segs);
    assert(crate::path::norm_segs(d.segs + parsed_segs) == Some(nt.segs));
}

} // verus!
