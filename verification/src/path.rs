use vstd::prelude::*;
use crate::buffer::str_eq;
use crate::error::Error;

verus! {

/// A slash-separated file-system-style path, handled purely as text.
///
/// A path is a flag saying whether it is anchored at the root, followed by its
/// segments in order. `.` and `..` are ordinary segments until [`normalize`]
/// resolves them; no operation here ever touches a real file system.
#[derive(Debug)]
pub struct FilePath {
    pub absolute: bool,
    pub segs: Vec<String>,
}

/// The mathematical shape of a [`FilePath`]: the anchor flag and the segments
/// as sequences of characters.
pub struct SpecPath {
    pub absolute: bool,
    pub segs: Seq<Seq<char>>,
}

impl View for FilePath {
    type V = SpecPath;

    open spec fn view(&self) -> SpecPath {
        SpecPath { absolute: self.absolute, segs: self.segs.deep_view() }
    }
}

/// The segment `.`, which names the directory it stands in.
pub open spec fn is_cur_seg(s: Seq<char>) -> bool {
    s == seq!['.']
}

/// The segment `..`, which names the enclosing directory.
pub open spec fn is_parent_seg(s: Seq<char>) -> bool {
    s == seq!['.', '.']
}

/// A segment as parsing produces it: non-empty and free of `/`.
pub open spec fn seg_wf(s: Seq<char>) -> bool {
    &&& s.len() > 0
    &&& forall|i: int| 0 <= i < s.len() ==> s[i] != '/'
}

/// Every segment of the path is well formed.
pub open spec fn path_wf(p: SpecPath) -> bool {
    forall|i: int| 0 <= i < p.segs.len() ==> seg_wf(#[trigger] p.segs[i])
}

/// Left-to-right resolution of `.` and `..` against the preceding name
/// segments; `None` when a `..` has no preceding name left to cancel.
pub open spec fn norm_segs(segs: Seq<Seq<char>>) -> Option<Seq<Seq<char>>>
    decreases segs.len(),
{
    if segs.len() == 0 {
        Some(Seq::empty())
    } else {
        match norm_segs(segs.drop_last()) {
            None => None,
            Some(st) => {
                let s = segs.last();
                if is_cur_seg(s) {
                    Some(st)
                } else if is_parent_seg(s) {
                    if st.len() > 0 {
                        Some(st.drop_last())
                    } else {
                        None
                    }
                } else {
                    Some(st.push(s))
                }
            },
        }
    }
}

/// What [`normalize`] computes: the same anchor, with `.` and `..` resolved.
pub open spec fn spec_normalize(p: SpecPath) -> Option<SpecPath> {
    match norm_segs(p.segs) {
        None => None,
        Some(s) => Some(SpecPath { absolute: p.absolute, segs: s }),
    }
}

proof fn lemma_norm_segs_none_extends(segs: Seq<Seq<char>>, i: int)
    requires
        0 <= i <= segs.len(),
        norm_segs(segs.take(i)) is None,
    ensures
        norm_segs(segs) is None,
    decreases segs.len() - i,
{
    if i < segs.len() {
        assert(segs.take(i + 1).drop_last() =~= segs.take(i));
        lemma_norm_segs_none_extends(segs, i + 1);
    } else {
        assert(segs.take(i) =~= segs);
    }
}

/// Collapses `.` segments and cancels each `..` against the name before it,
/// scanning the path once; fails when a `..` would climb above the start.
pub fn normalize(path: &FilePath) -> (r: Result<FilePath, Error>)
    ensures
        match r {
            Ok(q) => spec_normalize(path@) == Some(q@),
            Err(e) => spec_normalize(path@) is None && e == Error::PathEscapesRoot,
        },
{
    let mut stack: Vec<String> = Vec::new();
    let n = path.segs.len();
    for i in 0..n
        invariant
            n == path.segs.len(),
            norm_segs(path@.segs.take(i as int)) == Some(stack.deep_view()),
    {
        proof {
            assert(path@.segs.take(i + 1).drop_last() =~= path@.segs.take(i as int));
            assert(path@.segs.take(i + 1).last() == path@.segs[i as int]);
        }
        let ghost st = stack.deep_view();
        let seg = &path.segs[i];
        proof {
            assert(seg@ == path@.segs[i as int]);
        }
        if str_eq(seg.as_str(), ".") {
            proof {
                reveal_strlit(".");
                assert(seg@ =~= seq!['.']);
            }
        } else if str_eq(seg.as_str(), "..") {
            proof {
                reveal_strlit("..");
                assert(seg@ =~= seq!['.', '.']);
            }
            if stack.len() > 0 {
                let _ = stack.pop();
                proof {
                    assert(stack.deep_view() =~= st.drop_last());
                }
            } else {
                proof {
                    assert(norm_segs(path@.segs.take(i + 1)) is None);
                    lemma_norm_segs_none_extends(path@.segs, i + 1);
                }
                return Err(Error::PathEscapesRoot);
            }
        } else {
            proof {
                reveal_strlit(".");
                reveal_strlit("..");
                assert(seq!['.'] =~= "."@);
                assert(seq!['.', '.'] =~= ".."@);
                assert(!is_cur_seg(seg@));
                assert(!is_parent_seg(seg@));
            }
            stack.push(seg.clone());
            proof {
                assert(stack.deep_view() =~= st.push(seg@));
            }
        }
    }
    proof {
        assert(path@.segs.take(n as int) =~= path@.segs);
    }
    Ok(FilePath { absolute: path.absolute, segs: stack })
}

/// A fresh copy of a segment vector, its view kept segment for segment.
pub(crate) fn clone_segs(v: &Vec<String>) -> (r: Vec<String>)
    ensures
        r.deep_view() == v.deep_view(),
{
    let mut out: Vec<String> = Vec::new();
    let n = v.len();
    for i in 0..n
        invariant
            n == v.len(),
            out.deep_view() == v.deep_view().take(i as int),
    {
        let ghost dv = out.deep_view();
        out.push(v[i].clone());
        proof {
            assert(out.deep_view() =~= dv.push(v@[i as int]@));
            assert(out.deep_view() =~= v.deep_view().take(i + 1));
        }
    }
    proof {
        assert(v.deep_view().take(n as int) =~= v.deep_view());
    }
    out
}

impl FilePath {
    /// A fresh copy of this path with the same view.
    pub fn duplicate(&self) -> (r: FilePath)
        ensures
            r@ == self@,
    {
        FilePath { absolute: self.absolute, segs: clone_segs(&self.segs) }
    }
}

/// What [`get_parent`] computes: the path with its last segment dropped, or
/// the path itself when there is no segment to drop.
pub open spec fn spec_get_parent(p: SpecPath) -> SpecPath {
    if p.segs.len() > 0 {
        SpecPath { absolute: p.absolute, segs: p.segs.drop_last() }
    } else {
        p
    }
}

/// Drops the last segment of the path, purely textually.
pub fn get_parent(path: &FilePath) -> (r: FilePath)
    ensures
        r@ == spec_get_parent(path@),
{
    let mut segs = clone_segs(&path.segs);
    if segs.len() > 0 {
        let ghost dv = segs.deep_view();
        let _ = segs.pop();
        proof {
            assert(segs.deep_view() =~= dv.drop_last());
        }
    }
    FilePath { absolute: path.absolute, segs }
}

/// What [`join`] computes: the second path when it is absolute, otherwise the
/// concatenation, normalized either way.
pub open spec fn spec_join(dir: SpecPath, p: SpecPath) -> Option<SpecPath> {
    if p.absolute {
        spec_normalize(p)
    } else {
        spec_normalize(SpecPath { absolute: dir.absolute, segs: dir.segs + p.segs })
    }
}

/// Concatenates the two paths (an absolute second path replaces the first)
/// and normalizes the result.
pub fn join(dir: &FilePath, path: &FilePath) -> (r: Result<FilePath, Error>)
    ensures
        match r {
            Ok(q) => spec_join(dir@, path@) == Some(q@),
            Err(e) => spec_join(dir@, path@) is None && e == Error::PathEscapesRoot,
        },
{
    if path.absolute {
        normalize(path)
    } else {
        let mut segs = clone_segs(&dir.segs);
        let mut rest = clone_segs(&path.segs);
        let ghost a = segs.deep_view();
        let ghost b = rest.deep_view();
        segs.append(&mut rest);
        proof {
            assert(segs.deep_view() =~= a + b);
        }
        normalize(&FilePath { absolute: dir.absolute, segs })
    }
}

/// The number of leading segments the two sequences share.
pub open spec fn lcp_len(a: Seq<Seq<char>>, b: Seq<Seq<char>>) -> int
    decreases a.len(),
{
    if a.len() == 0 || b.len() == 0 || a[0] != b[0] {
        0
    } else {
        1 + lcp_len(a.drop_first(), b.drop_first())
    }
}

/// `k` segments, each of them `..`.
pub open spec fn repeat_parent(k: int) -> Seq<Seq<char>> {
    if k <= 0 {
        Seq::empty()
    } else {
        Seq::new(k as nat, |i: int| seq!['.', '.'])
    }
}

/// What [`diff`] computes: normalize both paths; pass an absolute target
/// through unchanged when the start is relative; refuse the reverse; else
/// climb out of the unshared part of the start and descend into the target.
pub open spec fn spec_diff(from: SpecPath, to: SpecPath) -> Result<SpecPath, Error> {
    match (spec_normalize(from), spec_normalize(to)) {
        (Some(nf), Some(nt)) => {
            if nt.absolute && !nf.absolute {
                Ok(nt)
            } else if nf.absolute && !nt.absolute {
                Err(Error::NoRelativePath)
            } else {
                let k = lcp_len(nf.segs, nt.segs);
                Ok(
                    SpecPath {
                        absolute: false,
                        segs: repeat_parent(nf.segs.len() - k) + nt.segs.skip(k),
                    },
                )
            }
        },
        _ => Err(Error::PathEscapesRoot),
    }
}

proof fn lemma_lcp_from_index(a: Seq<Seq<char>>, b: Seq<Seq<char>>, k: int)
    requires
        0 <= k <= a.len(),
        k <= b.len(),
        forall|j: int| 0 <= j < k ==> a[j] == b[j],
        k == a.len() || k == b.len() || a[k] != b[k],
    ensures
        lcp_len(a, b) == k,
    decreases k,
{
    if k == 0 {
    } else {
        lemma_lcp_from_index(a.drop_first(), b.drop_first(), k - 1);
    }
}

pub(crate) proof fn lemma_lcp_bounds(a: Seq<Seq<char>>, b: Seq<Seq<char>>)
    ensures
        0 <= lcp_len(a, b) <= a.len(),
        lcp_len(a, b) <= b.len(),
    decreases a.len(),
{
    if a.len() == 0 || b.len() == 0 || a[0] != b[0] {
    } else {
        lemma_lcp_bounds(a.drop_first(), b.drop_first());
    }
}

/// The relative path a file sitting in `from_path` would use to reach
/// `to_path`: shared leading segments are walked over, one `..` is emitted
/// for each remaining segment of `from_path`, and the remaining segments of
/// `to_path` follow.
pub fn diff(from_path: &FilePath, to_path: &FilePath) -> (r: Result<FilePath, Error>)
    ensures
        ({
            let d = spec_diff(from_path@, to_path@);
            match r {
                Ok(q) => d == Ok::<SpecPath, Error>(q@),
                Err(e) => d == Err::<SpecPath, Error>(e),
            }
        }),
{
    let nf = normalize(from_path)?;
    let nt = normalize(to_path)?;
    if nt.absolute && !nf.absolute {
        return Ok(nt);
    }
    if nf.absolute && !nt.absolute {
        return Err(Error::NoRelativePath);
    }
    let na = nf.segs.len();
    let nb = nt.segs.len();
    let mut k: usize = 0;
    while k < na && k < nb && str_eq(nf.segs[k].as_str(), nt.segs[k].as_str())
        invariant
            0 <= k <= na,
            k <= nb,
            na == nf.segs.len(),
            nb == nt.segs.len(),
            forall|j: int| 0 <= j < k ==> nf@.segs[j] == nt@.segs[j],
        decreases na - k,
    {
        k = k + 1;
    }
    proof {
        lemma_lcp_from_index(nf@.segs, nt@.segs, k as int);
    }
    let mut segs: Vec<String> = Vec::new();
    let mut i: usize = k;
    while i < na
        invariant
            k <= i <= na,
            na == nf.segs.len(),
            segs.deep_view() == repeat_parent(i - k),
        decreases na - i,
    {
        let ghost dv = segs.deep_view();
        segs.push(String::from_str(".."));
        proof {
            reveal_strlit("..");
            assert(".."@ =~= seq!['.', '.']);
            assert(segs.deep_view() =~= dv.push(seq!['.', '.']));
            assert(segs.deep_view() =~= repeat_parent(i + 1 - k));
        }
        i = i + 1;
    }
    let mut j: usize = k;
    while j < nb
        invariant
            k <= j <= nb,
            nb == nt.segs.len(),
            segs.deep_view() == repeat_parent(na as int - k as int) + nt@.segs.subrange(
                k as int,
                j as int,
            ),
        decreases nb - j,
    {
        let ghost dv = segs.deep_view();
        segs.push(nt.segs[j].clone());
        proof {
            assert(segs.deep_view() =~= dv.push(nt@.segs[j as int]));
            assert(segs.deep_view() =~= repeat_parent(na as int - k as int) + nt@.segs.subrange(
                k as int,
                j + 1,
            ));
        }
        j = j + 1;
    }
    proof {
        assert(segs.deep_view() =~= repeat_parent(na as int - k as int) + nt@.segs.skip(k as int));
    }
    Ok(FilePath { absolute: false, segs })
}

/// What [`move_path`] computes: when `file` lies under `source`, the same
/// trailing segments re-anchored under `target`; `None` otherwise.
pub open spec fn spec_move_path(file: SpecPath, source: SpecPath, target: SpecPath) -> Option<
    SpecPath,
> {
    if file.absolute == source.absolute && source.segs.len() <= file.segs.len() && file.segs.take(
        source.segs.len() as int,
    ) == source.segs {
        Some(
            SpecPath {
                absolute: target.absolute,
                segs: target.segs + file.segs.skip(source.segs.len() as int),
            },
        )
    } else if !source.absolute && source.segs.len() == 0 && file.absolute {
        Some(file)
    } else {
        None
    }
}

/// Re-anchors `file_path` under `target_path` when it lies under
/// `source_path`, segment for segment; `None` when it does not.
pub fn move_path(file_path: &FilePath, source_path: &FilePath, target_path: &FilePath) -> (r:
    Option<FilePath>)
    ensures
        match r {
            Some(q) => spec_move_path(file_path@, source_path@, target_path@) == Some(q@),
            None => spec_move_path(file_path@, source_path@, target_path@) is None,
        },
{
    let ns = source_path.segs.len();
    if file_path.absolute == source_path.absolute && ns <= file_path.segs.len() {
        let mut i: usize = 0;
        proof {
            assert(file_path@.segs.take(0) =~= source_path@.segs.take(0));
        }
        while i < ns
            invariant
                0 <= i <= ns,
                ns == source_path.segs.len(),
                ns <= file_path.segs.len(),
                file_path@.segs.take(i as int) == source_path@.segs.take(i as int),
            decreases ns - i,
        {
            let ghost fp = file_path@.segs;
            let ghost sp = source_path@.segs;
            if !str_eq(file_path.segs[i].as_str(), source_path.segs[i].as_str()) {
                proof {
                    assert(fp.take(ns as int)[i as int] != sp[i as int]);
                    assert(file_path@.segs.take(ns as int) != source_path@.segs);
                }
                return None;
            }
            proof {
                assert(fp.take(i + 1) =~= fp.take(i as int).push(fp[i as int]));
                assert(sp.take(i + 1) =~= sp.take(i as int).push(sp[i as int]));
            }
            i = i + 1;
        }
        let mut segs = clone_segs(&target_path.segs);
        let mut idx: usize = ns;
        let nfile = file_path.segs.len();
        while idx < nfile
            invariant
                ns <= idx <= nfile,
                nfile == file_path.segs.len(),
                segs.deep_view() == target_path@.segs + file_path@.segs.subrange(
                    ns as int,
                    idx as int,
                ),
            decreases nfile - idx,
        {
            let ghost dv = segs.deep_view();
            segs.push(file_path.segs[idx].clone());
            proof {
                assert(segs.deep_view() =~= dv.push(file_path@.segs[idx as int]));
                assert(segs.deep_view() =~= target_path@.segs + file_path@.segs.subrange(
                    ns as int,
                    idx + 1,
                ));
            }
            idx = idx + 1;
        }
        proof {
            assert(segs.deep_view() =~= target_path@.segs + file_path@.segs.skip(ns as int));
            assert(file_path@.segs.take(ns as int) == source_path@.segs) by {
                assert(source_path@.segs.take(ns as int) =~= source_path@.segs);
            }
        }
        Some(FilePath { absolute: target_path.absolute, segs })
    } else if !source_path.absolute && source_path.segs.len() == 0 && file_path.absolute {
        Some(file_path.duplicate())
    } else {
        None
    }
}

/// Every segment a successful normalization leaves behind is a plain name.
pub(crate) proof fn lemma_norm_segs_normal(segs: Seq<Seq<char>>)
    requires
        norm_segs(segs) is Some,
    ensures
        forall|i: int|
            0 <= i < norm_segs(segs)->Some_0.len() ==> !is_cur_seg(
                #[trigger] norm_segs(segs)->Some_0[i],
            ) && !is_parent_seg(norm_segs(segs)->Some_0[i]),
    decreases segs.len(),
{
    if segs.len() > 0 {
        lemma_norm_segs_normal(segs.drop_last());
    }
}

/// A sequence of plain names normalizes to itself.
proof fn lemma_norm_of_normal(segs: Seq<Seq<char>>)
    requires
        forall|i: int|
            0 <= i < segs.len() ==> !is_cur_seg(#[trigger] segs[i]) && !is_parent_seg(segs[i]),
    ensures
        norm_segs(segs) == Some(segs),
    decreases segs.len(),
{
    if segs.len() == 0 {
        assert(norm_segs(segs) == Some(Seq::<Seq<char>>::empty()));
        assert(segs =~= Seq::<Seq<char>>::empty());
    } else {
        lemma_norm_of_normal(segs.drop_last());
        assert(segs.drop_last().push(segs.last()) =~= segs);
    }
}

/// The segments of a path written as text: maximal runs of characters
/// between `/` separators, with empty runs dropped.
pub open spec fn split_path(s: Seq<char>) -> Seq<Seq<char>>
    decreases s.len(),
{
    if s.len() == 0 {
        Seq::empty()
    } else {
        let rest = split_path(s.drop_last());
        let c = s.last();
        if c == '/' {
            rest
        } else if s.len() == 1 || s[s.len() - 2] == '/' {
            rest.push(seq![c])
        } else {
            rest.drop_last().push(rest.last().push(c))
        }
    }
}

/// What [`parse_path`] computes: anchored iff the text starts with `/`, with
/// the `/`-separated runs as segments.
pub open spec fn spec_parse_path(s: Seq<char>) -> SpecPath {
    SpecPath { absolute: s.len() > 0 && s[0] == '/', segs: split_path(s) }
}

/// Splitting text whose last character is not `/` yields at least one segment.
proof fn lemma_split_path_nonempty(s: Seq<char>)
    requires
        s.len() > 0,
        s.last() != '/',
    ensures
        split_path(s).len() > 0,
{
}

/// Splitting a path's text only ever produces well-formed segments.
pub proof fn lemma_split_path_wf(s: Seq<char>)
    ensures
        forall|i: int| 0 <= i < split_path(s).len() ==> seg_wf(#[trigger] split_path(s)[i]),
    decreases s.len(),
{
    if s.len() > 0 {
        lemma_split_path_wf(s.drop_last());
        let rest = split_path(s.drop_last());
        let c = s.last();
        if c == '/' {
        } else if s.len() == 1 || s[s.len() - 2] == '/' {
            assert(seg_wf(seq![c]));
            assert forall|i: int| 0 <= i < split_path(s).len() implies seg_wf(
                #[trigger] split_path(s)[i],
            ) by {
                if i < rest.len() {
                    assert(split_path(s)[i] == rest[i]);
                }
            }
        } else {
            assert(s.drop_last().last() == s[s.len() - 2]);
            lemma_split_path_nonempty(s.drop_last());
            assert(seg_wf(rest.last()));
            assert(seg_wf(rest.last().push(c)));
            assert forall|i: int| 0 <= i < split_path(s).len() implies seg_wf(
                #[trigger] split_path(s)[i],
            ) by {
                if i < rest.len() - 1 {
                    assert(split_path(s)[i] == rest[i]);
                }
            }
        }
    }
}

/// Reads a path out of its textual form: a leading `/` anchors it, `/`
/// separates segments, and repeated separators are treated as one.
pub fn parse_path(s: &str) -> (r: FilePath)
    ensures
        r@ == spec_parse_path(s@),
{
    let n = s.unicode_len();
    let absolute = n > 0 && s.get_char(0) == '/';
    let mut segs: Vec<String> = Vec::new();
    let mut start: usize = 0;
    for i in 0..n
        invariant
            n == s@.len(),
            start <= i,
            start == 0 || s@[start as int - 1] == '/',
            forall|j: int| start <= j < i ==> s@[j] != '/',
            if start < i {
                split_path(s@.take(i as int)) == segs.deep_view().push(
                    s@.subrange(start as int, i as int),
                )
            } else {
                split_path(s@.take(i as int)) == segs.deep_view()
            },
    {
        let ghost t = s@.take(i + 1);
        proof {
            assert(t.drop_last() =~= s@.take(i as int));
            assert(t.last() == s@[i as int]);
        }
        if s.get_char(i) == '/' {
            if start < i {
                let ghost dv = segs.deep_view();
                segs.push(String::from_str(s.substring_char(start, i)));
                proof {
                    assert(segs.deep_view() =~= dv.push(s@.subrange(start as int, i as int)));
                }
            }
            start = i + 1;
        } else {
            proof {
                if start < i {
                    assert(s@[i - 1] != '/');
                    let prev = split_path(s@.take(i as int));
                    assert(prev.drop_last() =~= segs.deep_view());
                    assert(s@.subrange(start as int, i as int).push(s@[i as int]) =~= s@.subrange(
                        start as int,
                        i + 1,
                    ));
                    assert(split_path(t) =~= segs.deep_view().push(
                        s@.subrange(start as int, i + 1),
                    ));
                } else {
                    assert(i == 0 || s@[i - 1] == '/');
                    assert(s@.subrange(i as int, i + 1) =~= seq![s@[i as int]]);
                    assert(split_path(t) =~= segs.deep_view().push(s@.subrange(start as int, i + 1)));
                }
            }
        }
    }
    if start < n {
        let ghost dv = segs.deep_view();
        segs.push(String::from_str(s.substring_char(start, n)));
        proof {
            assert(s@.take(n as int) =~= s@);
            assert(segs.deep_view() =~= dv.push(s@.subrange(start as int, n as int)));
        }
    } else {
        proof {
            assert(s@.take(n as int) =~= s@);
        }
    }
    FilePath { absolute, segs }
}

/// The segments joined with `/`, without an anchor.
pub open spec fn render_segs(segs: Seq<Seq<char>>) -> Seq<char>
    decreases segs.len(),
{
    if segs.len() == 0 {
        Seq::empty()
    } else if segs.len() == 1 {
        segs[0]
    } else {
        render_segs(segs.drop_last()) + seq!['/'] + segs.last()
    }
}

/// What [`render_path`] computes: the segments joined with `/`, behind a
/// leading `/` when the path is anchored.
pub open spec fn spec_render_path(p: SpecPath) -> Seq<char> {
    if p.absolute {
        seq!['/'] + render_segs(p.segs)
    } else {
        render_segs(p.segs)
    }
}

/// Writes the path back out as text.
pub fn render_path(path: &FilePath) -> (r: String)
    ensures
        r@ == spec_render_path(path@),
{
    let ghost root: Seq<char> = if path.absolute {
        seq!['/']
    } else {
        Seq::empty()
    };
    let mut out = String::new();
    if path.absolute {
        out.append("/");
        proof {
            reveal_strlit("/");
            assert(out@ =~= root);
        }
    }
    let n = path.segs.len();
    for i in 0..n
        invariant
            n == path.segs.len(),
            root == if path@.absolute {
                seq!['/']
            } else {
                Seq::<char>::empty()
            },
            out@ == root + render_segs(path@.segs.take(i as int)),
    {
        proof {
            assert(path@.segs.take(i + 1).drop_last() =~= path@.segs.take(i as int));
            assert(path@.segs.take(i + 1).last() == path@.segs[i as int]);
        }
        if i > 0 {
            out.append("/");
            proof {
                reveal_strlit("/");
            }
        }
        out.append(path.segs[i].as_str());
        proof {
            if i == 0 {
                assert(render_segs(path@.segs.take(1)) == path@.segs.take(1)[0]);
                assert(out@ =~= root + render_segs(path@.segs.take(1)));
            } else {
                assert(render_segs(path@.segs.take(i + 1)) == render_segs(path@.segs.take(i as int))
                    + seq!['/'] + path@.segs[i as int]);
                assert(out@ =~= root + render_segs(path@.segs.take(i + 1)));
            }
        }
    }
    proof {
        assert(path@.segs.take(n as int) =~= path@.segs);
        assert(out@ =~= spec_render_path(path@));
    }
    out
}

/// Law: normalization is idempotent. Applying [`normalize`] to a path it has
/// already produced gives that path back unchanged.
pub proof fn lemma_normalize_idempotent(p: SpecPath)
    requires
        spec_normalize(p) is Some,
    ensures
        spec_normalize(spec_normalize(p)->Some_0) == spec_normalize(p),
{
    lemma_norm_segs_normal(p.segs);
    lemma_norm_of_normal(norm_segs(p.segs)->Some_0);
}

/// Normalization resumed on further segments from an already-resolved stack.
pub(crate) open spec fn norm_resume(st: Seq<Seq<char>>, segs: Seq<Seq<char>>) -> Option<
    Seq<Seq<char>>,
>
    decreases segs.len(),
{
    if segs.len() == 0 {
        Some(st)
    } else {
        match norm_resume(st, segs.drop_last()) {
            None => None,
            Some(st2) => {
                let s = segs.last();
                if is_cur_seg(s) {
                    Some(st2)
                } else if is_parent_seg(s) {
                    if st2.len() > 0 {
                        Some(st2.drop_last())
                    } else {
                        None
                    }
                } else {
                    Some(st2.push(s))
                }
            },
        }
    }
}

pub(crate) proof fn lemma_norm_segs_resume(segs: Seq<Seq<char>>)
    ensures
        norm_resume(Seq::empty(), segs) == norm_segs(segs),
    decreases segs.len(),
{
    if segs.len() > 0 {
        lemma_norm_segs_resume(segs.drop_last());
    }
}

pub(crate) proof fn lemma_norm_resume_append(st: Seq<Seq<char>>, x: Seq<Seq<char>>, y: Seq<Seq<char>>)
    ensures
        norm_resume(st, x + y) == (match norm_resume(st, x) {
            None => None,
            Some(m) => norm_resume(m, y),
        }),
    decreases y.len(),
{
    if y.len() == 0 {
        assert(x + y =~= x);
    } else {
        assert((x + y).drop_last() =~= x + y.drop_last());
        lemma_norm_resume_append(st, x, y.drop_last());
        assert((x + y).last() == y.last());
    }
}

pub(crate) proof fn lemma_norm_resume_parents(st: Seq<Seq<char>>, m: int)
    requires
        0 <= m <= st.len(),
    ensures
        norm_resume(st, repeat_parent(m)) == Some(st.take(st.len() - m)),
    decreases m,
{
    if m == 0 {
        assert(repeat_parent(0) =~= Seq::<Seq<char>>::empty());
        assert(st.take(st.len() as int) =~= st);
    } else {
        assert(repeat_parent(m).drop_last() =~= repeat_parent(m - 1));
        lemma_norm_resume_parents(st, m - 1);
        assert(repeat_parent(m).last() == seq!['.', '.']);
        assert(is_parent_seg(repeat_parent(m).last()));
        assert(!is_cur_seg(repeat_parent(m).last()));
        assert(st.take(st.len() - m + 1).drop_last() =~= st.take(st.len() - m));
    }
}

pub(crate) proof fn lemma_norm_resume_names(st: Seq<Seq<char>>, segs: Seq<Seq<char>>)
    requires
        forall|i: int|
            0 <= i < segs.len() ==> !is_cur_seg(#[trigger] segs[i]) && !is_parent_seg(segs[i]),
    ensures
        norm_resume(st, segs) == Some(st + segs),
    decreases segs.len(),
{
    if segs.len() == 0 {
        assert(st + segs =~= st);
    } else {
        lemma_norm_resume_names(st, segs.drop_last());
        assert((st + segs.drop_last()).push(segs.last()) =~= st + segs);
    }
}

/// Normalization of well-formed segments leaves only well-formed segments.
pub(crate) proof fn lemma_norm_segs_wf(segs: Seq<Seq<char>>)
    requires
        forall|i: int| 0 <= i < segs.len() ==> seg_wf(#[trigger] segs[i]),
        norm_segs(segs) is Some,
    ensures
        forall|i: int|
            0 <= i < norm_segs(segs)->Some_0.len() ==> seg_wf(#[trigger] norm_segs(segs)->Some_0[i]),
    decreases segs.len(),
{
    if segs.len() > 0 {
        assert(forall|i: int|
            0 <= i < segs.drop_last().len() ==> seg_wf(#[trigger] segs.drop_last()[i]));
        lemma_norm_segs_wf(segs.drop_last());
    }
}

pub(crate) proof fn lemma_lcp_agree(a: Seq<Seq<char>>, b: Seq<Seq<char>>)
    ensures
        forall|j: int| 0 <= j < lcp_len(a, b) ==> a[j] == b[j],
    decreases a.len(),
{
    if !(a.len() == 0 || b.len() == 0 || a[0] != b[0]) {
        lemma_lcp_agree(a.drop_first(), b.drop_first());
        lemma_lcp_bounds(a.drop_first(), b.drop_first());
        assert forall|j: int| 0 <= j < lcp_len(a, b) implies a[j] == b[j] by {
            if j > 0 {
                assert(0 <= j - 1 < lcp_len(a.drop_first(), b.drop_first()));
                assert(a.drop_first()[j - 1] == b.drop_first()[j - 1]);
                assert(a[j] == a.drop_first()[j - 1]);
                assert(b[j] == b.drop_first()[j - 1]);
            }
        }
    }
}

/// A single well-formed segment is read back as itself.
pub(crate) proof fn lemma_split_single(w: Seq<char>)
    requires
        seg_wf(w),
    ensures
        split_path(w) == seq![w],
    decreases w.len(),
{
    if w.len() == 1 {
        assert(w.last() != '/');
        assert(seq![w.last()] =~= w);
        assert(w.drop_last().len() == 0);
        assert(split_path(w.drop_last()) =~= Seq::<Seq<char>>::empty());
        assert(split_path(w) == split_path(w.drop_last()).push(seq![w.last()]));
        assert(split_path(w) =~= seq![w]);
    } else {
        assert(seg_wf(w.drop_last()));
        lemma_split_single(w.drop_last());
        assert(w[w.len() - 2] != '/');
        assert(w.last() != '/');
        let rest = split_path(w.drop_last());
        assert(rest.last() == w.drop_last());
        assert(rest.drop_last() =~= Seq::<Seq<char>>::empty());
        assert(w.drop_last().push(w.last()) =~= w);
        assert(split_path(w) =~= seq![w]);
    }
}

/// Splitting distributes over a `/` that joins two pieces of text.
pub(crate) proof fn lemma_split_append(x: Seq<char>, y: Seq<char>)
    ensures
        split_path(x + seq!['/'] + y) == split_path(x) + split_path(y),
    decreases y.len(),
{
    let s = x + seq!['/'] + y;
    if y.len() == 0 {
        assert(s.drop_last() =~= x);
        assert(s.last() == '/');
        assert(split_path(s) == split_path(x));
        assert(split_path(x) + split_path(y) =~= split_path(x));
    } else {
        lemma_split_append(x, y.drop_last());
        assert(s.drop_last() =~= x + seq!['/'] + y.drop_last());
        assert(s.last() == y.last());
        let prev = split_path(x) + split_path(y.drop_last());
        assert(split_path(s.drop_last()) == prev);
        if y.last() == '/' {
            assert(split_path(s) == prev);
            assert(split_path(y) == split_path(y.drop_last()));
        } else if y.len() == 1 || y[y.len() - 2] == '/' {
            assert(s.len() >= 2);
            assert(s[s.len() - 2] == if y.len() == 1 {
                '/'
            } else {
                y[y.len() - 2]
            });
            assert(split_path(s) == prev.push(seq![y.last()]));
            assert(split_path(y) == split_path(y.drop_last()).push(seq![y.last()]));
            assert(prev.push(seq![y.last()]) =~= split_path(x) + split_path(y));
        } else {
            assert(s[s.len() - 2] == y[y.len() - 2]);
            assert(y.drop_last().len() > 0 && y.drop_last().last() != '/');
            lemma_split_path_nonempty(y.drop_last());
            let ry = split_path(y.drop_last());
            assert(ry.len() > 0);
            assert(prev.last() == ry.last());
            assert(prev.drop_last() =~= split_path(x) + ry.drop_last());
            assert(split_path(s) == prev.drop_last().push(prev.last().push(y.last())));
            assert(split_path(y) == ry.drop_last().push(ry.last().push(y.last())));
            assert(split_path(s) =~= split_path(x) + split_path(y));
        }
    }
}

/// Rendering well-formed segments and reading them back is the identity.
pub(crate) proof fn lemma_split_render(segs: Seq<Seq<char>>)
    requires
        forall|i: int| 0 <= i < segs.len() ==> seg_wf(#[trigger] segs[i]),
    ensures
        split_path(render_segs(segs)) == segs,
    decreases segs.len(),
{
    if segs.len() == 0 {
        assert(split_path(render_segs(segs)) =~= segs);
    } else if segs.len() == 1 {
        lemma_split_single(segs[0]);
        assert(seq![segs[0]] =~= segs);
    } else {
        assert(forall|i: int|
            0 <= i < segs.drop_last().len() ==> seg_wf(#[trigger] segs.drop_last()[i]));
        lemma_split_render(segs.drop_last());
        lemma_split_single(segs.last());
        assert(render_segs(segs) == render_segs(segs.drop_last()) + seq!['/'] + segs.last());
        lemma_split_append(render_segs(segs.drop_last()), segs.last());
        assert(segs.drop_last() + seq![segs.last()] =~= segs);
    }
}

/// Rendering at least one well-formed segment yields text that opens with
/// the first character of the first segment.
pub(crate) proof fn lemma_render_first(segs: Seq<Seq<char>>)
    requires
        segs.len() > 0,
        forall|i: int| 0 <= i < segs.len() ==> seg_wf(#[trigger] segs[i]),
    ensures
        render_segs(segs).len() > 0,
        render_segs(segs)[0] == segs[0][0],
    decreases segs.len(),
{
    if segs.len() > 1 {
        assert(forall|i: int|
            0 <= i < segs.drop_last().len() ==> seg_wf(#[trigger] segs.drop_last()[i]));
        lemma_render_first(segs.drop_last());
    }
}

} // verus!
