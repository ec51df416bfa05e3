use vstd::prelude::*;
use vstd::string::StrSliceExecFns;
use vstd::string::StringExecFns;

verus! {

/// Character-for-character equality of two string slices.
pub fn str_eq(a: &str, b: &str) -> (r: bool)
    ensures
        r == (a@ == b@),
{
    let na = a.unicode_len();
    let nb = b.unicode_len();
    if na != nb {
        return false;
    }
    let mut i: usize = 0;
    while i < na
        invariant
            i <= na,
            na == a@.len(),
            nb == b@.len(),
            na == nb,
            forall|j: int| 0 <= j < i ==> a@[j] == b@[j],
        decreases na - i,
    {
        if a.get_char(i) != b.get_char(i) {
            return false;
        }
        i = i + 1;
    }
    proof {
        assert(a@ =~= b@);
    }
    true
}

/// The index of the first newline at or after `from`, or the text's length
/// when no newline remains.
pub open spec fn find_newline(text: Seq<char>, from: nat) -> int
    decreases text.len() - from,
{
    if from >= text.len() {
        text.len() as int
    } else if text[from as int] == '\n' {
        from as int
    } else {
        find_newline(text, from + 1)
    }
}

/// The character index at which the given line starts, counting lines as
/// text split at `\n`; rows past the last line land on the text's end.
pub open spec fn spec_line_start(text: Seq<char>, row: nat) -> int
    decreases row,
{
    if row == 0 {
        0
    } else {
        let p = spec_line_start(text, (row - 1) as nat);
        if p >= text.len() {
            text.len() as int
        } else {
            let q = find_newline(text, p as nat);
            if q < text.len() {
                q + 1
            } else {
                text.len() as int
            }
        }
    }
}

proof fn lemma_find_newline_bounds(text: Seq<char>, from: nat)
    ensures
        from <= text.len() ==> from <= find_newline(text, from),
        find_newline(text, from) <= text.len(),
    decreases text.len() - from,
{
    if from < text.len() && text[from as int] != '\n' {
        lemma_find_newline_bounds(text, from + 1);
    }
}

proof fn lemma_line_start_bounds(text: Seq<char>, row: nat)
    ensures
        0 <= spec_line_start(text, row) <= text.len(),
    decreases row,
{
    if row > 0 {
        lemma_line_start_bounds(text, (row - 1) as nat);
        lemma_find_newline_bounds(text, spec_line_start(text, (row - 1) as nat) as nat);
    }
}

proof fn lemma_line_start_saturates(text: Seq<char>, low: nat, row: nat)
    requires
        low <= row,
        spec_line_start(text, low) >= text.len(),
    ensures
        spec_line_start(text, row) == text.len(),
    decreases row - low,
{
    lemma_line_start_bounds(text, low);
    if low == row {
    } else {
        lemma_line_start_saturates(text, (low + 1) as nat, row);
    }
}

/// The character index where line `row` starts, with rows past the last
/// line landing on the end of the text.
pub fn line_start(text: &str, row: usize) -> (r: usize)
    ensures
        r as int == spec_line_start(text@, row as nat),
        r <= text@.len(),
{
    let n = text.unicode_len();
    let mut pos: usize = 0;
    let mut line: usize = 0;
    while line < row
        invariant
            line <= row,
            pos <= n,
            n == text@.len(),
            pos as int == spec_line_start(text@, line as nat),
        decreases row - line,
    {
        if pos >= n {
            proof {
                lemma_line_start_saturates(text@, line as nat, row as nat);
            }
            return n;
        }
        let mut q = pos;
        while q < n && text.get_char(q) != '\n'
            invariant
                pos <= q <= n,
                n == text@.len(),
                find_newline(text@, pos as nat) == find_newline(text@, q as nat),
            decreases n - q,
        {
            q = q + 1;
        }
        if q < n {
            pos = q + 1;
        } else {
            pos = n;
        }
        line = line + 1;
    }
    pos
}

/// The text with the characters of `[start, end)` replaced by `insert`.
pub fn splice(text: &str, start: usize, end: usize, insert: &str) -> (r: String)
    requires
        start <= end <= text@.len(),
    ensures
        r@ == text@.take(start as int) + insert@ + text@.skip(end as int),
{
    let n = text.unicode_len();
    let pre = text.substring_char(0, start);
    let post = text.substring_char(end, n);
    let r = String::from_str(pre).concat(insert).concat(post);
    proof {
        assert(text@.subrange(0, start as int) =~= text@.take(start as int));
        assert(text@.subrange(end as int, n as int) =~= text@.skip(end as int));
    }
    r
}

} // verus!
