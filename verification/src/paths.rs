//! Path and pattern handling around the extraction run: separator
//! normalization, the unconditional exclusion filter, splitting the
//! comma-separated pattern list, and making a file path relative to the
//! working directory.

use vstd::prelude::*;
use vstd::string::StringExecFns;

use crate::text::{chars_eq, chars_of, matches_at, occurs_at, string_from_chars};

verus! {

/// A path with every backslash replaced by a forward slash.
pub open spec fn normalized(s: Seq<char>) -> Seq<char> {
    s.map_values(|c: char| if c == '\\' { '/' } else { c })
}

/// Normalize a path's separators to forward slashes.
pub fn normalize_path(path: &str) -> (r: String)
    ensures
        r@ == normalized(path@),
{
    let cs = chars_of(path);
    let mut out: Vec<char> = Vec::new();
    let mut i: usize = 0;
    while i < cs.len()
        invariant
            cs@ == path@,
            i <= cs@.len(),
            out@ == normalized(path@).take(i as int),
        decreases cs@.len() - i,
    {
        let c = cs[i];
        if c == '\\' {
            out.push('/');
        } else {
            out.push(c);
        }
        i += 1;
        proof {
            assert(out@ =~= normalized(path@).take(i as int));
        }
    }
    proof {
        assert(out@ =~= normalized(path@));
    }
    string_from_chars(&out)
}

/// `w` stands as a whole segment of the slash-separated path `s` at
/// position `i`: delimited by separators or by the path's ends.
pub open spec fn is_segment_at(s: Seq<char>, w: Seq<char>, i: int) -> bool {
    &&& occurs_at(s, w, i)
    &&& (i == 0 || s[i - 1] == '/')
    &&& (i + w.len() == s.len() || s[i + w.len()] == '/')
}

/// `w` is one of the slash-separated segments of `s`.
pub open spec fn has_segment(s: Seq<char>, w: Seq<char>) -> bool {
    exists|i: int| is_segment_at(s, w, i)
}

/// Whether `needle` is a whole slash-separated segment of `hay`.
fn contains_segment(hay: &Vec<char>, needle: &Vec<char>) -> (r: bool)
    ensures
        r == has_segment(hay@, needle@),
{
    proof {
        assert(hay@.len() == hay.len());
    }
    if needle.len() > hay.len() {
        return false;
    }
    let bound = hay.len() - needle.len();
    let mut i: usize = 0;
    while i <= bound
        invariant
            hay@.len() <= usize::MAX,
            needle@.len() <= hay@.len(),
            bound == hay@.len() - needle@.len(),
            i <= bound + 1,
            forall|k: int| 0 <= k < i ==> !is_segment_at(hay@, needle@, k),
        decreases bound + 1 - i,
    {
        let starts_ok = i == 0 || hay[i - 1] == '/';
        if starts_ok && matches_at(hay, needle, i) {
            let end = i + needle.len();
            if end == hay.len() || hay[end] == '/' {
                proof {
                    assert(is_segment_at(hay@, needle@, i as int));
                }
                return true;
            }
        }
        if i == bound {
            return false;
        }
        i += 1;
    }
    false
}

/// Whether a (normalized) path is excluded from extraction: anything with a
/// `node_modules`, `dist` or `.nitro` path segment.
pub open spec fn excluded(s: Seq<char>) -> bool {
    ||| has_segment(s, "node_modules"@)
    ||| has_segment(s, "dist"@)
    ||| has_segment(s, ".nitro"@)
}

/// Whether a (normalized) path is excluded from extraction.
pub fn is_excluded_path(path: &str) -> (r: bool)
    ensures
        r == excluded(path@),
{
    let cs = chars_of(path);
    if contains_segment(&cs, &chars_of("node_modules")) {
        return true;
    }
    if contains_segment(&cs, &chars_of("dist")) {
        return true;
    }
    contains_segment(&cs, &chars_of(".nitro"))
}

/// A pattern prefixed with the working directory, unless that directory is
/// the current one.
pub fn join_pattern(cwd: &str, pattern: &str) -> (r: String)
    ensures
        r@ == if cwd@ == "."@ {
            pattern@
        } else {
            cwd@ + "/"@ + pattern@
        },
{
    let cc = chars_of(cwd);
    let dot = chars_of(".");
    if chars_eq(&cc, &dot) {
        pattern.to_owned()
    } else {
        let mut r = cwd.to_owned();
        r.append("/");
        r.append(pattern);
        r
    }
}

/// The Unicode white-space characters, trimmed from the ends of each
/// pattern: the tab-to-carriage-return run and the space, then the
/// non-ASCII members of the White_Space set.
pub open spec fn is_space(c: char) -> bool {
    ||| ('\u{9}' <= c <= '\u{d}')
    ||| c == ' '
    ||| c == '\u{85}'
    ||| c == '\u{a0}'
    ||| c == '\u{1680}'
    ||| ('\u{2000}' <= c <= '\u{200a}')
    ||| c == '\u{2028}'
    ||| c == '\u{2029}'
    ||| c == '\u{202f}'
    ||| c == '\u{205f}'
    ||| c == '\u{3000}'
}

/// Whether the character is Unicode white space.
fn is_space_char(c: char) -> (r: bool)
    ensures
        r == is_space(c),
{
    if ('\u{9}' <= c && c <= '\u{d}') || c == ' ' {
        return true;
    }
    if c == '\u{85}' || c == '\u{a0}' || c == '\u{1680}' {
        return true;
    }
    if '\u{2000}' <= c && c <= '\u{200a}' {
        return true;
    }
    c == '\u{2028}' || c == '\u{2029}' || c == '\u{202f}' || c == '\u{205f}' || c == '\u{3000}'
}

/// The sequence without its leading whitespace.
pub open spec fn trim_start(s: Seq<char>) -> Seq<char>
    decreases s.len(),
{
    if s.len() > 0 && is_space(s[0]) {
        trim_start(s.drop_first())
    } else {
        s
    }
}

/// The sequence without its trailing whitespace.
pub open spec fn trim_end(s: Seq<char>) -> Seq<char>
    decreases s.len(),
{
    if s.len() > 0 && is_space(s.last()) {
        trim_end(s.drop_last())
    } else {
        s
    }
}

/// The sequence without leading or trailing whitespace.
pub open spec fn trimmed(s: Seq<char>) -> Seq<char> {
    trim_end(trim_start(s))
}

proof fn lemma_trim_start_skip(s: Seq<char>, lo: int)
    requires
        0 <= lo <= s.len(),
        forall|j: int| 0 <= j < lo ==> is_space(s[j]),
        lo < s.len() ==> !is_space(s[lo]),
    ensures
        trim_start(s) == s.skip(lo),
    decreases s.len(),
{
    if lo == 0 {
        assert(s.skip(0) =~= s);
    } else {
        assert(forall|j: int| 0 <= j < lo - 1 ==> is_space(s.drop_first()[j]));
        lemma_trim_start_skip(s.drop_first(), lo - 1);
        assert(s.drop_first().skip(lo - 1) =~= s.skip(lo));
    }
}

proof fn lemma_trim_end_take(s: Seq<char>, hi: int)
    requires
        0 <= hi <= s.len(),
        forall|j: int| hi <= j < s.len() ==> is_space(s[j]),
        hi > 0 ==> !is_space(s[hi - 1]),
    ensures
        trim_end(s) == s.take(hi),
    decreases s.len(),
{
    if hi == s.len() {
        assert(s.take(hi) =~= s);
    } else {
        assert(forall|j: int| hi <= j < s.drop_last().len() ==> is_space(s.drop_last()[j]));
        lemma_trim_end_take(s.drop_last(), hi);
        assert(s.drop_last().take(hi) =~= s.take(hi));
    }
}

/// The characters of `v` without leading or trailing whitespace.
fn trim_chars(v: &Vec<char>) -> (r: Vec<char>)
    ensures
        r@ == trimmed(v@),
{
    let n = v.len();
    let mut lo: usize = 0;
    while lo < n && is_space_char(v[lo])
        invariant
            n == v@.len(),
            lo <= n,
            forall|j: int| 0 <= j < lo ==> is_space(v@[j]),
        decreases n - lo,
    {
        lo += 1;
    }
    proof {
        lemma_trim_start_skip(v@, lo as int);
    }
    let ghost t = v@.skip(lo as int);
    let mut hi: usize = n;
    while hi > lo && is_space_char(v[hi - 1])
        invariant
            n == v@.len(),
            lo <= hi <= n,
            forall|j: int| hi <= j < n ==> is_space(v@[j]),
        decreases hi,
    {
        hi -= 1;
    }
    proof {
        assert(forall|j: int| hi - lo <= j < t.len() ==> is_space(t[j]));
        lemma_trim_end_take(t, hi - lo);
        assert(t.take(hi - lo) =~= v@.subrange(lo as int, hi as int));
    }
    let mut out: Vec<char> = Vec::new();
    let mut i: usize = lo;
    while i < hi
        invariant
            n == v@.len(),
            lo <= i <= hi <= n,
            out@ == v@.subrange(lo as int, i as int),
        decreases hi - i,
    {
        out.push(v[i]);
        i += 1;
        proof {
            assert(out@ =~= v@.subrange(lo as int, i as int));
        }
    }
    proof {
        assert(out@ =~= trimmed(v@));
    }
    out
}

/// The index of the first comma of `s` at or after `from`, or `s.len()`.
pub open spec fn next_comma(s: Seq<char>, from: int) -> int
    decreases s.len() - from,
{
    if from < 0 || from >= s.len() {
        s.len() as int
    } else if s[from] == ',' {
        from
    } else {
        next_comma(s, from + 1)
    }
}

proof fn lemma_next_comma_unique(s: Seq<char>, from: int, k: int)
    requires
        0 <= from <= k <= s.len(),
        forall|j: int| from <= j < k ==> s[j] != ',',
        k < s.len() ==> s[k] == ',',
    ensures
        next_comma(s, from) == k,
    decreases k - from,
{
    if from < k {
        lemma_next_comma_unique(s, from + 1, k);
    }
}

/// The comma-separated pieces of `s`, in order, separators dropped.
pub open spec fn split_commas(s: Seq<char>, from: int) -> Seq<Seq<char>>
    decreases s.len() - from,
{
    let i = next_comma(s, from);
    if from < 0 || i >= s.len() || i < from {
        seq![s.subrange(if 0 <= from <= s.len() { from } else { 0 }, s.len() as int)]
    } else {
        seq![s.subrange(from, i)] + split_commas(s, i + 1)
    }
}

proof fn lemma_next_comma_bounds(s: Seq<char>, from: int)
    requires
        0 <= from <= s.len(),
    ensures
        from <= next_comma(s, from) <= s.len(),
    decreases s.len() - from,
{
    if from < s.len() && s[from] != ',' {
        lemma_next_comma_bounds(s, from + 1);
    }
}

/// The trimmed comma-separated pieces of a whole pattern list.
pub open spec fn pattern_list(s: Seq<char>) -> Seq<Seq<char>> {
    split_commas(s, 0).map_values(|p: Seq<char>| trimmed(p))
}

/// Split a comma-separated pattern list and trim each piece.
pub fn split_patterns(patterns: &str) -> (r: Vec<String>)
    ensures
        r@.map_values(|t: String| t@) == pattern_list(patterns@),
{
    let cs = chars_of(patterns);
    let n = cs.len();
    let mut out: Vec<String> = Vec::new();
    let mut start: usize = 0;
    let mut finished = false;
    while !finished
        invariant
            cs@ == patterns@,
            n == cs@.len(),
            start <= n,
            !finished ==> out@.map_values(|t: String| t@) + split_commas(cs@, start as int)
                .map_values(|p: Seq<char>| trimmed(p)) == pattern_list(patterns@),
            finished ==> out@.map_values(|t: String| t@) == pattern_list(patterns@),
        decreases (n - start) + (if finished { 0int } else { 1int }),
    {
        let ghost out0 = out@.map_values(|t: String| t@);
        let mut i: usize = start;
        while i < n && cs[i] != ','
            invariant
                n == cs@.len(),
                start <= i <= n,
                forall|j: int| start <= j < i ==> cs@[j] != ',',
            decreases n - i,
        {
            i += 1;
        }
        proof {
            lemma_next_comma_unique(cs@, start as int, i as int);
        }
        let mut seg: Vec<char> = Vec::new();
        let mut k: usize = start;
        while k < i
            invariant
                n == cs@.len(),
                start <= k <= i <= n,
                seg@ == cs@.subrange(start as int, k as int),
            decreases i - k,
        {
            seg.push(cs[k]);
            k += 1;
            proof {
                assert(seg@ =~= cs@.subrange(start as int, k as int));
            }
        }
        let piece = trim_chars(&seg);
        let piece_str = string_from_chars(&piece);
        out.push(piece_str);
        proof {
            assert(out@.map_values(|t: String| t@) =~= out0.push(
                trimmed(cs@.subrange(start as int, i as int)),
            ));
        }
        if i == n {
            finished = true;
            proof {
                assert(split_commas(cs@, start as int) =~= seq![
                    cs@.subrange(start as int, n as int),
                ]);
                assert(split_commas(cs@, start as int).map_values(|p: Seq<char>| trimmed(p))
                    =~= seq![trimmed(cs@.subrange(start as int, n as int))]);
                assert(out@.map_values(|t: String| t@) =~= pattern_list(patterns@));
            }
        } else {
            proof {
                lemma_next_comma_bounds(cs@, i + 1);
                assert(split_commas(cs@, start as int).map_values(|p: Seq<char>| trimmed(p))
                    =~= seq![trimmed(cs@.subrange(start as int, i as int))] + split_commas(
                    cs@,
                    i + 1,
                ).map_values(|p: Seq<char>| trimmed(p)));
                assert(out@.map_values(|t: String| t@) + split_commas(cs@, i + 1).map_values(
                    |p: Seq<char>| trimmed(p),
                ) =~= pattern_list(patterns@));
            }
            start = i + 1;
        }
    }
    out
}

/// The views of a sequence of path segments.
pub open spec fn seg_views(ss: Seq<String>) -> Seq<Seq<char>> {
    ss.map_values(|s: String| s@)
}

/// The length of the longest common prefix of two segment sequences.
pub open spec fn common_prefix_len(a: Seq<Seq<char>>, b: Seq<Seq<char>>) -> int
    decreases a.len(),
{
    if a.len() == 0 || b.len() == 0 || a[0] != b[0] {
        0
    } else {
        1 + common_prefix_len(a.drop_first(), b.drop_first())
    }
}

proof fn lemma_common_prefix_unique(a: Seq<Seq<char>>, b: Seq<Seq<char>>, c: int)
    requires
        0 <= c <= a.len(),
        c <= b.len(),
        forall|j: int| 0 <= j < c ==> a[j] == b[j],
        c < a.len() && c < b.len() ==> a[c] != b[c],
    ensures
        common_prefix_len(a, b) == c,
    decreases a.len(),
{
    if c > 0 {
        assert(forall|j: int| 0 <= j < c - 1 ==> a.drop_first()[j] == b.drop_first()[j]);
        lemma_common_prefix_unique(a.drop_first(), b.drop_first(), c - 1);
    }
}

/// A file path made relative to the working directory: the segments after
/// the longest common prefix of the two paths. With no common prefix the
/// file path is returned unchanged; with the directory a full prefix, the
/// remainder.
pub fn relativize(cwd: &Vec<String>, file: &Vec<String>) -> (r: Vec<String>)
    ensures
        seg_views(r@) == seg_views(file@).skip(
            common_prefix_len(seg_views(cwd@), seg_views(file@)),
        ),
{
    let na = cwd.len();
    let nb = file.len();
    let mut c: usize = 0;
    while c < na && c < nb && string_eq(&cwd[c], &file[c])
        invariant
            na == cwd@.len(),
            nb == file@.len(),
            c <= na,
            c <= nb,
            forall|j: int| 0 <= j < c ==> seg_views(cwd@)[j] == seg_views(file@)[j],
        decreases na - c,
    {
        c += 1;
    }
    proof {
        lemma_common_prefix_unique(seg_views(cwd@), seg_views(file@), c as int);
    }
    let mut out: Vec<String> = Vec::new();
    proof {
        assert(seg_views(out@) =~= seg_views(file@).subrange(c as int, c as int));
    }
    let mut i: usize = c;
    while i < nb
        invariant
            nb == file@.len(),
            c <= i <= nb,
            seg_views(out@) == seg_views(file@).subrange(c as int, i as int),
        decreases nb - i,
    {
        let ghost prev = out@;
        let s = file[i].clone();
        out.push(s);
        i += 1;
        proof {
            assert(out@ =~= prev.push(file@[i - 1]));
            assert(seg_views(out@) =~= seg_views(prev).push(file@[i - 1]@));
            assert(seg_views(file@).subrange(c as int, i as int) =~= seg_views(
                file@,
            ).subrange(c as int, i - 1).push(file@[i - 1]@));
        }
    }
    proof {
        assert(seg_views(out@) =~= seg_views(file@).skip(c as int));
    }
    out
}

/// Whether two strings hold the same characters.
fn string_eq(a: &String, b: &String) -> (r: bool)
    ensures
        r == (a@ == b@),
{
    let ac = chars_of(a.as_str());
    let bc = chars_of(b.as_str());
    chars_eq(&ac, &bc)
}

/// Path segments joined with forward slashes.
pub open spec fn joined(parts: Seq<Seq<char>>) -> Seq<char>
    decreases parts.len(),
{
    if parts.len() == 0 {
        Seq::empty()
    } else if parts.len() == 1 {
        parts[0]
    } else {
        parts[0] + "/"@ + joined(parts.drop_first())
    }
}

proof fn lemma_joined_push(parts: Seq<Seq<char>>, x: Seq<char>)
    ensures
        joined(parts.push(x)) == if parts.len() == 0 {
            x
        } else {
            joined(parts) + "/"@ + x
        },
    decreases parts.len(),
{
    let whole = parts.push(x);
    if parts.len() == 0 {
        assert(joined(whole) == whole[0]);
        assert(whole[0] == x);
    } else {
        assert(whole[0] == parts[0]);
        assert(whole.drop_first() =~= parts.drop_first().push(x));
        lemma_joined_push(parts.drop_first(), x);
        if parts.len() == 1 {
            assert(joined(whole) =~= joined(parts) + "/"@ + x);
        } else {
            assert(joined(whole) =~= joined(parts) + "/"@ + x);
        }
    }
}

/// Join path segments with forward slashes.
pub fn join_segments(segs: &Vec<String>) -> (r: String)
    ensures
        r@ == joined(seg_views(segs@)),
{
    let ghost sv = seg_views(segs@);
    let mut r = String::new();
    let n = segs.len();
    let mut i: usize = 0;
    while i < n
        invariant
            n == segs@.len(),
            sv == seg_views(segs@),
            sv.len() == n,
            i <= n,
            r@ == joined(sv.take(i as int)),
        decreases n - i,
    {
        if i > 0 {
            r.append("/");
        }
        r.append(segs[i].as_str());
        i += 1;
        proof {
            assert(sv.take(i as int) =~= sv.take(i - 1).push(sv[i - 1]));
            lemma_joined_push(sv.take(i - 1), sv[i - 1]);
        }
    }
    proof {
        assert(sv.take(n as int) =~= sv);
    }
    r
}

} // verus!
