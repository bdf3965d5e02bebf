//! Path canonicalization: turning inconsistent, mixed-separator path strings
//! into a canonical slash-delimited form, detecting the project-root naming
//! pattern in path segments, and deriving parent and sibling paths.
//!
//! A path is modelled as the sequence of its characters; its canonical form
//! is described through the sequence of its non-empty segments.

use vstd::prelude::*;

verus! {

/// A path separator: forward slashes and backslashes both separate segments.
pub open spec fn is_sep(c: char) -> bool {
    c == '/' || c == '\\'
}

/// Every backslash separator replaced by a forward slash.
pub open spec fn norm_slashes(s: Seq<char>) -> Seq<char> {
    Seq::new(s.len(), |i: int| if s[i] == '\\' { '/' } else { s[i] })
}

/// The string with all trailing forward slashes removed.
pub open spec fn trim_trailing_slashes(s: Seq<char>) -> Seq<char>
    decreases s.len(),
{
    if s.len() > 0 && s.last() == '/' {
        trim_trailing_slashes(s.drop_last())
    } else {
        s
    }
}

/// Separator normalization without segment rewriting: backslashes become
/// slashes and trailing slashes are dropped.
pub open spec fn normalize_spec(s: Seq<char>) -> Seq<char> {
    trim_trailing_slashes(norm_slashes(s))
}

/// Splitting helper: the non-empty segments of `s`, with `cur` the portion
/// of the current segment read so far.
pub open spec fn split_acc(s: Seq<char>, cur: Seq<char>) -> Seq<Seq<char>>
    decreases s.len(),
{
    if s.len() == 0 {
        if cur.len() > 0 {
            seq![cur]
        } else {
            seq![]
        }
    } else if is_sep(s[0]) {
        if cur.len() > 0 {
            seq![cur] + split_acc(s.drop_first(), Seq::empty())
        } else {
            split_acc(s.drop_first(), Seq::empty())
        }
    } else {
        split_acc(s.drop_first(), cur.push(s[0]))
    }
}

/// The non-empty segments of a path, in order; separators of either kind
/// delimit segments and contribute nothing themselves.
pub open spec fn split_path(s: Seq<char>) -> Seq<Seq<char>> {
    split_acc(s, Seq::empty())
}

/// A segment list with every run of equal adjacent segments collapsed to
/// its first element: each segment is kept only if it differs from the
/// most recently kept one.
pub open spec fn dedup_adjacent(segs: Seq<Seq<char>>) -> Seq<Seq<char>>
    decreases segs.len(),
{
    if segs.len() == 0 {
        segs
    } else {
        let r = dedup_adjacent(segs.drop_last());
        if r.len() > 0 && segs.last() == r.last() {
            r
        } else {
            r.push(segs.last())
        }
    }
}

/// Segments joined with single forward slashes, no leading or trailing one.
pub open spec fn join_segs(segs: Seq<Seq<char>>) -> Seq<char>
    decreases segs.len(),
{
    if segs.len() == 0 {
        Seq::empty()
    } else if segs.len() == 1 {
        segs[0]
    } else {
        segs[0] + seq!['/'] + join_segs(segs.drop_first())
    }
}

/// The segment with all trailing colons removed.
pub open spec fn trim_colons(s: Seq<char>) -> Seq<char>
    decreases s.len(),
{
    if s.len() > 0 && s.last() == ':' {
        trim_colons(s.drop_last())
    } else {
        s
    }
}

/// A segment rendered as a drive: trailing colons stripped and exactly one
/// colon re-appended.
pub open spec fn driveify(s: Seq<char>) -> Seq<char> {
    trim_colons(s).push(':')
}

/// Full canonicalization. The path is split into non-empty segments,
/// adjacent duplicate segments are collapsed, and the result is rejoined
/// with single slashes. With `drive_first`, the first segment is rendered
/// as a drive letter with exactly one colon; otherwise a single leading
/// slash is emitted. A path with no segments canonicalizes to the empty
/// string.
pub open spec fn canonical_spec(s: Seq<char>, drive_first: bool) -> Seq<char> {
    let segs = dedup_adjacent(split_path(s));
    if segs.len() == 0 {
        Seq::empty()
    } else if drive_first {
        join_segs(seq![driveify(segs[0])] + segs.drop_first())
    } else {
        seq!['/'] + join_segs(segs)
    }
}

/// The canonical segment list of a cleaned path: the first segment
/// (rendered with a single colon when it ends in one) followed by the
/// remaining segments, with every run of adjacent duplicates collapsed —
/// the second segment is compared against the kept first like any other
/// neighbour. Empty when the path has no segments.
pub open spec fn clean_segments(s: Seq<char>) -> Seq<Seq<char>> {
    let comps = split_path(s);
    if comps.len() == 0 {
        Seq::empty()
    } else {
        let head = if comps[0].len() > 0 && comps[0].last() == ':' {
            driveify(comps[0])
        } else {
            comps[0]
        };
        dedup_adjacent(seq![head] + comps.drop_first())
    }
}

/// String-level cleaning for mutation targets: the first segment is
/// rendered with a single colon when it ends in one, every run of equal
/// adjacent segments collapses to its first element, and the segments are
/// joined with single slashes and no leading slash.
pub open spec fn clean_spec(s: Seq<char>) -> Seq<char> {
    join_segs(clean_segments(s))
}

/// The project-root naming convention: a segment of exactly seven
/// characters whose fourth character is an underscore.
pub open spec fn is_root_segment(s: Seq<char>) -> bool {
    s.len() == 7 && s[3] == '_'
}

/// The nearest enclosing project root of a segment list: the joined prefix
/// ending at the last segment that matches the root pattern, if any.
pub open spec fn root_prefix(segs: Seq<Seq<char>>) -> Option<Seq<char>>
    decreases segs.len(),
{
    if segs.len() == 0 {
        None
    } else if is_root_segment(segs.last()) {
        Some(join_segs(segs))
    } else {
        root_prefix(segs.drop_last())
    }
}

/// The sibling of `p` named `name`: `name` placed next to `p` under the
/// parent directory that the last slash of `p` delimits. Without any slash
/// the sibling is `name` alone.
pub open spec fn parent_join(p: Seq<char>, name: Seq<char>) -> Seq<char>
    decreases p.len(),
{
    if p.len() == 0 {
        name
    } else if p.last() == '/' {
        p + name
    } else {
        parent_join(p.drop_last(), name)
    }
}

/// The parent directory of `p`: everything before the last slash.
pub open spec fn parent_dir(p: Seq<char>) -> Seq<char>
    decreases p.len(),
{
    if p.len() == 0 {
        p
    } else if p.last() == '/' {
        p.drop_last()
    } else {
        parent_dir(p.drop_last())
    }
}

/// Every slash replaced by a backslash, for handing a path to shells that
/// want the native separator.
pub open spec fn backslashed(s: Seq<char>) -> Seq<char> {
    Seq::new(s.len(), |i: int| if s[i] == '/' { '\\' } else { s[i] })
}

/// The view of a sequence of character vectors.
pub open spec fn segs_view(segs: Seq<Vec<char>>) -> Seq<Seq<char>> {
    Seq::new(segs.len(), |i: int| segs[i]@)
}

/// The view of a sequence of strings.
pub open spec fn strs_view(v: Seq<String>) -> Seq<Seq<char>> {
    Seq::new(v.len(), |i: int| v[i]@)
}

/// Relies on `String::push`: appends exactly one character to the string.
#[verifier::external_body]
fn push_char(s: &mut String, c: char)
    ensures
        final(s)@ == old(s)@.push(c),
{
    s.push(c);
}

/// The characters of a string slice, as a vector.
fn chars_of(s: &str) -> (r: Vec<char>)
    ensures
        r@ == s@,
{
    let n = s.unicode_len();
    let mut r: Vec<char> = Vec::new();
    let mut i: usize = 0;
    while i < n
        invariant
            i <= n,
            n == s@.len(),
            r@ == s@.take(i as int),
        decreases n - i,
    {
        let c = s.get_char(i);
        r.push(c);
        proof {
            assert(s@.take(i as int).push(s@[i as int]) =~= s@.take(i + 1));
        }
        i += 1;
    }
    proof {
        assert(s@.take(n as int) =~= s@);
    }
    r
}

/// A string holding the first `m` characters of `v`.
fn string_of_prefix(v: &Vec<char>, m: usize) -> (r: String)
    requires
        m <= v@.len(),
    ensures
        r@ == v@.take(m as int),
{
    let mut r = String::new();
    let mut i: usize = 0;
    while i < m
        invariant
            i <= m,
            m <= v@.len(),
            r@ == v@.take(i as int),
        decreases m - i,
    {
        push_char(&mut r, v[i]);
        proof {
            assert(v@.take(i as int).push(v@[i as int]) =~= v@.take(i + 1));
        }
        i += 1;
    }
    r
}

/// A string holding all characters of `v`.
pub(crate) fn string_of(v: &Vec<char>) -> (r: String)
    ensures
        r@ == v@,
{
    let r = string_of_prefix(v, v.len());
    proof {
        assert(v@.take(v@.len() as int) =~= v@);
    }
    r
}

/// A copy of a character vector.
fn copy_chars(v: &Vec<char>) -> (r: Vec<char>)
    ensures
        r@ == v@,
{
    let mut r: Vec<char> = Vec::new();
    let mut i: usize = 0;
    while i < v.len()
        invariant
            i <= v@.len(),
            r@ == v@.take(i as int),
        decreases v@.len() - i,
    {
        r.push(v[i]);
        proof {
            assert(v@.take(i as int).push(v@[i as int]) =~= v@.take(i + 1));
        }
        i += 1;
    }
    proof {
        assert(v@.take(v@.len() as int) =~= v@);
    }
    r
}

/// Appends all characters of `seg` to `out`.
fn append_chars(out: &mut Vec<char>, seg: &Vec<char>)
    ensures
        final(out)@ == old(out)@ + seg@,
{
    let mut i: usize = 0;
    while i < seg.len()
        invariant
            i <= seg@.len(),
            out@ == old(out)@ + seg@.take(i as int),
        decreases seg@.len() - i,
    {
        out.push(seg[i]);
        proof {
            assert((old(out)@ + seg@.take(i as int)).push(seg@[i as int]) =~= old(out)@ + seg@.take(
                i + 1,
            ));
        }
        i += 1;
    }
    proof {
        assert(old(out)@ + seg@.take(seg@.len() as int) =~= old(out)@ + seg@);
    }
}

/// Whether two character vectors hold the same characters.
fn seg_eq(a: &Vec<char>, b: &Vec<char>) -> (r: bool)
    ensures
        r == (a@ == b@),
{
    if a.len() != b.len() {
        return false;
    }
    let mut i: usize = 0;
    while i < a.len()
        invariant
            i <= a@.len(),
            a@.len() == b@.len(),
            forall|j: int| 0 <= j < i ==> a@[j] == b@[j],
        decreases a@.len() - i,
    {
        if a[i] != b[i] {
            return false;
        }
        i += 1;
    }
    proof {
        assert(a@ =~= b@);
    }
    true
}

/// Replaces every backslash of a path by a forward slash and trims all
/// trailing slashes, changing nothing else.
pub fn normalize_path(path: &str) -> (r: String)
    ensures
        r@ == normalize_spec(path@),
{
    let v = chars_of(path);
    let mut w: Vec<char> = Vec::new();
    let mut i: usize = 0;
    while i < v.len()
        invariant
            i <= v@.len(),
            v@ == path@,
            w@.len() == i,
            forall|j: int| 0 <= j < i ==> w@[j] == norm_slashes(path@)[j],
        decreases v@.len() - i,
    {
        let c = v[i];
        if c == '\\' {
            w.push('/');
        } else {
            w.push(c);
        }
        i += 1;
    }
    proof {
        assert(w@ =~= norm_slashes(path@));
    }
    let mut m: usize = w.len();
    proof {
        assert(w@.take(w@.len() as int) =~= w@);
    }
    while m > 0 && w[m - 1] == '/'
        invariant
            m <= w@.len(),
            trim_trailing_slashes(w@) == trim_trailing_slashes(w@.take(m as int)),
        decreases m,
    {
        proof {
            assert(w@.take(m as int).drop_last() =~= w@.take(m - 1));
        }
        m -= 1;
    }
    string_of_prefix(&w, m)
}

/// The non-empty segments of a path, separators of either kind delimiting.
fn split_segments(v: &Vec<char>) -> (r: Vec<Vec<char>>)
    ensures
        segs_view(r@) == split_path(v@),
{
    let mut out: Vec<Vec<char>> = Vec::new();
    let mut cur: Vec<char> = Vec::new();
    let mut i: usize = 0;
    proof {
        assert(v@.skip(0) =~= v@);
    }
    while i < v.len()
        invariant
            i <= v@.len(),
            split_path(v@) == segs_view(out@) + split_acc(v@.skip(i as int), cur@),
        decreases v@.len() - i,
    {
        let ghost pre_out = out@;
        let ghost pre_cur = cur@;
        let ghost rest = v@.skip(i as int);
        let c = v[i];
        if c == '/' || c == '\\' {
            if cur.len() > 0 {
                out.push(cur);
                cur = Vec::new();
            }
        } else {
            cur.push(c);
        }
        proof {
            assert(rest.len() > 0);
            assert(rest[0] == v@[i as int]);
            assert(rest.drop_first() =~= v@.skip(i + 1));
            if is_sep(rest[0]) {
                if pre_cur.len() > 0 {
                    assert(split_acc(rest, pre_cur) == seq![pre_cur] + split_acc(
                        rest.drop_first(),
                        Seq::empty(),
                    ));
                    assert(segs_view(out@) =~= segs_view(pre_out).push(pre_cur));
                    assert(cur@ =~= Seq::<char>::empty());
                    assert(segs_view(pre_out) + (seq![pre_cur] + split_acc(
                        v@.skip(i + 1),
                        Seq::empty(),
                    )) =~= segs_view(out@) + split_acc(v@.skip(i + 1), cur@));
                } else {
                    assert(split_acc(rest, pre_cur) == split_acc(rest.drop_first(), Seq::empty()));
                    assert(cur@ =~= Seq::<char>::empty());
                }
            } else {
                assert(split_acc(rest, pre_cur) == split_acc(
                    rest.drop_first(),
                    pre_cur.push(rest[0]),
                ));
                assert(cur@ == pre_cur.push(rest[0]));
            }
        }
        i += 1;
    }
    proof {
        assert(v@.skip(v@.len() as int) =~= Seq::<char>::empty());
    }
    let ghost pre_out = out@;
    let ghost pre_cur = cur@;
    if cur.len() > 0 {
        out.push(cur);
        proof {
            assert(segs_view(out@) =~= segs_view(pre_out).push(pre_cur));
            assert(segs_view(pre_out) + seq![pre_cur] =~= segs_view(out@));
        }
    } else {
        proof {
            assert(segs_view(out@) + Seq::<Seq<char>>::empty() =~= segs_view(out@));
        }
    }
    out
}

/// Collapses each run of equal adjacent segments to its first element.
fn dedup_segments(segs: &Vec<Vec<char>>) -> (r: Vec<Vec<char>>)
    ensures
        segs_view(r@) == dedup_adjacent(segs_view(segs@)),
{
    let mut out: Vec<Vec<char>> = Vec::new();
    let mut i: usize = 0;
    proof {
        assert(segs_view(segs@).take(0) =~= Seq::<Seq<char>>::empty());
        assert(segs_view(out@) =~= Seq::<Seq<char>>::empty());
    }
    while i < segs.len()
        invariant
            i <= segs@.len(),
            segs_view(out@) == dedup_adjacent(segs_view(segs@).take(i as int)),
        decreases segs@.len() - i,
    {
        let ghost pre_out = out@;
        let duplicate = out.len() > 0 && seg_eq(&out[out.len() - 1], &segs[i]);
        if !duplicate {
            let s = copy_chars(&segs[i]);
            out.push(s);
        }
        proof {
            let sv = segs_view(segs@);
            assert(sv.take(i + 1).drop_last() =~= sv.take(i as int));
            assert(sv.take(i + 1).last() == sv[i as int]);
            assert(sv[i as int] == segs@[i as int]@);
            let prev = dedup_adjacent(sv.take(i as int));
            assert(prev == segs_view(pre_out));
            if duplicate {
                assert(prev.len() > 0 && sv.take(i + 1).last() == prev.last());
            } else {
                assert(segs_view(out@) =~= segs_view(pre_out).push(segs@[i as int]@));
            }
        }
        i += 1;
    }
    proof {
        assert(segs_view(segs@).take(segs@.len() as int) =~= segs_view(segs@));
    }
    out
}

/// Joining a further segment on the right: a slash then the segment,
/// unless nothing was joined yet.
pub proof fn lemma_join_push(segs: Seq<Seq<char>>, x: Seq<char>)
    ensures
        join_segs(segs.push(x)) == if segs.len() == 0 {
            x
        } else {
            join_segs(segs) + seq!['/'] + x
        },
    decreases segs.len(),
{
    if segs.len() == 0 {
        assert(segs.push(x)[0] == x);
        assert(join_segs(segs.push(x)) == segs.push(x)[0]);
    } else if segs.len() == 1 {
        assert(segs.push(x).drop_first() =~= seq![x]);
        assert(segs.push(x)[0] == segs[0]);
        assert(seq![x].len() == 1 && seq![x][0] == x);
        assert(join_segs(seq![x]) == x);
        assert(join_segs(segs.push(x)) == segs.push(x)[0] + seq!['/'] + join_segs(
            segs.push(x).drop_first(),
        ));
        assert(join_segs(segs) == segs[0]);
    } else {
        assert(segs.push(x).drop_first() =~= segs.drop_first().push(x));
        lemma_join_push(segs.drop_first(), x);
        assert(segs[0] + seq!['/'] + (join_segs(segs.drop_first()) + seq!['/'] + x) =~= (segs[0]
            + seq!['/'] + join_segs(segs.drop_first())) + seq!['/'] + x);
        assert(segs.push(x)[0] == segs[0]);
    }
}

/// The first `m` characters of `v`, as a fresh vector.
fn prefix_chars(v: &Vec<char>, m: usize) -> (r: Vec<char>)
    requires
        m <= v@.len(),
    ensures
        r@ == v@.take(m as int),
{
    let mut r: Vec<char> = Vec::new();
    let mut i: usize = 0;
    while i < m
        invariant
            i <= m,
            m <= v@.len(),
            r@ == v@.take(i as int),
        decreases m - i,
    {
        r.push(v[i]);
        proof {
            assert(v@.take(i as int).push(v@[i as int]) =~= v@.take(i + 1));
        }
        i += 1;
    }
    r
}

/// The first `k` segments joined with single slashes.
fn join_prefix(segs: &Vec<Vec<char>>, k: usize) -> (r: Vec<char>)
    requires
        k <= segs@.len(),
    ensures
        r@ == join_segs(segs_view(segs@).take(k as int)),
{
    let mut out: Vec<char> = Vec::new();
    let mut i: usize = 0;
    proof {
        assert(segs_view(segs@).take(0) =~= Seq::<Seq<char>>::empty());
    }
    while i < k
        invariant
            i <= k,
            k <= segs@.len(),
            out@ == join_segs(segs_view(segs@).take(i as int)),
        decreases k - i,
    {
        let ghost pre = out@;
        if i > 0 {
            out.push('/');
        }
        append_chars(&mut out, &segs[i]);
        proof {
            let sv = segs_view(segs@);
            assert(sv.take(i + 1) =~= sv.take(i as int).push(sv[i as int]));
            lemma_join_push(sv.take(i as int), sv[i as int]);
            if i == 0 {
                assert(out@ =~= sv[0]);
            } else {
                assert(out@ =~= join_segs(sv.take(i as int)) + seq!['/'] + sv[i as int]);
            }
        }
        i += 1;
    }
    out
}

/// All segments joined with single slashes.
pub(crate) fn join_all(segs: &Vec<Vec<char>>) -> (r: Vec<char>)
    ensures
        r@ == join_segs(segs_view(segs@)),
{
    let r = join_prefix(segs, segs.len());
    proof {
        assert(segs_view(segs@).take(segs@.len() as int) =~= segs_view(segs@));
    }
    r
}

/// The segment rendered as a drive: trailing colons stripped, one colon
/// appended.
fn driveify_chars(seg: &Vec<char>) -> (r: Vec<char>)
    ensures
        r@ == driveify(seg@),
{
    let mut m: usize = seg.len();
    proof {
        assert(seg@.take(seg@.len() as int) =~= seg@);
    }
    while m > 0 && seg[m - 1] == ':'
        invariant
            m <= seg@.len(),
            trim_colons(seg@) == trim_colons(seg@.take(m as int)),
        decreases m,
    {
        proof {
            assert(seg@.take(m as int).drop_last() =~= seg@.take(m - 1));
        }
        m -= 1;
    }
    let mut r = prefix_chars(seg, m);
    r.push(':');
    r
}

/// Canonicalizes a path string: splits it at separators of either kind,
/// collapses adjacent duplicate segments, and joins the result with single
/// slashes — behind a leading slash, or with the first segment rendered as
/// a drive when `drive_first` is set. A path without segments yields the
/// empty string.
pub fn canonicalize(path: &str, drive_first: bool) -> (r: String)
    ensures
        r@ == canonical_spec(path@, drive_first),
{
    let v = chars_of(path);
    let raw = split_segments(&v);
    let segs = dedup_segments(&raw);
    if segs.len() == 0 {
        return String::new();
    }
    if drive_first {
        let head = driveify_chars(&segs[0]);
        let mut full: Vec<Vec<char>> = Vec::new();
        full.push(head);
        let mut i: usize = 1;
        while i < segs.len()
            invariant
                1 <= i <= segs@.len(),
                segs@.len() >= 1,
                segs_view(full@) == seq![driveify(segs_view(segs@)[0])] + segs_view(
                    segs@,
                ).subrange(1, i as int),
            decreases segs@.len() - i,
        {
            let ghost pre = full@;
            let s = copy_chars(&segs[i]);
            full.push(s);
            proof {
                let sv = segs_view(segs@);
                assert(sv.subrange(1, i + 1) =~= sv.subrange(1, i as int).push(sv[i as int]));
                assert(segs_view(full@) =~= segs_view(pre).push(sv[i as int]));
                assert(segs_view(pre).push(sv[i as int]) =~= seq![driveify(sv[0])] + sv.subrange(
                    1,
                    i + 1,
                ));
            }
            i += 1;
        }
        proof {
            let sv = segs_view(segs@);
            assert(sv.subrange(1, sv.len() as int) =~= sv.drop_first());
            assert(segs_view(full@) =~= seq![driveify(sv[0])] + sv.drop_first());
        }
        let j = join_all(&full);
        string_of(&j)
    } else {
        let j = join_all(&segs);
        let mut out: Vec<char> = Vec::new();
        out.push('/');
        append_chars(&mut out, &j);
        proof {
            assert(out@ =~= seq!['/'] + j@);
        }
        string_of(&out)
    }
}

/// Cleans a mutation-target path: renders the first segment with a single
/// colon when it ends in one, collapses every run of equal adjacent
/// segments to its first element, and joins the result with single
/// slashes and no leading slash.
pub fn clean_path(path: &str) -> (r: String)
    ensures
        r@ == clean_spec(path@),
{
    let segs = clean_segments_exec(path);
    if segs.len() == 0 {
        proof {
            assert(join_segs(Seq::<Seq<char>>::empty()) =~= Seq::<char>::empty());
        }
        return String::new();
    }
    let j = join_all(&segs);
    string_of(&j)
}

/// The canonical segment list of a cleaned mutation-target path.
pub(crate) fn clean_segments_exec(path: &str) -> (r: Vec<Vec<char>>)
    ensures
        segs_view(r@) == clean_segments(path@),
{
    let v = chars_of(path);
    let comps = split_segments(&v);
    if comps.len() == 0 {
        let r: Vec<Vec<char>> = Vec::new();
        proof {
            assert(segs_view(r@) =~= Seq::<Seq<char>>::empty());
        }
        return r;
    }
    let head = if comps[0].len() > 0 && comps[0][comps[0].len() - 1] == ':' {
        driveify_chars(&comps[0])
    } else {
        copy_chars(&comps[0])
    };
    let ghost head_v = head@;
    let mut full: Vec<Vec<char>> = Vec::new();
    full.push(head);
    let mut i: usize = 1;
    proof {
        assert(segs_view(comps@).subrange(1, 1) =~= Seq::<Seq<char>>::empty());
        assert(segs_view(full@) =~= seq![head_v] + segs_view(comps@).subrange(1, 1));
    }
    while i < comps.len()
        invariant
            1 <= i <= comps@.len(),
            comps@.len() >= 1,
            segs_view(full@) == seq![head_v] + segs_view(comps@).subrange(1, i as int),
        decreases comps@.len() - i,
    {
        let ghost pre = full@;
        let s = copy_chars(&comps[i]);
        full.push(s);
        proof {
            let sv = segs_view(comps@);
            assert(sv.subrange(1, i + 1) =~= sv.subrange(1, i as int).push(sv[i as int]));
            assert(segs_view(full@) =~= segs_view(pre).push(sv[i as int]));
            assert(segs_view(pre).push(sv[i as int]) =~= seq![head_v] + sv.subrange(1, i + 1));
        }
        i += 1;
    }
    let r = dedup_segments(&full);
    proof {
        let sv = segs_view(comps@);
        assert(sv.subrange(1, sv.len() as int) =~= sv.drop_first());
        let head_spec = if sv[0].len() > 0 && sv[0].last() == ':' {
            driveify(sv[0])
        } else {
            sv[0]
        };
        assert(head_v == head_spec);
        assert(segs_view(full@) =~= seq![head_spec] + sv.drop_first());
        assert(segs_view(r@) == clean_segments(path@));
    }
    r
}

/// Whether a path segment matches the project-root naming convention:
/// exactly seven characters with an underscore as the fourth.
pub fn segment_is_root(name: &str) -> (r: bool)
    ensures
        r == is_root_segment(name@),
{
    let n = name.unicode_len();
    if n != 7 {
        return false;
    }
    name.get_char(3) == '_'
}

/// `segment_is_root` on a character vector.
pub(crate) fn seg_is_root_chars(seg: &Vec<char>) -> (r: bool)
    ensures
        r == is_root_segment(seg@),
{
    if seg.len() != 7 {
        return false;
    }
    seg[3] == '_'
}

/// Finds the nearest enclosing project root of a path: the longest prefix
/// of its segment list that ends in a segment matching the root pattern,
/// joined with single slashes. `None` when no segment matches.
pub fn find_project_root(path: &str) -> (r: Option<String>)
    ensures
        r is Some ==> root_prefix(split_path(path@)) == Some(r->Some_0@),
        r is None ==> root_prefix(split_path(path@)) is None,
{
    let v = chars_of(path);
    let segs = split_segments(&v);
    let mut i: usize = segs.len();
    proof {
        assert(segs_view(segs@).take(segs@.len() as int) =~= segs_view(segs@));
    }
    while i > 0
        invariant
            i <= segs@.len(),
            segs_view(segs@) == split_path(path@),
            root_prefix(segs_view(segs@)) == root_prefix(segs_view(segs@).take(i as int)),
        decreases i,
    {
        if seg_is_root_chars(&segs[i - 1]) {
            proof {
                let pre = segs_view(segs@).take(i as int);
                assert(pre.last() == segs@[i - 1]@);
                assert(is_root_segment(pre.last()));
                assert(root_prefix(pre) == Some(join_segs(pre)));
            }
            let j = join_prefix(&segs, i);
            return Some(string_of(&j));
        }
        proof {
            assert(segs_view(segs@).take(i as int).drop_last() =~= segs_view(segs@).take(i - 1));
            assert(segs_view(segs@).take(i as int).last() == segs@[i - 1]@);
        }
        i -= 1;
    }
    proof {
        assert(segs_view(segs@).take(0) =~= Seq::<Seq<char>>::empty());
    }
    None
}

/// The sibling of `path` named `name`: the path obtained by replacing the
/// final segment (everything after the last slash) with `name`.
pub fn sibling_path(path: &str, name: &str) -> (r: String)
    ensures
        r@ == parent_join(path@, name@),
{
    let v = chars_of(path);
    let mut m: usize = v.len();
    proof {
        assert(v@.take(v@.len() as int) =~= v@);
    }
    while m > 0 && v[m - 1] != '/'
        invariant
            m <= v@.len(),
            parent_join(v@, name@) == parent_join(v@.take(m as int), name@),
        decreases m,
    {
        proof {
            assert(v@.take(m as int).drop_last() =~= v@.take(m - 1));
        }
        m -= 1;
    }
    let mut out = prefix_chars(&v, m);
    let n = chars_of(name);
    append_chars(&mut out, &n);
    proof {
        if m == 0 {
            assert(v@.take(0) =~= Seq::<char>::empty());
            assert(out@ =~= name@);
        }
    }
    string_of(&out)
}

/// The parent directory of `path`: everything before the last slash, or
/// the empty string when there is none.
pub fn parent_of(path: &str) -> (r: String)
    ensures
        r@ == parent_dir(path@),
{
    let v = chars_of(path);
    let mut m: usize = v.len();
    proof {
        assert(v@.take(v@.len() as int) =~= v@);
    }
    while m > 0 && v[m - 1] != '/'
        invariant
            m <= v@.len(),
            parent_dir(v@) == parent_dir(v@.take(m as int)),
        decreases m,
    {
        proof {
            assert(v@.take(m as int).drop_last() =~= v@.take(m - 1));
        }
        m -= 1;
    }
    if m == 0 {
        proof {
            assert(v@.take(0) =~= Seq::<char>::empty());
        }
        return String::new();
    }
    proof {
        assert(v@.take(m as int).drop_last() =~= v@.take(m - 1));
    }
    let out = prefix_chars(&v, m - 1);
    string_of(&out)
}

/// Every forward slash replaced by a backslash, for handing a canonical
/// path to a shell that wants the native separator.
pub fn to_backslashes(path: &str) -> (r: String)
    ensures
        r@ == backslashed(path@),
{
    let v = chars_of(path);
    let mut w: Vec<char> = Vec::new();
    let mut i: usize = 0;
    while i < v.len()
        invariant
            i <= v@.len(),
            v@ == path@,
            w@.len() == i,
            forall|j: int| 0 <= j < i ==> w@[j] == backslashed(path@)[j],
        decreases v@.len() - i,
    {
        let c = v[i];
        if c == '/' {
            w.push('\\');
        } else {
            w.push(c);
        }
        i += 1;
    }
    proof {
        assert(w@ =~= backslashed(path@));
    }
    string_of(&w)
}

/// A well-formed segment: non-empty and free of separators.
pub open spec fn good_seg(s: Seq<char>) -> bool {
    s.len() > 0 && forall|i: int| 0 <= i < s.len() ==> !is_sep(#[trigger] s[i])
}

/// Every segment of the list is well-formed.
pub open spec fn all_good(segs: Seq<Seq<char>>) -> bool {
    forall|i: int| 0 <= i < segs.len() ==> good_seg(#[trigger] segs[i])
}

/// No two adjacent segments of the list are equal.
pub open spec fn adjacent_distinct(segs: Seq<Seq<char>>) -> bool {
    forall|i: int| 0 <= i < segs.len() - 1 ==> #[trigger] segs[i] != segs[i + 1]
}

proof fn lemma_split_acc_good(s: Seq<char>, cur: Seq<char>)
    requires
        forall|i: int| 0 <= i < cur.len() ==> !is_sep(#[trigger] cur[i]),
    ensures
        all_good(split_acc(s, cur)),
    decreases s.len(),
{
    if s.len() == 0 {
    } else if is_sep(s[0]) {
        lemma_split_acc_good(s.drop_first(), Seq::empty());
        if cur.len() > 0 {
            let rest = split_acc(s.drop_first(), Seq::empty());
            let r = seq![cur] + rest;
            assert forall|i: int| 0 <= i < r.len() implies good_seg(#[trigger] r[i]) by {
                if i > 0 {
                    assert(r[i] == rest[i - 1]);
                }
            }
        }
    } else {
        assert forall|i: int| 0 <= i < cur.push(s[0]).len() implies !is_sep(
            #[trigger] cur.push(s[0])[i],
        ) by {
            if i < cur.len() {
                assert(cur.push(s[0])[i] == cur[i]);
            } else {
                assert(cur.push(s[0])[i] == s[0]);
            }
        }
        lemma_split_acc_good(s.drop_first(), cur.push(s[0]));
    }
}

/// Splitting yields only non-empty, separator-free segments.
pub proof fn lemma_split_good(s: Seq<char>)
    ensures
        all_good(split_path(s)),
{
    lemma_split_acc_good(s, Seq::empty());
}

proof fn lemma_split_acc_absorb(x: Seq<char>, s: Seq<char>, cur: Seq<char>)
    requires
        forall|i: int| 0 <= i < x.len() ==> !is_sep(#[trigger] x[i]),
    ensures
        split_acc(x + s, cur) == split_acc(s, cur + x),
    decreases x.len(),
{
    if x.len() == 0 {
        assert(x + s =~= s);
        assert(cur + x =~= cur);
    } else {
        assert((x + s)[0] == x[0]);
        assert(!is_sep(x[0]));
        assert((x + s).drop_first() =~= x.drop_first() + s);
        assert forall|i: int| 0 <= i < x.drop_first().len() implies !is_sep(
            #[trigger] x.drop_first()[i],
        ) by {
            assert(x.drop_first()[i] == x[i + 1]);
        }
        lemma_split_acc_absorb(x.drop_first(), s, cur.push(x[0]));
        assert(cur.push(x[0]) + x.drop_first() =~= cur + x);
    }
}

/// Splitting inverts joining: the segments of a slash-joined list of
/// well-formed segments are that list again.
pub proof fn lemma_split_of_join(segs: Seq<Seq<char>>)
    requires
        all_good(segs),
    ensures
        split_acc(join_segs(segs), Seq::empty()) == segs,
    decreases segs.len(),
{
    if segs.len() == 0 {
    } else if segs.len() == 1 {
        assert(good_seg(segs[0]));
        lemma_split_acc_absorb(segs[0], Seq::empty(), Seq::empty());
        assert(segs[0] + Seq::<char>::empty() =~= segs[0]);
        assert(Seq::<char>::empty() + segs[0] =~= segs[0]);
        assert(split_acc(Seq::<char>::empty(), segs[0]) == seq![segs[0]]);
        assert(seq![segs[0]] =~= segs);
    } else {
        let rest = segs.drop_first();
        let t = seq!['/'] + join_segs(rest);
        assert(good_seg(segs[0]));
        assert(join_segs(segs) == segs[0] + seq!['/'] + join_segs(rest));
        assert(segs[0] + seq!['/'] + join_segs(rest) =~= segs[0] + t);
        lemma_split_acc_absorb(segs[0], t, Seq::empty());
        assert(Seq::<char>::empty() + segs[0] =~= segs[0]);
        assert(t[0] == '/');
        assert(is_sep(t[0]));
        assert(t.drop_first() =~= join_segs(rest));
        assert(split_acc(t, segs[0]) == seq![segs[0]] + split_acc(join_segs(rest), Seq::empty()));
        assert forall|i: int| 0 <= i < rest.len() implies good_seg(#[trigger] rest[i]) by {
            assert(rest[i] == segs[i + 1]);
        }
        lemma_split_of_join(rest);
        assert(seq![segs[0]] + rest =~= segs);
    }
}

/// Collapsing adjacent duplicates leaves no equal neighbours, never turns
/// a non-empty list empty, and keeps the final segment.
pub proof fn lemma_dedup_props(segs: Seq<Seq<char>>)
    ensures
        adjacent_distinct(dedup_adjacent(segs)),
        segs.len() > 0 ==> dedup_adjacent(segs).len() > 0 && dedup_adjacent(segs).last()
            == segs.last(),
        segs.len() == 0 ==> dedup_adjacent(segs).len() == 0,
    decreases segs.len(),
{
    if segs.len() == 0 {
    } else {
        lemma_dedup_props(segs.drop_last());
        let r = dedup_adjacent(segs.drop_last());
        let x = segs.last();
        if r.len() > 0 && x == r.last() {
        } else {
            let r2 = r.push(x);
            assert forall|i: int| 0 <= i < r2.len() - 1 implies #[trigger] r2[i] != r2[i + 1] by {
                if i < r.len() - 1 {
                    assert(r2[i] == r[i]);
                    assert(r2[i + 1] == r[i + 1]);
                } else {
                    assert(r2[i] == r.last());
                    assert(r2[i + 1] == x);
                }
            }
        }
    }
}

/// Collapsing adjacent duplicates changes nothing when no two adjacent
/// segments are equal.
pub proof fn lemma_dedup_identity(segs: Seq<Seq<char>>)
    requires
        adjacent_distinct(segs),
    ensures
        dedup_adjacent(segs) == segs,
    decreases segs.len(),
{
    if segs.len() == 0 {
    } else {
        assert forall|i: int|
            0 <= i < segs.drop_last().len() - 1 implies #[trigger] segs.drop_last()[i]
            != segs.drop_last()[i + 1] by {
            assert(segs.drop_last()[i] == segs[i]);
            assert(segs.drop_last()[i + 1] == segs[i + 1]);
        }
        lemma_dedup_identity(segs.drop_last());
        let r = segs.drop_last();
        if r.len() > 0 {
            assert(r.last() == segs[segs.len() - 2]);
            assert(segs[segs.len() - 2] != segs[segs.len() - 2 + 1]);
            assert(segs.last() != r.last());
        }
        assert(r.push(segs.last()) =~= segs);
    }
}

proof fn lemma_dedup_good(segs: Seq<Seq<char>>)
    requires
        all_good(segs),
    ensures
        all_good(dedup_adjacent(segs)),
    decreases segs.len(),
{
    if segs.len() == 0 {
    } else {
        assert forall|i: int| 0 <= i < segs.drop_last().len() implies good_seg(
            #[trigger] segs.drop_last()[i],
        ) by {
            assert(segs.drop_last()[i] == segs[i]);
        }
        lemma_dedup_good(segs.drop_last());
        let r = dedup_adjacent(segs.drop_last());
        let x = segs.last();
        if r.len() > 0 && x == r.last() {
        } else {
            assert(good_seg(x));
            assert forall|i: int| 0 <= i < r.push(x).len() implies good_seg(
                #[trigger] r.push(x)[i],
            ) by {
                if i < r.len() {
                    assert(r.push(x)[i] == r[i]);
                } else {
                    assert(r.push(x)[i] == x);
                }
            }
        }
    }
}

/// Canonicalization collapses duplicates: a segment list with one segment
/// doubled collapses to the same list as with the segment written once.
pub proof fn lemma_dedup_collapses_duplicate(a: Seq<Seq<char>>, x: Seq<char>, b: Seq<Seq<char>>)
    ensures
        dedup_adjacent(a.push(x).push(x) + b) == dedup_adjacent(a.push(x) + b),
    decreases b.len(),
{
    if b.len() == 0 {
        assert(a.push(x).push(x) + b =~= a.push(x).push(x));
        assert(a.push(x) + b =~= a.push(x));
        assert(a.push(x).push(x).drop_last() =~= a.push(x));
        assert(a.push(x).push(x).last() == x);
        lemma_dedup_props(a.push(x));
        assert(a.push(x).last() == x);
        assert(dedup_adjacent(a.push(x)).last() == x);
    } else {
        let l1 = a.push(x).push(x) + b;
        let l2 = a.push(x) + b;
        assert(l1.drop_last() =~= a.push(x).push(x) + b.drop_last());
        assert(l2.drop_last() =~= a.push(x) + b.drop_last());
        assert(l1.last() == b.last());
        assert(l2.last() == b.last());
        lemma_dedup_collapses_duplicate(a, x, b.drop_last());
    }
}

/// Canonicalization collapses duplicates: two paths whose segment lists
/// differ only in one segment written twice in a row instead of once
/// canonicalize to the same string.
pub proof fn lemma_canonicalize_collapses_duplicate(
    s1: Seq<char>,
    s2: Seq<char>,
    a: Seq<Seq<char>>,
    x: Seq<char>,
    b: Seq<Seq<char>>,
    drive_first: bool,
)
    requires
        split_path(s1) == a.push(x).push(x) + b,
        split_path(s2) == a.push(x) + b,
    ensures
        canonical_spec(s1, drive_first) == canonical_spec(s2, drive_first),
{
    lemma_dedup_collapses_duplicate(a, x, b);
}

proof fn lemma_trim_colons_shape(s: Seq<char>)
    ensures
        trim_colons(s).len() > 0 ==> trim_colons(s).last() != ':',
        trim_colons(s).len() <= s.len(),
        forall|i: int| 0 <= i < trim_colons(s).len() ==> #[trigger] trim_colons(s)[i] == s[i],
    decreases s.len(),
{
    if s.len() > 0 && s.last() == ':' {
        lemma_trim_colons_shape(s.drop_last());
        assert forall|i: int| 0 <= i < trim_colons(s).len() implies #[trigger] trim_colons(s)[i]
            == s[i] by {
            assert(trim_colons(s)[i] == s.drop_last()[i]);
        }
    }
}

proof fn lemma_driveify_idempotent(s: Seq<char>)
    ensures
        driveify(driveify(s)) == driveify(s),
{
    lemma_trim_colons_shape(s);
    let t = trim_colons(s);
    assert(t.push(':').last() == ':');
    assert(t.push(':').drop_last() =~= t);
    assert(trim_colons(t.push(':')) == trim_colons(t));
    if t.len() > 0 {
        assert(t.last() != ':');
        assert(trim_colons(t) == t);
    } else {
        assert(trim_colons(t) == t);
    }
}

proof fn lemma_driveify_good(s: Seq<char>)
    requires
        forall|i: int| 0 <= i < s.len() ==> !is_sep(#[trigger] s[i]),
    ensures
        good_seg(driveify(s)),
{
    lemma_trim_colons_shape(s);
    let d = driveify(s);
    assert(d.last() == ':');
    assert forall|i: int| 0 <= i < d.len() implies !is_sep(#[trigger] d[i]) by {
        if i < trim_colons(s).len() {
            assert(d[i] == trim_colons(s)[i]);
            assert(trim_colons(s)[i] == s[i]);
        } else {
            assert(d[i] == ':');
        }
    }
}

/// Canonicalization without drive handling is idempotent: canonicalizing
/// an already canonical path returns it unchanged.
pub proof fn lemma_canonicalize_idempotent(s: Seq<char>)
    ensures
        canonical_spec(canonical_spec(s, false), false) == canonical_spec(s, false),
{
    let raw = split_path(s);
    lemma_split_good(s);
    lemma_dedup_good(raw);
    lemma_dedup_props(raw);
    let segs = dedup_adjacent(raw);
    if segs.len() == 0 {
        assert(canonical_spec(s, false) == Seq::<char>::empty());
        assert(split_acc(Seq::<char>::empty(), Seq::<char>::empty()) =~= Seq::<Seq<char>>::empty());
    } else {
        let c = seq!['/'] + join_segs(segs);
        assert(canonical_spec(s, false) == c);
        assert(c[0] == '/');
        assert(is_sep(c[0]));
        assert(c.drop_first() =~= join_segs(segs));
        assert(split_path(c) == split_acc(join_segs(segs), Seq::empty()));
        lemma_split_of_join(segs);
        lemma_dedup_identity(segs);
    }
}

/// Canonicalization with drive handling is idempotent, provided the
/// rendered drive does not itself duplicate the following segment.
pub proof fn lemma_canonicalize_idempotent_drive(s: Seq<char>)
    requires
        ({
            let segs = dedup_adjacent(split_path(s));
            segs.len() <= 1 || driveify(segs[0]) != segs[1]
        }),
    ensures
        canonical_spec(canonical_spec(s, true), true) == canonical_spec(s, true),
{
    let raw = split_path(s);
    lemma_split_good(s);
    lemma_dedup_good(raw);
    lemma_dedup_props(raw);
    let segs = dedup_adjacent(raw);
    if segs.len() == 0 {
        assert(canonical_spec(s, true) == Seq::<char>::empty());
        assert(split_acc(Seq::<char>::empty(), Seq::<char>::empty()) =~= Seq::<Seq<char>>::empty());
    } else {
        let segs2 = seq![driveify(segs[0])] + segs.drop_first();
        let c = join_segs(segs2);
        assert(canonical_spec(s, true) == c);
        assert(good_seg(segs[0]));
        lemma_driveify_good(segs[0]);
        assert forall|i: int| 0 <= i < segs2.len() implies good_seg(#[trigger] segs2[i]) by {
            if i > 0 {
                assert(segs2[i] == segs[i]);
            }
        }
        lemma_split_of_join(segs2);
        assert(split_path(c) == segs2);
        assert forall|i: int| 0 <= i < segs2.len() - 1 implies #[trigger] segs2[i] != segs2[i
            + 1] by {
            if i == 0 {
                assert(segs2[0] == driveify(segs[0]));
                assert(segs2[1] == segs[1]);
            } else {
                assert(segs2[i] == segs[i]);
                assert(segs2[i + 1] == segs[i + 1]);
            }
        }
        lemma_dedup_identity(segs2);
        lemma_driveify_idempotent(segs[0]);
        assert(segs2[0] == driveify(segs[0]));
        assert(seq![driveify(segs2[0])] + segs2.drop_first() =~= segs2);
        assert(canonical_spec(c, true) == join_segs(seq![driveify(segs2[0])] + segs2.drop_first()));
    }
}

} // verus!
