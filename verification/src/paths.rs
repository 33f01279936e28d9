//! The path algebra: slash-delimited path strings, their decomposition into
//! segments, string-level joining of a working directory with a target, and
//! the single-level parent-marker (`..`) substitution used by sessions.
//!
//! A path's meaning is its sequence of segments. An absolute path (one that
//! begins with `/`) has the root name `/` as its first segment; empty pieces
//! (from doubled or trailing slashes) and `.` pieces are dropped.

use vstd::prelude::*;
use vstd::string::StrSliceExecFns;
use vstd::string::StringExecFns;

verus! {

/// Index of the first `/` in `s`, or `s.len()` if there is none.
pub open spec fn find_slash(s: Seq<char>) -> int
    decreases s.len(),
{
    if s.len() == 0 {
        0
    } else if s[0] == '/' {
        0
    } else {
        1 + find_slash(s.drop_first())
    }
}

/// The segments of a path, not counting a leading root `/`: the pieces
/// between slashes, with empty pieces and `.` pieces dropped.
pub open spec fn raw_segments(s: Seq<char>) -> Seq<Seq<char>>
    decreases s.len() via raw_segments_decreases
{
    if s.len() == 0 {
        Seq::empty()
    } else {
        let i = find_slash(s);
        let head = s.take(i);
        let rest = if i == s.len() {
            Seq::<char>::empty()
        } else {
            s.skip(i + 1)
        };
        (if head.len() == 0 || head == seq!['.'] {
            Seq::<Seq<char>>::empty()
        } else {
            seq![head]
        }) + raw_segments(rest)
    }
}

#[via_fn]
proof fn raw_segments_decreases(s: Seq<char>) {
    if s.len() > 0 {
        lemma_find_slash_bounds(s);
    }
}

proof fn lemma_find_slash_bounds(s: Seq<char>)
    ensures
        0 <= find_slash(s) <= s.len(),
    decreases s.len(),
{
    if s.len() > 0 && s[0] != '/' {
        lemma_find_slash_bounds(s.drop_first());
    }
}

/// The segments of a path string. An absolute path contributes the root name
/// `/` as its first segment.
pub open spec fn segments(s: Seq<char>) -> Seq<Seq<char>> {
    if s.len() > 0 && s[0] == '/' {
        seq![seq!['/']] + raw_segments(s.skip(1))
    } else {
        raw_segments(s)
    }
}

proof fn lemma_find_slash_at(s: Seq<char>, i: int)
    requires
        0 <= i <= s.len(),
        forall|k: int| 0 <= k < i ==> s[k] != '/',
        i < s.len() ==> s[i] == '/',
    ensures
        find_slash(s) == i,
    decreases i,
{
    if s.len() == 0 {
    } else if i == 0 {
    } else {
        assert(forall|k: int| 0 <= k < i - 1 ==> s.drop_first()[k] != '/');
        lemma_find_slash_at(s.drop_first(), i - 1);
    }
}

/// One unfolding of `raw_segments`: if the first piece of `s` ends at `i`
/// (either a slash there or the end of the string), the segments of `s` are
/// that piece (unless dropped) followed by the segments of the rest.
proof fn lemma_raw_segments_step(s: Seq<char>, i: int)
    requires
        0 <= i <= s.len(),
        forall|k: int| 0 <= k < i ==> s[k] != '/',
        i < s.len() ==> s[i] == '/',
    ensures
        raw_segments(s) == (if i == 0 || s.take(i) == seq!['.'] {
            Seq::<Seq<char>>::empty()
        } else {
            seq![s.take(i)]
        }) + raw_segments(if i == s.len() {
            Seq::<char>::empty()
        } else {
            s.skip(i + 1)
        }),
{
    if s.len() == 0 {
        assert(raw_segments(s) =~= Seq::<Seq<char>>::empty());
    } else {
        lemma_find_slash_at(s, i);
        assert(s.take(i).len() == 0 <==> i == 0);
    }
}

/// Split a path string into its segments.
pub fn split_path(path: &str) -> (r: Vec<String>)
    ensures
        r.deep_view() == segments(path@),
{
    let n = path.unicode_len();
    let mut segs: Vec<String> = Vec::new();
    let mut start: usize = 0;
    if n > 0 && path.get_char(0) == '/' {
        let root = "/";
        proof {
            reveal_strlit("/");
            assert(root@ =~= seq!['/']);
        }
        segs.push(root.to_owned());
        start = 1;
        proof {
            assert(segs.deep_view() =~= seq![seq!['/']]);
        }
    }
    proof {
        assert(path@.skip(0) =~= path@);
        assert(segs.deep_view() + raw_segments(path@.skip(start as int)) =~= segments(
            path@,
        ));
    }
    loop
        invariant_except_break
            n == path@.len(),
            start <= n,
            segs.deep_view() + raw_segments(path@.skip(start as int)) == segments(path@),
        ensures
            segs.deep_view() == segments(path@),
        decreases n - start,
    {
        let mut j = start;
        while j < n && path.get_char(j) != '/'
            invariant
                n == path@.len(),
                start <= j <= n,
                forall|k: int| start <= k < j ==> path@[k] != '/',
            decreases n - j,
        {
            j += 1;
        }
        let ghost suffix = path@.skip(start as int);
        proof {
            assert(forall|k: int| 0 <= k < j - start ==> suffix[k] != '/');
            lemma_raw_segments_step(suffix, j - start);
        }
        let piece = path.substring_char(start, j);
        let is_dot = piece.unicode_len() == 1 && piece.get_char(0) == '.';
        if j > start && !is_dot {
            proof {
                assert(piece@ != seq!['.']) by {
                    if piece@ == seq!['.'] {
                        assert(piece@[0] == '.');
                    }
                }
                assert(suffix.take(j - start) =~= piece@);
            }
            segs.push(piece.to_owned());
        } else {
            proof {
                if j > start {
                    assert(suffix.take(j - start) =~= piece@);
                    assert(piece@ =~= seq!['.']) by {
                        assert(piece@.len() == 1 && piece@[0] == '.');
                    }
                }
            }
        }
        if j == n {
            proof {
                assert(raw_segments(Seq::<char>::empty()) =~= Seq::<Seq<char>>::empty());
                assert(segs.deep_view() =~= segments(path@));
            }
            break;
        }
        proof {
            assert(suffix.skip(j - start + 1) =~= path@.skip(j + 1));
            assert(segs.deep_view() + raw_segments(path@.skip(j + 1)) =~= segments(path@));
        }
        start = j + 1;
    }
    segs
}

/// String-level joining, as a working directory and a target are joined: an
/// absolute target replaces the working directory entirely, a relative one
/// extends it with a separator, an empty one leaves it as it is.
pub open spec fn joined(wd: Seq<char>, target: Seq<char>) -> Seq<char> {
    if target.len() > 0 && target[0] == '/' {
        target
    } else if target.len() == 0 {
        wd
    } else if wd.len() > 0 && wd[wd.len() - 1] == '/' {
        wd + target
    } else {
        wd + seq!['/'] + target
    }
}

/// Join a working directory string and a target string.
pub fn join_path(wd: &str, target: &str) -> (r: String)
    ensures
        r@ == joined(wd@, target@),
{
    let n = target.unicode_len();
    if n > 0 && target.get_char(0) == '/' {
        return target.to_owned();
    }
    if n == 0 {
        return wd.to_owned();
    }
    let m = wd.unicode_len();
    let mut out = wd.to_owned();
    if !(m > 0 && wd.get_char(m - 1) == '/') {
        out.append("/");
        proof {
            reveal_strlit("/");
            assert("/"@ =~= seq!['/']);
        }
    }
    out.append(target);
    proof {
        assert(out@ =~= joined(wd@, target@));
    }
    out
}

/// The names joined as `a/b/c`.
pub open spec fn join_names(names: Seq<Seq<char>>) -> Seq<char>
    decreases names.len(),
{
    if names.len() == 0 {
        Seq::empty()
    } else if names.len() == 1 {
        names[0]
    } else {
        join_names(names.drop_last()) + seq!['/'] + names.last()
    }
}

/// The canonical absolute path holding the given names under the root.
pub open spec fn render_abs(names: Seq<Seq<char>>) -> Seq<char> {
    seq!['/'] + join_names(names)
}

/// The string form of a path's parent: the path without its final segment.
/// The root `/` (and the empty path) has none; a single relative name has
/// the empty path as its parent.
pub open spec fn parent_view(wd: Seq<char>) -> Option<Seq<char>> {
    let segs = segments(wd);
    if segs.len() == 0 {
        None
    } else if segs[0] == seq!['/'] {
        if segs.len() == 1 {
            None
        } else {
            Some(render_abs(segs.drop_first().drop_last()))
        }
    } else {
        Some(join_names(segs.drop_last()))
    }
}

/// The parent of a path string, or `None` where it has none (the root).
pub fn parent_of(wd: &str) -> (r: Option<String>)
    ensures
        match r {
            Some(p) => parent_view(wd@) == Some(p@),
            None => parent_view(wd@) is None,
        },
{
    let segs = split_path(wd);
    if segs.len() == 0 {
        return None;
    }
    let root = segs[0].unicode_len() == 1 && segs[0].as_str().get_char(0) == '/';
    proof {
        reveal_strlit("/");
        if root {
            assert(segs.deep_view()[0] =~= seq!['/']);
        } else {
            assert(segs.deep_view()[0] != seq!['/']) by {
                if segs.deep_view()[0] == seq!['/'] {
                    assert(segs@[0]@[0] == '/');
                }
            }
        }
    }
    if root {
        if segs.len() == 1 {
            return None;
        }
        return Some(trim_last_name(&segs));
    }
    let n = segs.len();
    let inner = join_names_take(&segs, n - 1);
    proof {
        assert(segs.deep_view().take(n - 1) =~= segs.deep_view().drop_last());
    }
    Some(inner)
}

/// Render the canonical absolute path of all names but the last.
fn trim_last_name(segs: &Vec<String>) -> (r: String)
    requires
        segs@.len() >= 2,
        segs.deep_view()[0] == seq!['/'],
    ensures
        r@ == render_abs(segs.deep_view().drop_first().drop_last()),
{
    let mut out = String::new();
    out.append("/");
    proof {
        reveal_strlit("/");
        assert("/"@ =~= seq!['/']);
    }
    let n = segs.len();
    let names = join_names_take_from(segs, 1, n - 1);
    out.append(names.as_str());
    proof {
        assert(segs.deep_view().skip(1).take(n - 1 - 1) =~= segs.deep_view().drop_first().drop_last());
    }
    out
}

/// Render `a/b/c` from the names in `segs[from..to]`.
fn join_names_take_from(segs: &Vec<String>, from: usize, to: usize) -> (r: String)
    requires
        from <= to <= segs@.len(),
    ensures
        r@ == join_names(segs.deep_view().skip(from as int).take(to - from)),
{
    let ghost tail = segs.deep_view().skip(from as int).take(to - from);
    let mut out = String::new();
    let mut k = from;
    while k < to
        invariant
            from <= k <= to <= segs@.len(),
            tail == segs.deep_view().skip(from as int).take(to - from),
            out@ == join_names(tail.take(k - from)),
        decreases to - k,
    {
        if k > from {
            out.append("/");
            proof {
                reveal_strlit("/");
                assert("/"@ =~= seq!['/']);
            }
        }
        out.append(segs[k].as_str());
        proof {
            let t2 = tail.take(k - from + 1);
            assert(t2.drop_last() =~= tail.take(k - from));
            assert(t2.last() == segs.deep_view()[k as int]);
            assert(out@ == join_names(t2));
        }
        k += 1;
    }
    proof {
        assert(tail.take(to - from) =~= tail);
    }
    out
}

/// Render `a/b/c` from the first `to` names.
fn join_names_take(segs: &Vec<String>, to: usize) -> (r: String)
    requires
        to <= segs@.len(),
    ensures
        r@ == join_names(segs.deep_view().take(to as int)),
{
    let r = join_names_take_from(segs, 0, to);
    proof {
        assert(segs.deep_view().skip(0).take(to as int) =~= segs.deep_view().take(to as int));
    }
    r
}

/// Index of the first parent marker `..` in `s` (scanning left to right), or
/// an index past any possible match if there is none.
pub open spec fn find_marker(s: Seq<char>) -> int
    decreases s.len(),
{
    if s.len() < 2 {
        s.len() as int
    } else if s[0] == '.' && s[1] == '.' {
        0
    } else {
        1 + find_marker(s.drop_first())
    }
}

/// Does `s` contain the parent marker `..` anywhere?
pub open spec fn has_marker(s: Seq<char>) -> bool {
    find_marker(s) + 2 <= s.len()
}

proof fn lemma_find_marker_bounds(s: Seq<char>)
    ensures
        0 <= find_marker(s) <= s.len(),
        has_marker(s) ==> s[find_marker(s)] == '.' && s[find_marker(s) + 1] == '.',
        forall|k: int|
            0 <= k < find_marker(s) && k + 2 <= s.len() ==> !(#[trigger] s[k] == '.' && s[k + 1]
                == '.'),
    decreases s.len(),
{
    if s.len() >= 2 && !(s[0] == '.' && s[1] == '.') {
        lemma_find_marker_bounds(s.drop_first());
        assert forall|k: int|
            1 <= k < find_marker(s) && k + 2 <= s.len() implies !(#[trigger] s[k] == '.' && s[k
            + 1] == '.') by {
            assert(s.drop_first()[k - 1] == s[k]);
            assert(s.drop_first()[k] == s[k + 1]);
        };
    }
}

/// If a marker stands at `i` and none stands earlier, `i` is where the scan
/// finds it.
proof fn lemma_find_marker_at(s: Seq<char>, i: int)
    requires
        0 <= i,
        i + 2 <= s.len(),
        s[i] == '.' && s[i + 1] == '.',
        forall|k: int| 0 <= k < i ==> !(#[trigger] s[k] == '.' && s[k + 1] == '.'),
    ensures
        find_marker(s) == i,
    decreases i,
{
    if i > 0 {
        assert(forall|k: int| 0 <= k < i - 1 ==> !(#[trigger] s.drop_first()[k] == '.' && s.drop_first()[k
            + 1] == '.'));
        lemma_find_marker_at(s.drop_first(), i - 1);
    }
}

/// If no marker stands anywhere in `s`, the scan runs past the end.
proof fn lemma_find_marker_none(s: Seq<char>)
    requires
        forall|k: int| 0 <= k && k + 2 <= s.len() ==> !(#[trigger] s[k] == '.' && s[k + 1] == '.'),
    ensures
        !has_marker(s),
    decreases s.len(),
{
    if s.len() >= 2 {
        assert(forall|k: int| 0 <= k && k + 2 <= s.drop_first().len() ==> !(#[trigger] s.drop_first()[k]
            == '.' && s.drop_first()[k + 1] == '.'));
        lemma_find_marker_none(s.drop_first());
    }
}

/// Single-level parent substitution, the session's path-resolution step for
/// a target against a working directory:
/// - a target without a parent marker is kept as it is;
/// - a parent marker in an absolute target is rejected;
/// - a parent marker while the working directory has no parent is rejected;
/// - more than one parent marker (nested `../..` included) is rejected;
/// - otherwise the one marker is textually replaced by the string form of
///   the working directory's parent.
pub open spec fn adjust_spec(wd: Seq<char>, target: Seq<char>) -> Option<Seq<char>> {
    if !has_marker(target) {
        Some(target)
    } else if target.len() > 0 && target[0] == '/' {
        None
    } else {
        match parent_view(wd) {
            None => None,
            Some(p) => {
                let i = find_marker(target);
                if has_marker(target.skip(i + 2)) {
                    None
                } else {
                    Some(target.take(i) + p + target.skip(i + 2))
                }
            },
        }
    }
}

/// Scan for the first parent marker at or after `from`.
fn scan_marker(s: &str, from: usize) -> (r: Option<usize>)
    requires
        from <= s@.len(),
    ensures
        match r {
            Some(i) => from <= i && i + 2 <= s@.len() && s@[i as int] == '.' && s@[i as int + 1]
                == '.' && (forall|k: int|
                from <= k < i ==> !(#[trigger] s@[k] == '.' && s@[k + 1] == '.')),
            None => forall|k: int|
                from <= k && k + 2 <= s@.len() ==> !(#[trigger] s@[k] == '.' && s@[k + 1] == '.'),
        },
{
    let n = s.unicode_len();
    if n < 2 {
        return None;
    }
    let mut k = from;
    while k < n - 1
        invariant
            n == s@.len(),
            n >= 2,
            from <= k,
            k <= n,
            forall|m: int| from <= m < k ==> !(#[trigger] s@[m] == '.' && s@[m + 1] == '.'),
        decreases n - k,
    {
        if s.get_char(k) == '.' && s.get_char(k + 1) == '.' {
            return Some(k);
        }
        k += 1;
    }
    None
}

/// Apply the parent substitution of `adjust_spec` to a target, against the
/// given working directory. `None` is the rejection case.
pub fn adjust_path(wd: &str, target: &str) -> (r: Option<String>)
    ensures
        match r {
            Some(s) => adjust_spec(wd@, target@) == Some(s@),
            None => adjust_spec(wd@, target@) is None,
        },
{
    let n = target.unicode_len();
    let found = scan_marker(target, 0);
    match found {
        None => {
            proof {
                lemma_find_marker_none(target@);
            }
            Some(target.to_owned())
        },
        Some(i) => {
            proof {
                lemma_find_marker_at(target@, i as int);
            }
            if n > 0 && target.get_char(0) == '/' {
                return None;
            }
            let parent = match parent_of(wd) {
                None => {
                    return None;
                },
                Some(p) => p,
            };
            match scan_marker(target, i + 2) {
                Some(m) => {
                    proof {
                        let rest = target@.skip(i as int + 2);
                        lemma_find_marker_bounds(rest);
                        assert(rest[m - i - 2] == '.' && rest[m - i - 1] == '.');
                        assert(has_marker(rest));
                    }
                    None
                },
                None => {
                    proof {
                        assert(forall|k: int|
                            0 <= k && k + 2 <= target@.skip(i as int + 2).len() ==> !(
                            #[trigger] target@.skip(i as int + 2)[k] == '.' && target@.skip(
                                i as int + 2,
                            )[k + 1] == '.'));
                        lemma_find_marker_none(target@.skip(i as int + 2));
                    }
                    let mut out = target.substring_char(0, i).to_owned();
                    out.append(parent.as_str());
                    out.append(target.substring_char(i + 2, n));
                    proof {
                        assert(target@.subrange(0, i as int) =~= target@.take(i as int));
                        assert(target@.subrange(i as int + 2, n as int) =~= target@.skip(
                            i as int + 2,
                        ));
                        assert(out@ =~= target@.take(i as int) + parent@ + target@.skip(
                            i as int + 2,
                        ));
                    }
                    Some(out)
                },
            }
        },
    }
}

/// Does the segment sequence `p` begin with `prefix`?
pub open spec fn begins_with(p: Seq<Seq<char>>, prefix: Seq<Seq<char>>) -> bool {
    prefix.len() <= p.len() && p.take(prefix.len() as int) == prefix
}

/// Stepping both sequences past a shared first segment preserves prefixes.
pub(crate) proof fn lemma_begins_with_step(q: Seq<Seq<char>>, p: Seq<Seq<char>>)
    requires
        p.len() >= 1,
    ensures
        begins_with(q, p) == (q.len() >= 1 && q[0] == p[0] && begins_with(
            q.drop_first(),
            p.drop_first(),
        )),
{
    if q.len() >= 1 && p.len() <= q.len() {
        let qt = q.take(p.len() as int);
        let qt2 = q.drop_first().take(p.len() - 1);
        assert(qt.drop_first() =~= qt2);
        if q[0] == p[0] && qt2 == p.drop_first() {
            assert forall|k: int| 0 <= k < p.len() implies qt[k] == p[k] by {
                if k > 0 {
                    assert(qt2[k - 1] == p.drop_first()[k - 1]);
                }
            }
            assert(qt =~= p);
        }
        if qt == p {
            assert(qt[0] == q[0]);
        }
    }
}

/// A prefix strictly shorter than the path it begins never equals it.
pub(crate) proof fn lemma_begins_with_len(q: Seq<Seq<char>>, p: Seq<Seq<char>>)
    requires
        begins_with(q, p),
        q.len() == p.len(),
    ensures
        q == p,
{
    assert(q.take(p.len() as int) =~= q);
}

/// Do two path strings name the same path, segment for segment?
pub fn same_path(a: &str, b: &str) -> (r: bool)
    ensures
        r == (segments(a@) == segments(b@)),
{
    let sa = split_path(a);
    let sb = split_path(b);
    if sa.len() != sb.len() {
        proof {
            assert(segments(a@).len() != segments(b@).len());
        }
        return false;
    }
    let mut i: usize = 0;
    while i < sa.len()
        invariant
            sa@.len() == sb@.len(),
            i <= sa@.len(),
            sa.deep_view() == segments(a@),
            sb.deep_view() == segments(b@),
            forall|k: int| 0 <= k < i ==> sa.deep_view()[k] == sb.deep_view()[k],
        decreases sa@.len() - i,
    {
        if !(sa[i] == sb[i]) {
            proof {
                assert(segments(a@)[i as int] != segments(b@)[i as int]);
            }
            return false;
        }
        i += 1;
    }
    proof {
        assert(segments(a@) =~= segments(b@));
    }
    true
}

} // verus!
