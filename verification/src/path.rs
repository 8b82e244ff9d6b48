//! Paths as text.
//!
//! A path is a sequence of characters in which `/` separates the components.
//! Runs of separators count as one, a separator at the end is ignored, and a
//! component `.` counts only at the very start of a path. Two paths are the same
//! when they agree on whether they start at the root and on their components.

use vstd::prelude::*;
use crate::text::{chars_of, text_of};

verus! {

/// The character that separates the components of a path.
pub const SEPARATOR: char = '/';

/// The character that sets off the extension of a file name.
pub const DOT: char = '.';

/// The pieces of `p` between its separators, empty ones included.
pub open spec fn pieces(p: Seq<char>) -> Seq<Seq<char>>
    decreases p.len(),
{
    if p.len() == 0 {
        seq![Seq::<char>::empty()]
    } else {
        let before = pieces(p.drop_last());
        if p.last() == SEPARATOR {
            before.push(Seq::<char>::empty())
        } else {
            before.drop_last().push(before.last().push(p.last()))
        }
    }
}

/// Whether a piece counts as a component: it is not empty, and it is not a
/// `.` behind the first piece.
pub open spec fn is_component(piece: Seq<char>, first: bool) -> bool {
    piece.len() > 0 && (first || piece != seq![DOT])
}

/// The pieces that count as components, in order.
pub open spec fn select(ps: Seq<Seq<char>>) -> Seq<Seq<char>>
    decreases ps.len(),
{
    if ps.len() == 0 {
        Seq::<Seq<char>>::empty()
    } else if is_component(ps.last(), ps.len() == 1) {
        select(ps.drop_last()).push(ps.last())
    } else {
        select(ps.drop_last())
    }
}

/// The components of the path `p`.
pub open spec fn path_components(p: Seq<char>) -> Seq<Seq<char>> {
    select(pieces(p))
}

/// Whether the path `p` starts at the root.
pub open spec fn path_has_root(p: Seq<char>) -> bool {
    p.len() > 0 && p[0] == SEPARATOR
}

/// Whether `a` and `b` name the same path.
pub open spec fn paths_equal(a: Seq<char>, b: Seq<char>) -> bool {
    path_has_root(a) == path_has_root(b) && path_components(a) == path_components(b)
}

/// Whether a component is `.` or `..`, which name no file.
pub open spec fn is_dots(name: Seq<char>) -> bool {
    name == seq![DOT] || name == seq![DOT, DOT]
}

/// The file name of the path `p`: its last component, unless that is `.` or
/// `..` or the path has no component.
pub open spec fn path_file_name(p: Seq<char>) -> Option<Seq<char>> {
    let parts = path_components(p);
    if parts.len() == 0 || is_dots(parts.last()) {
        None
    } else {
        Some(parts.last())
    }
}

/// The position of the last dot in `name`, or -1 where it holds none.
pub open spec fn last_dot(name: Seq<char>) -> int
    decreases name.len(),
{
    if name.len() == 0 {
        -1
    } else if name.last() == DOT {
        name.len() - 1
    } else {
        last_dot(name.drop_last())
    }
}

/// The extension of a file name: what follows its last dot. A name without a
/// dot has none; a name that ends in a dot has the empty one; a name that
/// begins with its only dot, such as `.profile`, has what follows that dot.
pub open spec fn name_extension(name: Seq<char>) -> Option<Seq<char>> {
    let dot = last_dot(name);
    if dot < 0 {
        None
    } else {
        Some(name.subrange(dot + 1, name.len() as int))
    }
}

/// The extension of the file that the path `p` names.
pub open spec fn path_extension(p: Seq<char>) -> Option<Seq<char>> {
    match path_file_name(p) {
        Some(name) => name_extension(name),
        None => None,
    }
}

/// `base` with `part` as a further component.
pub open spec fn path_join(base: Seq<char>, part: Seq<char>) -> Seq<char> {
    if base.len() == 0 || base.last() == SEPARATOR {
        base + part
    } else {
        base.push(SEPARATOR) + part
    }
}

/// Where the file `name` belongs under `root`: in the folder named after its
/// extension tag.
pub open spec fn path_destination(root: Seq<char>, tag: Seq<char>, name: Seq<char>) -> Seq<char> {
    path_join(path_join(root, tag), name)
}

/// Every path has at least one piece.
pub proof fn lemma_pieces_len(p: Seq<char>)
    ensures
        pieces(p).len() >= 1,
    decreases p.len(),
{
    if p.len() > 0 {
        lemma_pieces_len(p.drop_last());
    }
}

/// Where the last dot of a name is: at a position that holds a dot and has
/// none behind it, or nowhere if the name holds no dot at all.
pub proof fn lemma_last_dot(name: Seq<char>)
    ensures
        -1 <= last_dot(name) < name.len(),
        last_dot(name) >= 0 ==> name[last_dot(name)] == DOT,
        forall|i: int| last_dot(name) < i < name.len() ==> name[i] != DOT,
    decreases name.len(),
{
    if name.len() > 0 && name.last() != DOT {
        let shorter = name.drop_last();
        lemma_last_dot(shorter);
        assert forall|i: int| last_dot(name) < i < name.len() implies name[i] != DOT by {
            if i < shorter.len() {
                assert(shorter[i] == name[i]);
            }
        }
    }
}

/// The extension of a name is what follows its last dot and holds no dot
/// itself; a name has none exactly if it holds no dot.
pub proof fn lemma_extension_holds_no_dot(name: Seq<char>)
    ensures
        match name_extension(name) {
            Some(ext) => {
                &&& ext.len() < name.len()
                &&& name[name.len() - ext.len() - 1] == DOT
                &&& ext == name.skip(name.len() - ext.len())
                &&& forall|i: int| 0 <= i < ext.len() ==> ext[i] != DOT
            },
            None => forall|i: int| 0 <= i < name.len() ==> name[i] != DOT,
        },
{
    lemma_last_dot(name);
}

/// Whether `text` holds no separator.
pub open spec fn has_no_separator(text: Seq<char>) -> bool {
    forall|i: int| 0 <= i < text.len() ==> text[i] != SEPARATOR
}

/// Whether `name` can be the file name of a path: it is not empty, holds no
/// separator, and is neither `.` nor `..`.
pub open spec fn is_plain_name(name: Seq<char>) -> bool {
    name.len() > 0 && has_no_separator(name) && !is_dots(name)
}

/// No piece of a path holds a separator.
pub proof fn lemma_pieces_hold_no_separator(p: Seq<char>)
    ensures
        forall|k: int| 0 <= k < pieces(p).len() ==> has_no_separator(#[trigger] pieces(p)[k]),
    decreases p.len(),
{
    if p.len() > 0 {
        lemma_pieces_len(p.drop_last());
        lemma_pieces_hold_no_separator(p.drop_last());
    }
}

/// Every component is one of the pieces, and none is empty.
pub proof fn lemma_select_keeps_pieces(ps: Seq<Seq<char>>)
    ensures
        forall|k: int|
            0 <= k < select(ps).len() ==> (#[trigger] select(ps)[k]).len() > 0 && exists|j: int|
                0 <= j < ps.len() && ps[j] == select(ps)[k],
    decreases ps.len(),
{
    if ps.len() > 0 {
        let before = ps.drop_last();
        lemma_select_keeps_pieces(before);
        assert forall|k: int| 0 <= k < select(ps).len() implies (#[trigger] select(ps)[k]).len() > 0
            && exists|j: int| 0 <= j < ps.len() && ps[j] == select(ps)[k] by {
            if k < select(before).len() {
                let j = choose|j: int| 0 <= j < before.len() && before[j] == select(before)[k];
                assert(ps[j] == select(ps)[k]);
            } else {
                assert(ps[ps.len() - 1] == select(ps)[k]);
            }
        }
    }
}

/// The file name of a path is a plain name.
pub proof fn lemma_file_name_is_plain(p: Seq<char>)
    requires
        path_file_name(p) is Some,
    ensures
        is_plain_name(path_file_name(p)->0),
{
    let parts = path_components(p);
    lemma_pieces_hold_no_separator(p);
    lemma_select_keeps_pieces(pieces(p));
    let k = parts.len() - 1;
    assert(parts[k].len() > 0);
    let j = choose|j: int| 0 <= j < pieces(p).len() && pieces(p)[j] == parts[k];
    assert(has_no_separator(pieces(p)[j]));
}

/// Text without a separator, put behind a path, lengthens its last piece.
pub proof fn lemma_pieces_append(a: Seq<char>, b: Seq<char>)
    requires
        has_no_separator(b),
    ensures
        pieces(a).len() >= 1,
        pieces(a + b) == pieces(a).drop_last().push(pieces(a).last() + b),
    decreases b.len(),
{
    lemma_pieces_len(a);
    if b.len() > 0 {
        let shorter = b.drop_last();
        lemma_pieces_append(a, shorter);
        assert((a + b).drop_last() == a + shorter);
        let mid = pieces(a + shorter);
        assert(mid.last().push(b.last()) == pieces(a).last() + b);
    }
}

/// Joining a plain name to a path adds it as the last component and leaves
/// the others as they are.
pub proof fn lemma_join_adds_component(base: Seq<char>, name: Seq<char>)
    requires
        is_plain_name(name),
    ensures
        path_components(path_join(base, name)) == path_components(base).push(name),
        path_has_root(path_join(base, name)) == path_has_root(base),
        path_file_name(path_join(base, name)) == Some(name),
{
    let stem = if base.len() == 0 || base.last() == SEPARATOR {
        base
    } else {
        base.push(SEPARATOR)
    };
    lemma_pieces_append(stem, name);
    lemma_pieces_len(stem);
    if stem.len() == 0 {
        let all = pieces(stem).drop_last().push(name);
        assert(all.drop_last() == Seq::<Seq<char>>::empty());
        assert(pieces(stem).drop_last() == Seq::<Seq<char>>::empty());
    } else {
        let front = pieces(stem.drop_last());
        lemma_pieces_len(stem.drop_last());
        assert(pieces(stem).drop_last() == front);
        let all = front.push(name);
        assert(all.drop_last() == front);
        if !(base.len() == 0 || base.last() == SEPARATOR) {
            assert(stem.drop_last() == base);
        }
    }
}

/// Behind a path that is empty or ends in a separator, the pieces of what
/// follows take the place of its last, empty piece.
pub proof fn lemma_pieces_concat(stem: Seq<char>, rest: Seq<char>)
    requires
        stem.len() == 0 || stem.last() == SEPARATOR,
    ensures
        pieces(stem).len() >= 1,
        pieces(stem + rest) == pieces(stem).drop_last() + pieces(rest),
    decreases rest.len(),
{
    lemma_pieces_len(stem);
    let front = pieces(stem).drop_last();
    if stem.len() > 0 {
        lemma_pieces_len(stem.drop_last());
    }
    if rest.len() > 0 {
        let shorter = rest.drop_last();
        lemma_pieces_concat(stem, shorter);
        lemma_pieces_len(shorter);
        assert((stem + rest).drop_last() == stem + shorter);
        let mid = front + pieces(shorter);
        if rest.last() == SEPARATOR {
            assert(mid.push(Seq::<char>::empty()) == front + pieces(shorter).push(
                Seq::<char>::empty(),
            ));
        } else {
            assert(mid.drop_last().push(mid.last().push(rest.last())) == front + pieces(
                shorter,
            ).drop_last().push(pieces(shorter).last().push(rest.last())));
        }
    }
}

/// The components among some pieces stay, in their places, when further
/// pieces follow.
pub proof fn lemma_select_prefix(front: Seq<Seq<char>>, more: Seq<Seq<char>>)
    ensures
        select(front).is_prefix_of(select(front + more)),
    decreases more.len(),
{
    if more.len() > 0 {
        lemma_select_prefix(front, more.drop_last());
        assert((front + more).drop_last() == front + more.drop_last());
    }
}

/// Whatever is joined to a path, the path's own components stay in front.
pub proof fn lemma_join_stays_under_base(base: Seq<char>, part: Seq<char>)
    ensures
        path_components(base).is_prefix_of(path_components(path_join(base, part))),
        base.len() > 0 ==> path_has_root(path_join(base, part)) == path_has_root(base),
{
    let stem = if base.len() == 0 || base.last() == SEPARATOR {
        base
    } else {
        base.push(SEPARATOR)
    };
    lemma_pieces_concat(stem, part);
    lemma_pieces_len(stem);
    let front = pieces(stem).drop_last();
    lemma_select_prefix(front, pieces(part));
    if stem.len() > 0 {
        lemma_pieces_len(stem.drop_last());
        assert(front == pieces(stem.drop_last()));
        if !(base.len() == 0 || base.last() == SEPARATOR) {
            assert(stem.drop_last() == base);
        }
    }
}

/// The destination of a file lies under the root: the root's components come
/// first, the file's name comes last, and at least that name has been added.
pub proof fn lemma_destination_is_under_root(root: Seq<char>, tag: Seq<char>, name: Seq<char>)
    requires
        is_plain_name(name),
    ensures
        path_components(root).is_prefix_of(path_components(path_destination(root, tag, name))),
        path_components(path_destination(root, tag, name)).len() > path_components(root).len(),
        path_file_name(path_destination(root, tag, name)) == Some(name),
        root.len() > 0 ==> path_has_root(path_destination(root, tag, name)) == path_has_root(root),
{
    let dir = path_join(root, tag);
    lemma_join_stays_under_base(root, tag);
    lemma_join_adds_component(dir, name);
}

/// `spans` marks out `parts` in `p`, one range of positions for each.
spec fn marks(spans: Seq<(usize, usize)>, p: Seq<char>, parts: Seq<Seq<char>>) -> bool {
    &&& spans.len() == parts.len()
    &&& forall|k: int|
        0 <= k < spans.len() ==> {
            &&& (#[trigger] spans[k]).0 <= spans[k].1 <= p.len()
            &&& p.subrange(spans[k].0 as int, spans[k].1 as int) == parts[k]
        }
}

/// Adds the piece from `start` to `end` to `spans` if it counts as a component.
fn close_piece(
    p: &Vec<char>,
    spans: &mut Vec<(usize, usize)>,
    start: usize,
    end: usize,
    Ghost(before): Ghost<Seq<Seq<char>>>,
)
    requires
        start <= end <= p@.len(),
        marks(old(spans)@, p@, select(before)),
        (start == 0) == (before.len() == 0),
    ensures
        marks(final(spans)@, p@, select(before.push(p@.subrange(start as int, end as int)))),
{
    let ghost piece = p@.subrange(start as int, end as int);
    let ghost all = before.push(piece);
    assert(all.drop_last() == before);
    let counts = end > start && (start == 0 || !(end - start == 1 && p[start] == DOT));
    proof {
        if end - start == 1 && p@[start as int] == DOT {
            assert(piece == seq![DOT]);
        } else if piece.len() > 0 {
            assert(piece[0] == p@[start as int]);
        }
    }
    if counts {
        spans.push((start, end));
    }
}

/// The components of `p`, each as the range of positions that it covers.
fn scan(p: &Vec<char>) -> (spans: Vec<(usize, usize)>)
    ensures
        marks(spans@, p@, path_components(p@)),
{
    let n = p.len();
    let mut spans: Vec<(usize, usize)> = Vec::new();
    let mut start: usize = 0;
    let mut i: usize = 0;
    while i < n
        invariant
            n == p@.len(),
            start <= i <= n,
            pieces(p@.take(i as int)).len() >= 1,
            pieces(p@.take(i as int)).last() == p@.subrange(start as int, i as int),
            (start == 0) == (pieces(p@.take(i as int)).len() == 1),
            marks(spans@, p@, select(pieces(p@.take(i as int)).drop_last())),
        decreases n - i,
    {
        let ghost ps = pieces(p@.take(i as int));
        proof {
            assert(p@.take(i + 1).drop_last() == p@.take(i as int));
        }
        if p[i] == SEPARATOR {
            close_piece(p, &mut spans, start, i, Ghost(ps.drop_last()));
            start = i + 1;
            proof {
                assert(ps.drop_last().push(ps.last()) == ps);
                assert(ps.push(Seq::<char>::empty()).drop_last() == ps);
            }
        } else {
            proof {
                let next = ps.drop_last().push(ps.last().push(p@[i as int]));
                assert(next.drop_last() == ps.drop_last());
            }
        }
        i += 1;
    }
    let ghost ps = pieces(p@);
    proof {
        assert(p@.take(n as int) == p@);
        assert(ps.drop_last().push(ps.last()) == ps);
    }
    close_piece(p, &mut spans, start, n, Ghost(ps.drop_last()));
    spans
}

/// Whether the characters of `p` from `start` to `end` spell `.` or `..`.
fn dots_at(p: &Vec<char>, start: usize, end: usize) -> (dots: bool)
    requires
        start <= end <= p@.len(),
    ensures
        dots == is_dots(p@.subrange(start as int, end as int)),
{
    let ghost name = p@.subrange(start as int, end as int);
    if end - start == 1 {
        proof {
            assert(name[0] == p@[start as int]);
            if name[0] == DOT {
                assert(name == seq![DOT]);
            }
        }
        p[start] == DOT
    } else if end - start == 2 {
        proof {
            assert(seq![DOT, DOT].len() == 2 && seq![DOT, DOT][0] == DOT && seq![DOT, DOT][1] == DOT);
            if name[0] == DOT && name[1] == DOT {
                assert(name == seq![DOT, DOT]);
            }
        }
        p[start] == DOT && p[start + 1] == DOT
    } else {
        false
    }
}

/// The range of positions that the file name of `p` covers.
fn name_span(p: &Vec<char>) -> (span: Option<(usize, usize)>)
    ensures
        match span {
            Some(s) => s.0 <= s.1 <= p@.len() && path_file_name(p@) == Some(
                p@.subrange(s.0 as int, s.1 as int),
            ),
            None => path_file_name(p@) is None,
        },
{
    let spans = scan(p);
    if spans.len() == 0 {
        return None;
    }
    let last = spans[spans.len() - 1];
    if dots_at(p, last.0, last.1) {
        None
    } else {
        Some(last)
    }
}

/// The file name of `path`: its last component, or `None` where the path ends
/// in `.` or `..` or has no component at all.
pub fn file_name(path: &str) -> (name: Option<String>)
    ensures
        text_of(name) == path_file_name(path@),
{
    let chars = chars_of(path);
    match name_span(&chars) {
        None => None,
        Some(span) => Some(path.substring_char(span.0, span.1).to_owned()),
    }
}

/// The extension of the file that `path` names: what follows the last dot of
/// its file name, or `None` where the path has no file name or the name no dot.
pub fn extension(path: &str) -> (ext: Option<String>)
    ensures
        text_of(ext) == path_extension(path@),
{
    let chars = chars_of(path);
    match name_span(&chars) {
        None => None,
        Some(span) => {
            let start = span.0;
            let end = span.1;
            let ghost name = chars@.subrange(start as int, end as int);
            let mut j = end;
            proof {
                assert(name.take(name.len() as int) == name);
            }
            while j > start
                invariant
                    start <= j <= end <= chars@.len(),
                    chars@ == path@,
                    name == chars@.subrange(start as int, end as int),
                    path_file_name(path@) == Some(name),
                    last_dot(name) == last_dot(name.take(j - start)),
                decreases j,
            {
                let ghost head = name.take(j - start);
                proof {
                    assert(head.drop_last() == name.take(j - 1 - start));
                }
                if chars[j - 1] == DOT {
                    proof {
                        assert(name.subrange(j - start, name.len() as int) == chars@.subrange(
                            j as int,
                            end as int,
                        ));
                    }
                    return Some(path.substring_char(j, end).to_owned());
                }
                j -= 1;
            }
            None
        },
    }
}

/// Whether the characters of `a` in `sa` and those of `b` in `sb` are the same.
fn same_text(a: &Vec<char>, sa: (usize, usize), b: &Vec<char>, sb: (usize, usize)) -> (same: bool)
    requires
        sa.0 <= sa.1 <= a@.len(),
        sb.0 <= sb.1 <= b@.len(),
    ensures
        same == (a@.subrange(sa.0 as int, sa.1 as int) == b@.subrange(sb.0 as int, sb.1 as int)),
{
    let ghost ta = a@.subrange(sa.0 as int, sa.1 as int);
    let ghost tb = b@.subrange(sb.0 as int, sb.1 as int);
    let len = sa.1 - sa.0;
    if sb.1 - sb.0 != len {
        assert(ta.len() != tb.len());
        return false;
    }
    let mut k: usize = 0;
    while k < len
        invariant
            k <= len,
            len == sa.1 - sa.0,
            len == sb.1 - sb.0,
            sa.1 <= a@.len(),
            sb.1 <= b@.len(),
            ta == a@.subrange(sa.0 as int, sa.1 as int),
            tb == b@.subrange(sb.0 as int, sb.1 as int),
            forall|j: int| 0 <= j < k ==> ta[j] == tb[j],
        decreases len - k,
    {
        if a[sa.0 + k] != b[sb.0 + k] {
            assert(ta[k as int] != tb[k as int]);
            return false;
        }
        k += 1;
    }
    assert(ta =~= tb);
    true
}

/// Whether `a` and `b` name the same path: both start at the root or neither
/// does, and their components are the same.
pub fn same_path(a: &str, b: &str) -> (same: bool)
    ensures
        same == paths_equal(a@, b@),
{
    let ca = chars_of(a);
    let cb = chars_of(b);
    let root_a = ca.len() > 0 && ca[0] == SEPARATOR;
    let root_b = cb.len() > 0 && cb[0] == SEPARATOR;
    if root_a != root_b {
        return false;
    }
    let sa = scan(&ca);
    let sb = scan(&cb);
    if sa.len() != sb.len() {
        return false;
    }
    let ghost pa = path_components(a@);
    let ghost pb = path_components(b@);
    let mut k: usize = 0;
    while k < sa.len()
        invariant
            k <= sa.len(),
            sa.len() == sb.len(),
            ca@ == a@,
            cb@ == b@,
            pa == path_components(a@),
            pb == path_components(b@),
            marks(sa@, ca@, pa),
            marks(sb@, cb@, pb),
            forall|j: int| 0 <= j < k ==> pa[j] == pb[j],
        decreases sa.len() - k,
    {
        if !same_text(&ca, sa[k], &cb, sb[k]) {
            return false;
        }
        k += 1;
    }
    assert(pa =~= pb);
    true
}

/// `base` with `part` as a further component: a separator goes between the two
/// unless `base` is empty or already ends in one.
pub fn join(base: &str, part: &str) -> (joined: String)
    ensures
        joined@ == path_join(base@, part@),
{
    let n = base.unicode_len();
    let mut joined = base.to_owned();
    if n > 0 && base.get_char(n - 1) != SEPARATOR {
        proof {
            reveal_strlit("/");
        }
        joined.append("/");
    }
    joined.append(part);
    joined
}

/// Where the file `name` belongs under `root`: `root`, then the folder named
/// `tag`, then `name`.
pub fn destination(root: &str, tag: &str, name: &str) -> (dest: String)
    ensures
        dest@ == path_destination(root@, tag@, name@),
{
    let dir = join(root, tag);
    join(dir.as_str(), name)
}

} // verus!
