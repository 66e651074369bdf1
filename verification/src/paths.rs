//! Unix paths as text: their components, joining, and prefix tests, as `std::path` reads them.
use vstd::prelude::*;

use crate::text::{chars_equal, push_all, split_at_char, split_on, views};

verus! {

/// A path component.
pub enum PathPart {
    /// The leading `/`.
    RootDir,
    /// A leading `.`.
    CurDir,
    /// `..`.
    ParentDir,
    /// Any other non-empty segment.
    Normal(Seq<char>),
}

/// `.`
pub open spec fn dot() -> Seq<char> {
    seq!['.']
}

/// `..`
pub open spec fn dot_dot() -> Seq<char> {
    seq!['.', '.']
}

/// Whether the path `s` starts at the root, that is, is absolute.
pub open spec fn has_root(s: Seq<char>) -> bool {
    s.len() > 0 && s[0] == '/'
}

/// The `/`-separated segments of `s`.
pub open spec fn segments(s: Seq<char>) -> Seq<Seq<char>> {
    split_on(s, '/')
}

/// The components that the segments `segs` give: empty segments and `.` give none.
pub open spec fn segment_parts(segs: Seq<Seq<char>>) -> Seq<PathPart>
    decreases segs.len(),
{
    if segs.len() == 0 {
        Seq::empty()
    } else {
        let prev = segment_parts(segs.drop_last());
        let seg = segs.last();
        if seg.len() == 0 || seg == dot() {
            prev
        } else if seg == dot_dot() {
            prev.push(PathPart::ParentDir)
        } else {
            prev.push(PathPart::Normal(seg))
        }
    }
}

/// The components of the path `s` (`Path::components`): a root for a leading `/`, a `.` kept
/// only at the start of a relative path, then one component per segment other than empty
/// segments and `.`.
pub open spec fn components(s: Seq<char>) -> Seq<PathPart> {
    let segs = segments(s);
    let head = if has_root(s) {
        seq![PathPart::RootDir]
    } else if segs.len() > 0 && segs[0] == dot() {
        seq![PathPart::CurDir]
    } else {
        Seq::empty()
    };
    head + segment_parts(segs)
}

/// Whether the path `base` is a component-wise prefix of the path `path` (`Path::starts_with`).
pub open spec fn path_starts_with(path: Seq<char>, base: Seq<char>) -> bool {
    components(base).len() <= components(path).len() && components(path).take(
        components(base).len() as int,
    ) == components(base)
}

/// `base` joined with `rest` (`Path::join`): `rest` itself when it is absolute, else `rest`
/// after `base` with a `/` between them unless `base` is empty or ends with one.
pub open spec fn joined_path(base: Seq<char>, rest: Seq<char>) -> Seq<char> {
    if has_root(rest) {
        rest
    } else if base.len() == 0 || base.last() == '/' {
        base + rest
    } else {
        base + seq!['/'] + rest
    }
}

/// A path component.
pub enum Component {
    RootDir,
    CurDir,
    ParentDir,
    Normal(Vec<char>),
}

impl View for Component {
    type V = PathPart;

    open spec fn view(&self) -> PathPart {
        match self {
            Component::RootDir => PathPart::RootDir,
            Component::CurDir => PathPart::CurDir,
            Component::ParentDir => PathPart::ParentDir,
            Component::Normal(s) => PathPart::Normal(s@),
        }
    }
}

/// The views of components.
pub open spec fn part_views(v: Seq<Component>) -> Seq<PathPart> {
    v.map_values(|c: Component| c@)
}

fn is_dot(s: &[char]) -> (res: bool)
    ensures
        res == (s@ == dot()),
{
    let res = s.len() == 1 && s[0] == '.';
    proof {
        if !res && s@.len() == 1 {
            assert(s@[0] != dot()[0]);
        }
        if res {
            assert(s@ =~= dot());
        }
    }
    res
}

fn is_dot_dot(s: &[char]) -> (res: bool)
    ensures
        res == (s@ == dot_dot()),
{
    let res = s.len() == 2 && s[0] == '.' && s[1] == '.';
    proof {
        if !res && s@.len() == 2 {
            assert(s@[0] != dot_dot()[0] || s@[1] != dot_dot()[1]);
        }
        if res {
            assert(s@ =~= dot_dot());
        }
    }
    res
}

/// Whether `s` is an absolute path.
pub fn is_absolute(s: &[char]) -> (res: bool)
    ensures
        res == has_root(s@),
{
    s.len() > 0 && s[0] == '/'
}

/// The components of the path `s`.
pub fn path_components(s: &[char]) -> (out: Vec<Component>)
    ensures
        part_views(out@) == components(s@),
{
    let segs = split_at_char(s, '/');
    let mut out: Vec<Component> = Vec::new();
    if is_absolute(s) {
        out.push(Component::RootDir);
    } else if segs.len() > 0 && is_dot(&segs[0]) {
        out.push(Component::CurDir);
    }
    proof {
        if segs@.len() > 0 {
            assert(views(segs@)[0] == segs@[0]@);
        }
    }
    let ghost head = part_views(out@);
    let mut i: usize = 0;
    while i < segs.len()
        invariant
            views(segs@) == segments(s@),
            i <= segs@.len(),
            part_views(out@) == head + segment_parts(views(segs@).take(i as int)),
        decreases segs@.len() - i,
    {
        let ghost before = out@;
        let seg = &segs[i];
        proof {
            let t = views(segs@).take(i + 1);
            assert(t.drop_last() =~= views(segs@).take(i as int));
            assert(t.last() == seg@);
        }
        if seg.len() == 0 || is_dot(seg) {
        } else if is_dot_dot(seg) {
            out.push(Component::ParentDir);
            assert(part_views(out@) =~= part_views(before).push(PathPart::ParentDir));
        } else {
            let mut copy: Vec<char> = Vec::new();
            push_all(&mut copy, seg);
            out.push(Component::Normal(copy));
            assert(part_views(out@) =~= part_views(before).push(PathPart::Normal(seg@)));
        }
        i += 1;
    }
    assert(views(segs@).take(segs@.len() as int) =~= views(segs@));
    out
}

fn same_part(a: &Component, b: &Component) -> (res: bool)
    ensures
        res == (a@ == b@),
{
    match (a, b) {
        (Component::RootDir, Component::RootDir) => true,
        (Component::CurDir, Component::CurDir) => true,
        (Component::ParentDir, Component::ParentDir) => true,
        (Component::Normal(x), Component::Normal(y)) => chars_equal(x, y),
        _ => false,
    }
}

/// Whether the path `base` is a component-wise prefix of the path `path`.
pub fn starts_with_path(path: &[char], base: &[char]) -> (res: bool)
    ensures
        res == path_starts_with(path@, base@),
{
    let p = path_components(path);
    let b = path_components(base);
    if b.len() > p.len() {
        return false;
    }
    let mut i: usize = 0;
    while i < b.len()
        invariant
            part_views(p@) == components(path@),
            part_views(b@) == components(base@),
            b@.len() <= p@.len(),
            i <= b@.len(),
            forall|j: int| 0 <= j < i ==> b@[j]@ == p@[j]@,
        decreases b@.len() - i,
    {
        if !same_part(&b[i], &p[i]) {
            proof {
                let pv = part_views(p@);
                let bv = part_views(b@);
                assert(pv[i as int] == p@[i as int]@);
                assert(bv[i as int] == b@[i as int]@);
                assert(pv.take(bv.len() as int)[i as int] == pv[i as int]);
                assert(pv.take(bv.len() as int)[i as int] != bv[i as int]);
                assert(pv.take(bv.len() as int) != bv);
                assert(pv == components(path@));
                assert(bv == components(base@));
            }
            return false;
        }
        i += 1;
    }
    assert(part_views(p@).take(b@.len() as int) =~= part_views(b@));
    true
}

/// `base` joined with `rest`.
pub fn join_path(base: &[char], rest: &[char]) -> (out: Vec<char>)
    ensures
        out@ == joined_path(base@, rest@),
{
    let mut out: Vec<char> = Vec::new();
    if is_absolute(rest) {
        push_all(&mut out, rest);
        assert(out@ =~= rest@);
        return out;
    }
    push_all(&mut out, base);
    if base.len() > 0 && base[base.len() - 1] != '/' {
        out.push('/');
    }
    push_all(&mut out, rest);
    assert(out@ =~= joined_path(base@, rest@));
    out
}

/// Whether some segment of `s` is `..`.
pub open spec fn has_parent_segment(s: Seq<char>) -> bool {
    exists|i: int| 0 <= i < segments(s).len() && #[trigger] segments(s)[i] == dot_dot()
}

/// Whether some segment of `s` is `..`, that is, `s` has a `..` component.
pub fn has_parent_dir(s: &[char]) -> (res: bool)
    ensures
        res == has_parent_segment(s@),
{
    let segs = split_at_char(s, '/');
    let mut i: usize = 0;
    while i < segs.len()
        invariant
            views(segs@) == segments(s@),
            i <= segs@.len(),
            forall|j: int| 0 <= j < i ==> segs@[j]@ != dot_dot(),
        decreases segs@.len() - i,
    {
        if is_dot_dot(&segs[i]) {
            assert(segments(s@)[i as int] == segs@[i as int]@);
            return true;
        }
        i += 1;
    }
    proof {
        assert forall|j: int| 0 <= j < segments(s@).len() implies #[trigger] segments(s@)[j] != dot_dot() by {
            assert(segments(s@)[j] == segs@[j]@);
        }
    }
    false
}

} // verus!
