//! The parts of a path: its directory, its last name and the extension of
//! that name, as `std::path::Path` finds them where `/` separates names.
use vstd::prelude::*;

use crate::text::{chars_of, string_of, sub_string};

verus! {

/// How many characters at the beginning of a path are no name: the slash of
/// the root, or a leading dot that stands for the current directory.
pub open spec fn body_start(p: Seq<char>) -> int {
    if p.len() > 0 && (p[0] == '/' || (p[0] == '.' && (p.len() == 1 || p[1] == '/'))) {
        1
    } else {
        0
    }
}

/// Where the last component of a path begins: behind the last slash from
/// `start` on.
pub open spec fn comp_start(p: Seq<char>, start: int) -> int
    decreases p.len(),
{
    if p.len() > start && p.len() > 0 && p.last() != '/' {
        comp_start(p.drop_last(), start)
    } else {
        p.len() as int
    }
}

/// The last component of a path.
pub open spec fn last_comp(p: Seq<char>, start: int) -> Seq<char> {
    p.skip(comp_start(p, start))
}

/// A path without its last component and the slash in front of it.
pub open spec fn before_comp(p: Seq<char>, start: int) -> Seq<char> {
    if comp_start(p, start) > start {
        p.take(comp_start(p, start) - 1)
    } else {
        p.take(start)
    }
}

/// The last component begins within the path.
pub proof fn lemma_comp_start(p: Seq<char>, start: int)
    requires
        0 <= start <= p.len(),
    ensures
        start <= comp_start(p, start) <= p.len(),
        comp_start(p, start) > start ==> p[comp_start(p, start) - 1] == '/',
        forall|i: int| comp_start(p, start) <= i < p.len() ==> p[i] != '/',
    decreases p.len(),
{
    if p.len() > start && p.last() != '/' {
        lemma_comp_start(p.drop_last(), start);
        let at = comp_start(p.drop_last(), start);
        assert forall|i: int| at <= i < p.len() implies p[i] != '/' by {
            if i < p.len() - 1 {
                assert(p.drop_last()[i] != '/');
            }
        }
    }
}

/// A path without the components at its end that are empty or a single dot.
pub open spec fn trim_body(p: Seq<char>, start: int) -> Seq<char>
    decreases p.len(),
{
    if 0 <= start < p.len() && (last_comp(p, start).len() == 0 || last_comp(p, start) == seq!['.']) {
        proof {
            lemma_comp_start(p, start);
        }
        trim_body(before_comp(p, start), start)
    } else {
        p
    }
}

/// A path that ends with its last name, or with what stands before all names.
pub open spec fn trimmed_path(p: Seq<char>) -> Seq<char> {
    trim_body(p, body_start(p))
}

/// Whether the last component of a path is a name.
pub open spec fn has_name(p: Seq<char>) -> bool {
    let t = trimmed_path(p);
    t.len() > body_start(p) && last_comp(t, body_start(p)) != seq!['.', '.']
}

/// The last name of a path, and the whole path if it has none.
pub open spec fn path_name(p: Seq<char>) -> Seq<char> {
    if has_name(p) {
        last_comp(trimmed_path(p), body_start(p))
    } else {
        p
    }
}

/// What stands before the last component of a path; nothing if it has none.
pub open spec fn path_dir(p: Seq<char>) -> Seq<char> {
    let t = trimmed_path(p);
    if t.len() > body_start(p) {
        trim_body(before_comp(t, body_start(p)), body_start(p))
    } else {
        Seq::empty()
    }
}

/// The place of the last dot of a name, and -1 if it has none.
pub open spec fn last_dot(name: Seq<char>) -> int
    decreases name.len(),
{
    if name.len() == 0 {
        -1
    } else if name.last() == '.' {
        name.len() - 1
    } else {
        last_dot(name.drop_last())
    }
}

/// The extension of a name: what follows its last dot, if something stands
/// before that dot.
pub open spec fn name_ext(name: Seq<char>) -> Seq<char> {
    if last_dot(name) > 0 {
        name.skip(last_dot(name) + 1)
    } else {
        Seq::empty()
    }
}

/// The extension of the last name of a path.
pub open spec fn path_ext(p: Seq<char>) -> Seq<char> {
    if has_name(p) {
        name_ext(path_name(p))
    } else {
        Seq::empty()
    }
}

/// What taking empty and single-dot components off leaves.
pub proof fn lemma_trim_body(p: Seq<char>, start: int)
    requires
        0 <= start <= p.len(),
    ensures
        start <= trim_body(p, start).len() <= p.len(),
        trim_body(p, start) == p.take(trim_body(p, start).len() as int),
        trim_body(trim_body(p, start), start) == trim_body(p, start),
        trim_body(p, start).len() > start ==> last_comp(trim_body(p, start), start).len() > 0
            && last_comp(trim_body(p, start), start) != seq!['.'],
    decreases p.len(),
{
    let comp = last_comp(p, start);
    if start < p.len() && (comp.len() == 0 || comp == seq!['.']) {
        lemma_comp_start(p, start);
        let b = before_comp(p, start);
        lemma_trim_body(b, start);
        assert(b.take(trim_body(b, start).len() as int) =~= p.take(
            trim_body(b, start).len() as int,
        ));
    } else {
        assert(p.take(p.len() as int) =~= p);
    }
}

/// Whether a text can be the name of a file: not empty, without a slash, and
/// not one of the two names that stand for directories.
pub open spec fn is_name(n: Seq<char>) -> bool {
    &&& n.len() > 0
    &&& !n.contains('/')
    &&& n != seq!['.']
    &&& n != seq!['.', '.']
}

/// A name behind a directory is the last name of the path.
pub proof fn lemma_join(d: Seq<char>, n: Seq<char>)
    requires
        is_name(n),
    ensures
        has_name(d.push('/') + n),
        path_name(d.push('/') + n) == n,
        path_dir(d.push('/') + n) == if d.len() == 0 {
            seq!['/']
        } else {
            trim_body(d, body_start(d.push('/') + n))
        },
{
    let q = d.push('/') + n;
    let start = body_start(q);
    assert(n[0] != '/' && n[n.len() - 1] != '/') by {
        assert(n.contains(n[0]) && n.contains(n[n.len() - 1]));
    }
    assert(start <= d.len() + 1);
    lemma_comp_start(q, start);
    let cs = comp_start(q, start);
    if cs < d.len() + 1 {
        assert(q[d.len() as int] == '/');
    }
    if cs > d.len() + 1 {
        assert(q[cs - 1] == n[cs - 1 - d.len() - 1]);
        assert(n.contains(n[cs - 1 - d.len() - 1]));
    }
    assert(cs == d.len() + 1);
    assert(last_comp(q, start) =~= n);
    assert(trimmed_path(q) == q);
    if d.len() == 0 {
        assert(before_comp(q, start) =~= seq!['/']);
    } else {
        assert(before_comp(q, start) =~= d);
    }
}

/// The extension of a name that is a stem without dots, a dot and a text
/// without dots.
pub proof fn lemma_name_ext(stem: Seq<char>, ext: Seq<char>)
    requires
        stem.len() > 0,
        !stem.contains('.'),
        !ext.contains('.'),
    ensures
        name_ext(stem) == Seq::<char>::empty(),
        name_ext(stem.push('.') + ext) == ext,
{
    lemma_last_dot(stem);
    lemma_last_dot_at(stem, ext);
    assert((stem.push('.') + ext).skip(stem.len() as int + 1) =~= ext);
}

/// A text without a dot has no last dot.
proof fn lemma_last_dot(s: Seq<char>)
    requires
        !s.contains('.'),
    ensures
        last_dot(s) == -1,
    decreases s.len(),
{
    if s.len() > 0 {
        assert(s.contains(s.last()));
        let rest = s.drop_last();
        assert(!rest.contains('.')) by {
            if rest.contains('.') {
                let i = choose|i: int| 0 <= i < rest.len() && rest[i] == '.';
                assert(s[i] == '.');
            }
        }
        lemma_last_dot(rest);
    }
}

/// The last dot of a text that is two texts around a dot, the second one
/// without dots.
proof fn lemma_last_dot_at(stem: Seq<char>, ext: Seq<char>)
    requires
        !ext.contains('.'),
    ensures
        last_dot(stem.push('.') + ext) == stem.len(),
    decreases ext.len(),
{
    let name = stem.push('.') + ext;
    if ext.len() == 0 {
        assert(name =~= stem.push('.'));
    } else {
        let rest = ext.drop_last();
        assert(!rest.contains('.')) by {
            if rest.contains('.') {
                let i = choose|i: int| 0 <= i < rest.len() && rest[i] == '.';
                assert(ext[i] == '.');
            }
        }
        lemma_last_dot_at(stem, rest);
        assert(name.drop_last() =~= stem.push('.') + rest);
        assert(ext.contains(ext[ext.len() - 1]));
    }
}

/// What an extension is made of: neither dots nor characters that the name
/// does not have.
pub proof fn lemma_ext_of_name(name: Seq<char>)
    ensures
        !name_ext(name).contains('.'),
        forall|c: char| name_ext(name).contains(c) ==> name.contains(c),
{
    lemma_after_last_dot(name);
    let dot = last_dot(name);
    if dot > 0 {
        let ext = name.skip(dot + 1);
        assert forall|c: char| ext.contains(c) implies name.contains(c) && c != '.' by {
            let i = choose|i: int| 0 <= i < ext.len() && ext[i] == c;
            assert(name[dot + 1 + i] == c);
        }
    }
}

/// The last dot is a dot.
pub proof fn lemma_last_dot_char(name: Seq<char>)
    ensures
        last_dot(name) >= 0 ==> last_dot(name) < name.len() && name[last_dot(name)] == '.',
    decreases name.len(),
{
    if name.len() > 0 && name.last() != '.' {
        lemma_last_dot_char(name.drop_last());
    }
}

/// No dot stands behind the last one.
proof fn lemma_after_last_dot(name: Seq<char>)
    ensures
        -1 <= last_dot(name) < name.len(),
        forall|i: int| last_dot(name) < i < name.len() ==> name[i] != '.',
    decreases name.len(),
{
    if name.len() > 0 && name.last() != '.' {
        lemma_after_last_dot(name.drop_last());
        assert forall|i: int| last_dot(name) < i < name.len() implies name[i] != '.' by {
            if i < name.len() - 1 {
                assert(name.drop_last()[i] != '.');
            }
        }
    }
}

/// Finds where the last component of the first `end` characters begins.
fn find_comp_start(p: &[char], start: usize, end: usize) -> (r: usize)
    requires
        start <= end <= p@.len(),
    ensures
        start <= r <= end,
        r == comp_start(p@.take(end as int), start as int),
{
    let mut at: usize = end;
    while at > start && p[at - 1] != '/'
        invariant
            start <= at <= end <= p@.len(),
            comp_start(p@.take(end as int), start as int) == comp_start(
                p@.take(at as int),
                start as int,
            ),
        decreases at,
    {
        assert(p@.take(at as int).drop_last() =~= p@.take(at - 1));
        at -= 1;
    }
    at
}

/// Finds where a path ends once its empty and single-dot components at the end
/// of its first `end` characters are taken off.
fn find_trimmed_end(p: &[char], start: usize, end: usize) -> (r: usize)
    requires
        start <= end <= p@.len(),
    ensures
        start <= r <= end,
        p@.take(r as int) == trim_body(p@.take(end as int), start as int),
{
    let mut to: usize = end;
    while to > start
        invariant_except_break
            start <= to <= end <= p@.len(),
            trim_body(p@.take(end as int), start as int) == trim_body(
                p@.take(to as int),
                start as int,
            ),
        ensures
            start <= to <= end <= p@.len(),
            trim_body(p@.take(end as int), start as int) == p@.take(to as int),
        decreases to,
    {
        let at: usize = find_comp_start(p, start, to);
        let ghost t = p@.take(to as int);
        let ghost comp = last_comp(t, start as int);
        assert(comp.len() == to - at);
        assert(comp =~= seq!['.'] <==> comp.len() == 1 && comp[0] == '.');
        if at == to || (to - at == 1 && p[at] == '.') {
            assert(before_comp(t, start as int) =~= p@.take(if at > start { at - 1 } else { start as int }));
            to = if at > start {
                at - 1
            } else {
                start
            };
        } else {
            break;
        }
    }
    to
}

/// The extension of a name.
fn ext_of(name: &[char]) -> (r: String)
    ensures
        r@ == name_ext(name@),
{
    let mut dot: usize = name.len();
    assert(name@.take(dot as int) =~= name@);
    while dot > 0 && name[dot - 1] != '.'
        invariant
            dot <= name@.len(),
            last_dot(name@) == last_dot(name@.take(dot as int)),
        decreases dot,
    {
        assert(name@.take(dot as int).drop_last() =~= name@.take(dot - 1));
        dot -= 1;
    }
    assert(last_dot(name@) == dot - 1);
    if dot > 1 {
        assert(name@.skip(dot as int) =~= name@.subrange(dot as int, name@.len() as int));
        sub_string(name, dot, name.len())
    } else {
        String::new()
    }
}

/// The parts of a path.
pub struct PathParts {
    /// What stands before the last component.
    pub dir: String,
    /// The last name, or the whole path.
    pub name: String,
    /// The extension of the last name.
    pub ext: String,
}

impl PathParts {
    /// Takes a path apart.
    pub fn of(path: &str) -> (r: Self)
        ensures
            r.dir@ == path_dir(path@),
            r.name@ == path_name(path@),
            r.ext@ == path_ext(path@),
    {
        let chars: Vec<char> = chars_of(path);
        let p: &[char] = &chars;
        let start: usize = if p.len() > 0 && (p[0] == '/' || (p[0] == '.' && (p.len() == 1 || p[1]
            == '/'))) {
            1
        } else {
            0
        };
        assert(p@.take(p@.len() as int) =~= p@);
        let end: usize = find_trimmed_end(p, start, p.len());
        if end == start {
            return PathParts {
                dir: String::new(),
                name: sub_string(p, 0, p.len()),
                ext: String::new(),
            };
        }
        let at: usize = find_comp_start(p, start, end);
        let ghost t = p@.take(end as int);
        let ghost comp = last_comp(t, start as int);
        assert(comp =~= p@.subrange(at as int, end as int));
        let before: usize = if at > start {
            at - 1
        } else {
            start
        };
        assert(before_comp(t, start as int) =~= p@.take(before as int));
        let dir_end: usize = find_trimmed_end(p, start, before);
        assert(p@.subrange(0, dir_end as int) =~= p@.take(dir_end as int));
        let dir: String = sub_string(p, 0, dir_end);
        assert(comp =~= seq!['.', '.'] <==> comp.len() == 2 && comp[0] == '.' && comp[1] == '.');
        if end - at == 2 && p[at] == '.' && p[at + 1] == '.' {
            assert(p@.subrange(0, p@.len() as int) =~= p@);
            return PathParts { dir, name: sub_string(p, 0, p.len()), ext: String::new() };
        }
        let name: &[char] = vstd::slice::slice_subrange(p, at, end);
        PathParts { dir, name: string_of(name), ext: ext_of(name) }
    }
}

/// The extension of a name is what follows its last dot, unless nothing stands
/// before that dot.
pub proof fn law_extension(stem: Seq<char>, ext: Seq<char>)
    requires
        !ext.contains('.'),
    ensures
        name_ext(stem.push('.') + ext) == if stem.len() > 0 {
            ext
        } else {
            Seq::empty()
        },
        !stem.contains('.') ==> name_ext(stem) == Seq::<char>::empty(),
{
    lemma_last_dot_at(stem, ext);
    assert((stem.push('.') + ext).skip(stem.len() as int + 1) =~= ext);
    if !stem.contains('.') {
        lemma_last_dot(stem);
    }
}

/// The last name of a path is what follows the last slash, if it can be a name.
pub proof fn law_path_name(dir: Seq<char>, name: Seq<char>)
    requires
        is_name(name),
    ensures
        has_name(dir.push('/') + name),
        path_name(dir.push('/') + name) == name,
        path_name(name) == name,
        path_ext(dir.push('/') + name) == name_ext(name),
{
    lemma_join(dir, name);
    let start = body_start(name);
    assert(start == 0) by {
        assert(name.contains(name[0]));
        if name.len() > 1 {
            assert(name.contains(name[1]));
        } else {
            assert(name =~= seq![name[0]]);
        }
    }
    lemma_comp_start(name, 0);
    if comp_start(name, 0) > 0 {
        assert(name.contains(name[comp_start(name, 0) - 1]));
    }
    assert(last_comp(name, 0) =~= name);
}

/// Slashes at the end of a path, and a single dot behind a slash, change neither
/// its last name nor its directory.
pub proof fn law_path_end(path: Seq<char>)
    requires
        path.len() > 0,
        has_name(path),
    ensures
        path_name(path.push('/')) == path_name(path),
        path_dir(path.push('/')) == path_dir(path),
        path_name(path.push('/').push('.')) == path_name(path),
        path_dir(path.push('/').push('.')) == path_dir(path),
{
    let start = body_start(path);
    let p = path.push('/');
    let q = p.push('.');
    lemma_trim_body(path, start);
    assert(path.len() > start);
    assert(body_start(p) == start) by {
        if path.len() == 1 && path[0] == '.' {
            assert(start == 1);
        }
    }
    assert(body_start(q) == start);
    assert(comp_start(p, start) == p.len());
    assert(last_comp(p, start) =~= Seq::empty());
    assert(before_comp(p, start) =~= path);
    assert(q.drop_last() =~= p);
    assert(comp_start(q, start) == p.len());
    assert(last_comp(q, start) =~= seq!['.']);
    assert(before_comp(q, start) =~= path);
}

} // verus!
