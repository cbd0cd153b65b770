//! Paths as texts with `/` between their parts, in the form a folder's
//! listing gives them: no part is empty, `.` or `..`, and only a root, `/` or
//! on Windows a drive's, ends with a `/`.

use crate::text::{chars, extend, part, same_chars, string};
use vstd::prelude::*;

verus! {

/// Where the last `c` before `i` stands in `s`, or -1.
pub open spec fn last_before(s: Seq<char>, c: char, i: int) -> int
    decreases i,
{
    if i <= 0 {
        -1
    } else if s[i - 1] == c {
        i - 1
    } else {
        last_before(s, c, i - 1)
    }
}

/// Where the last `c` stands in `s`, or -1.
pub open spec fn last_of(s: Seq<char>, c: char) -> int {
    last_before(s, c, s.len() as int)
}

/// The last part of a path.
pub open spec fn file_name_of(p: Seq<char>) -> Seq<char> {
    p.skip(last_of(p, '/') + 1)
}

/// How much of a path is its root: a `/`, or on Windows a drive with the `/`
/// behind it.
pub open spec fn root_len(p: Seq<char>, windows: bool) -> int {
    if p.len() > 0 && p[0] == '/' {
        1
    } else if windows && p.len() > 2 && ('a' <= p[0] <= 'z' || 'A' <= p[0] <= 'Z') && p[1] == ':'
        && p[2] == '/' {
        3
    } else {
        0
    }
}

/// The folder that a path is in, where it is in one; a root is in none.
pub open spec fn parent_of(p: Seq<char>, windows: bool) -> Option<Seq<char>> {
    let k = last_of(p, '/');
    if p.len() == root_len(p, windows) {
        None
    } else if k < root_len(p, windows) {
        Some(p.take(root_len(p, windows)))
    } else {
        Some(p.take(k))
    }
}

/// A path with its last part replaced by `name`: a name that is a path from
/// the root takes the place of all of it.
pub open spec fn with_file_name_of(p: Seq<char>, name: Seq<char>) -> Seq<char> {
    if name.len() > 0 && name[0] == '/' {
        name
    } else {
        p.take(last_of(p, '/') + 1) + name
    }
}

/// What follows the last dot of a file name, where there is one that does
/// not start the name.
pub open spec fn extension_of(p: Seq<char>) -> Option<Seq<char>> {
    let name = file_name_of(p);
    let dot = last_of(name, '.');
    if dot <= 0 {
        None
    } else {
        Some(name.skip(dot + 1))
    }
}

/// Whether a path is `dir` or leads through it.
pub open spec fn is_under(p: Seq<char>, dir: Seq<char>) -> bool {
    ||| dir.len() == 0
    ||| p == dir
    ||| p.len() > dir.len() && p.take(dir.len() as int) == dir && (p[dir.len() as int] == '/'
        || dir.last() == '/')
}

pub proof fn lemma_last_before(s: Seq<char>, c: char, i: int)
    requires
        0 <= i <= s.len(),
    ensures
        -1 <= last_before(s, c, i) < i,
        last_before(s, c, i) >= 0 ==> s[last_before(s, c, i)] == c,
        forall|j: int| last_before(s, c, i) < j < i ==> s[j] != c,
    decreases i,
{
    if i > 0 && s[i - 1] != c {
        lemma_last_before(s, c, i - 1);
    }
}

/// Where the last `c` of `v` stands.
pub fn find_last(v: &[char], c: char) -> (r: Option<usize>)
    ensures
        match r {
            Some(i) => i == last_of(v@, c) && i < v@.len(),
            None => last_of(v@, c) == -1,
        },
{
    let mut i: usize = v.len();
    while i > 0
        invariant
            i <= v@.len(),
            last_of(v@, c) == last_before(v@, c, i as int),
        decreases i,
    {
        if v[i - 1] == c {
            return Some(i - 1);
        }
        i = i - 1;
    }
    None
}

/// The last part of a path, character by character.
pub fn name_chars(p: &str) -> (r: Vec<char>)
    ensures
        r@ == file_name_of(p@),
{
    let v = chars(p);
    let len: usize = v.len();
    let from: usize = match find_last(v.as_slice(), '/') {
        Some(i) => i + 1,
        None => 0,
    };
    assert(v@.subrange(from as int, v@.len() as int) =~= v@.skip(from as int));
    part(v.as_slice(), from, len)
}

/// The last part of a path.
pub fn file_name(p: &str) -> (r: String)
    ensures
        r@ == file_name_of(p@),
{
    let v = name_chars(p);
    string(v.as_slice())
}

/// The folder that a path is in, where it is in one.
pub fn parent(p: &str, windows: bool) -> (r: Option<String>)
    ensures
        match r {
            Some(dir) => parent_of(p@, windows) == Some(dir@),
            None => parent_of(p@, windows) is None,
        },
{
    let v = chars(p);
    let root: usize = if v.len() > 0 && v[0] == '/' {
        1
    } else if windows && v.len() > 2 && (('a' <= v[0] && v[0] <= 'z') || ('A' <= v[0] && v[0]
        <= 'Z')) && v[1] == ':' && v[2] == '/' {
        3
    } else {
        0
    };
    if v.len() == root {
        return None;
    }
    let to: usize = match find_last(v.as_slice(), '/') {
        Some(k) => if k < root {
            root
        } else {
            k
        },
        None => root,
    };
    let dir = part(v.as_slice(), 0, to);
    assert(dir@ =~= p@.take(to as int));
    Some(string(dir.as_slice()))
}

/// A path with its last part replaced by `name`.
pub fn with_file_name(p: &str, name: &str) -> (r: String)
    ensures
        r@ == with_file_name_of(p@, name@),
{
    let n = chars(name);
    if n.len() > 0 && n[0] == '/' {
        return name.to_owned();
    }
    let v = chars(p);
    let len: usize = v.len();
    let upto: usize = match find_last(v.as_slice(), '/') {
        Some(i) => i + 1,
        None => 0,
    };
    let mut out = part(v.as_slice(), 0, upto);
    assert(out@ =~= p@.take(upto as int));
    extend(&mut out, n.as_slice());
    string(out.as_slice())
}

/// What follows the last dot of a file name.
pub fn extension(p: &str) -> (r: Option<Vec<char>>)
    ensures
        match r {
            Some(e) => extension_of(p@) == Some(e@),
            None => extension_of(p@) is None,
        },
{
    let name = name_chars(p);
    let len: usize = name.len();
    match find_last(name.as_slice(), '.') {
        Some(dot) => {
            if dot == 0 {
                None
            } else {
                assert(name@.subrange(dot + 1, name@.len() as int) =~= name@.skip(dot + 1));
                Some(part(name.as_slice(), dot + 1, len))
            }
        },
        None => None,
    }
}

/// Whether a path is `dir` or leads through it.
pub fn under(p: &str, dir: &str) -> (r: bool)
    ensures
        r == is_under(p@, dir@),
{
    let a = chars(p);
    let b = chars(dir);
    if b.len() == 0 || same_chars(a.as_slice(), b.as_slice()) {
        return true;
    }
    if a.len() <= b.len() {
        return false;
    }
    let head = part(a.as_slice(), 0, b.len());
    assert(head@ =~= a@.take(b@.len() as int));
    same_chars(head.as_slice(), b.as_slice()) && (a[b.len()] == '/' || b[b.len() - 1] == '/')
}

/// The folder of a path with its last part replaced is the path's own,
/// where the new name has no `/` in it.
pub proof fn renaming_stays_in_the_folder(p: Seq<char>, name: Seq<char>)
    requires
        !name.contains('/'),
    ensures
        file_name_of(with_file_name_of(p, name)) == name,
        last_of(with_file_name_of(p, name), '/') == last_of(p, '/'),
{
    let k = last_of(p, '/');
    lemma_last_before(p, '/', p.len() as int);
    if name.len() > 0 {
        assert(name.contains(name[0]));
    }
    let q = with_file_name_of(p, name);
    lemma_last_before(q, '/', q.len() as int);
    let l = last_of(q, '/');
    assert(q =~= p.take(k + 1) + name);
    if l > k {
        assert(q[l] == name[l - (k + 1)]);
        assert(name.contains(name[l - (k + 1)]));
    }
    if k >= 0 {
        assert(q[k] == p[k]);
    }
    assert(l == k);
    assert(file_name_of(q) =~= name);
}

/// A path made of a folder and a name in it parts into them again, and with
/// another name it leads to that one in the same folder.
pub proof fn a_path_parts_into_folder_and_name(
    dir: Seq<char>,
    name: Seq<char>,
    other: Seq<char>,
    windows: bool,
)
    requires
        !name.contains('/'),
        !other.contains('/'),
        dir.len() > 0,
        windows ==> !(dir.len() == 2 && dir[1] == ':'),
    ensures
        file_name_of(dir + seq!['/'] + name) == name,
        parent_of(dir + seq!['/'] + name, windows) == Some(dir),
        with_file_name_of(dir + seq!['/'] + name, other) == dir + seq!['/'] + other,
        parent_of(seq!['/'] + name, windows) == if name.len() == 0 {
            None
        } else {
            Some(seq!['/'])
        },
        file_name_of(seq!['/'] + name) == name,
        file_name_of(name) == name,
{
    let p = dir + seq!['/'] + name;
    let k = dir.len() as int;
    assert(p[k] == '/');
    assert forall|i: int| k < i < p.len() implies p[i] != '/' by {
        assert(p[i] == name[i - k - 1]);
        assert(name.contains(name[i - k - 1]));
    }
    lemma_last_slash(p, k);
    assert(p.skip(k + 1) =~= name);
    assert(p.take(k) =~= dir);
    assert(p[0] == dir[0]);
    if dir.len() > 1 {
        assert(p[1] == dir[1]);
    }
    assert(p.take(k + 1) =~= dir + seq!['/']);
    if other.len() > 0 {
        assert(other.contains(other[0]));
    }
    let q = seq!['/'] + name;
    assert(q[0] == '/');
    assert forall|i: int| 0 < i < q.len() implies q[i] != '/' by {
        assert(q[i] == name[i - 1]);
        assert(name.contains(name[i - 1]));
    }
    lemma_last_slash(q, 0);
    assert(q.skip(1) =~= name);
    assert(q.take(1) =~= seq!['/']);
    lemma_last_before(name, '/', name.len() as int);
    let l = last_of(name, '/');
    if l >= 0 {
        assert(name.contains(name[l]));
    }
    assert(name.skip(0) =~= name);
}

proof fn lemma_last_slash(p: Seq<char>, k: int)
    requires
        0 <= k < p.len(),
        p[k] == '/',
        forall|i: int| k < i < p.len() ==> p[i] != '/',
    ensures
        last_of(p, '/') == k,
{
    lemma_last_before(p, '/', p.len() as int);
}

/// The extension of a path is what follows the last dot of its name, where
/// something stands before the dot; a name without a dot has none.
pub proof fn an_extension_follows_the_last_dot(dir: Seq<char>, stem: Seq<char>, ext: Seq<char>)
    requires
        !stem.contains('/'),
        !ext.contains('/'),
        !ext.contains('.'),
    ensures
        extension_of(dir + seq!['/'] + stem + seq!['.'] + ext) == if stem.len() > 0 {
            Some(ext)
        } else {
            None
        },
        extension_of(dir + seq!['/'] + ext) is None,
{
    let name = stem + seq!['.'] + ext;
    assert(!name.contains('/')) by {
        if name.contains('/') {
            let i = choose|i: int| 0 <= i < name.len() && name[i] == '/';
            if i < stem.len() {
                assert(stem.contains(stem[i]));
            } else if i > stem.len() {
                assert(ext.contains(ext[i - stem.len() - 1]));
            }
        }
    }
    lemma_name_behind(dir, name);
    assert(dir + seq!['/'] + stem + seq!['.'] + ext =~= dir + seq!['/'] + name);
    let k = stem.len() as int;
    assert(name[k] == '.');
    lemma_last_before(name, '.', name.len() as int);
    let l = last_of(name, '.');
    if l > k {
        assert(ext.contains(ext[l - k - 1]));
    }
    assert(name.skip(k + 1) =~= ext);
    lemma_name_behind(dir, ext);
    lemma_last_before(ext, '.', ext.len() as int);
    let m = last_of(ext, '.');
    if m >= 0 {
        assert(ext.contains(ext[m]));
    }
}

proof fn lemma_name_behind(dir: Seq<char>, name: Seq<char>)
    requires
        !name.contains('/'),
    ensures
        file_name_of(dir + seq!['/'] + name) == name,
{
    let p = dir + seq!['/'] + name;
    let k = dir.len() as int;
    assert(p[k] == '/');
    assert forall|i: int| k < i < p.len() implies p[i] != '/' by {
        assert(p[i] == name[i - k - 1]);
        assert(name.contains(name[i - k - 1]));
    }
    lemma_last_slash(p, k);
    assert(p.skip(k + 1) =~= name);
}

/// What is in a folder is under it, and a folder that only starts with the
/// same letters is not.
pub proof fn what_is_in_a_folder_is_under_it(dir: Seq<char>, rest: Seq<char>, c: char)
    requires
        dir.len() > 0,
    ensures
        is_under(dir, dir),
        is_under(dir + seq!['/'] + rest, dir),
        c != '/' && dir.last() != '/' ==> !is_under(dir + seq![c] + rest, dir),
        !is_under(dir, dir + seq![c] + rest),
{
    let p = dir + seq!['/'] + rest;
    assert(p.take(dir.len() as int) =~= dir);
    assert(p[dir.len() as int] == '/');
    let q = dir + seq![c] + rest;
    assert(q[dir.len() as int] == c);
}

/// A name on a drive is in the drive's topmost folder, which is in none; where
/// there are no drives, it is a folder like any other.
pub proof fn a_drive_has_a_topmost_folder(letter: char, name: Seq<char>)
    requires
        'a' <= letter <= 'z' || 'A' <= letter <= 'Z',
        !name.contains('/'),
        name.len() > 0,
    ensures
        parent_of(seq![letter, ':', '/'] + name, true) == Some(seq![letter, ':', '/']),
        parent_of(seq![letter, ':', '/'], true) is None,
        parent_of(seq![letter, ':', '/'] + name, false) == Some(seq![letter, ':']),
{
    let top = seq![letter, ':', '/'];
    let p = top + name;
    assert(p[0] == letter && p[1] == ':' && p[2] == '/');
    assert forall|i: int| 2 < i < p.len() implies p[i] != '/' by {
        assert(p[i] == name[i - 3]);
        assert(name.contains(name[i - 3]));
    }
    lemma_last_slash(p, 2);
    assert(p.take(3) =~= top);
    assert(p.take(2) =~= seq![letter, ':']);
    lemma_last_slash(top, 2);
}

} // verus!
