//! Paths as byte strings with `/` as the only separator.
//!
//! A path is matched in its relative form: the part below the root of the
//! walk, without a leading separator. A directory is matched with a trailing
//! separator, so that a pattern such as `**/.*/**` already matches the
//! directory itself and its subtree need not be read.

use vstd::prelude::*;

verus! {

/// The path separator.
pub const SLASH: u8 = 47;

/// The byte that opens the name of a hidden entry.
pub const DOT: u8 = 46;

/// `s` without its leading separators.
pub open spec fn trim_slashes(s: Seq<u8>) -> Seq<u8>
    decreases s.len(),
{
    if s.len() > 0 && s[0] == SLASH {
        trim_slashes(s.skip(1))
    } else {
        s
    }
}

/// Whether `path` is `root` itself or lies below it: `root` is a prefix of
/// `path` and ends at a segment boundary of it.
pub open spec fn is_within(path: Seq<u8>, root: Seq<u8>) -> bool {
    &&& root.len() <= path.len()
    &&& path.take(root.len() as int) == root
    &&& (root.len() == path.len() || root.len() == 0 || root.last() == SLASH
        || path[root.len() as int] == SLASH)
}

/// The form of `path` relative to `root`. Within the root this is what
/// follows the root and the separators after it. Elsewhere the path is kept,
/// less a leading `./`.
pub open spec fn relative_to(path: Seq<u8>, root: Seq<u8>) -> Seq<u8> {
    if is_within(path, root) {
        trim_slashes(path.skip(root.len() as int))
    } else if path.len() >= 2 && path[0] == DOT && path[1] == SLASH {
        path.skip(2)
    } else {
        path
    }
}

/// `rel` with a trailing separator, added unless it is already there.
pub open spec fn dir_form(rel: Seq<u8>) -> Seq<u8> {
    if rel.len() > 0 && rel.last() == SLASH {
        rel
    } else {
        rel.push(SLASH)
    }
}

/// The string that the patterns are matched against: the relative form of
/// the path, for a directory with a trailing separator.
pub open spec fn match_string(path: Seq<u8>, root: Seq<u8>, is_dir: bool) -> Seq<u8> {
    if is_dir {
        dir_form(relative_to(path, root))
    } else {
        relative_to(path, root)
    }
}

/// Whether a hidden segment starts at position `i` of `s`: a segment that
/// begins with a dot and is not the single dot.
pub open spec fn hidden_at(s: Seq<u8>, i: int) -> bool {
    &&& 0 <= i < s.len()
    &&& (i == 0 || s[i - 1] == SLASH)
    &&& s[i] == DOT
    &&& i + 1 < s.len()
    &&& s[i + 1] != SLASH
}

/// Whether some segment of `s` is hidden.
pub open spec fn has_hidden_segment(s: Seq<u8>) -> bool {
    exists|i: int| hidden_at(s, i)
}

/// Whether a hidden segment other than `..` starts at position `i` of `s`.
pub open spec fn hidden_name_at(s: Seq<u8>, i: int) -> bool {
    &&& hidden_at(s, i)
    &&& !(s[i + 1] == DOT && (i + 2 == s.len() || s[i + 2] == SLASH))
}

/// Whether some ordinary component of `s` is hidden: a segment that begins
/// with a dot and is neither `.` nor `..`.
pub open spec fn has_hidden_component(s: Seq<u8>) -> bool {
    exists|i: int| hidden_name_at(s, i)
}

/// Whether `name` can name an entry of a directory: it is not empty and
/// holds no separator.
pub open spec fn is_segment(name: Seq<u8>) -> bool {
    &&& name.len() > 0
    &&& forall|i: int| 0 <= i < name.len() ==> name[i] != SLASH
}

/// The path of the entry `name` in the directory `dir`.
pub open spec fn join_spec(dir: Seq<u8>, name: Seq<u8>) -> Seq<u8> {
    if dir.len() == 0 {
        name
    } else if dir.last() == SLASH {
        dir + name
    } else {
        dir.push(SLASH) + name
    }
}

/// Whether `rel` is a relative path in plain form: empty, or with a
/// separator neither at its beginning nor at its end.
pub open spec fn is_clean(rel: Seq<u8>) -> bool {
    rel.len() == 0 || (rel[0] != SLASH && rel.last() != SLASH)
}

/// The path that has the relative form `rel` below `root`.
pub open spec fn path_of(root: Seq<u8>, rel: Seq<u8>) -> Seq<u8> {
    if rel.len() == 0 {
        root
    } else {
        join_spec(root, rel)
    }
}

/// The number of separators in `s`.
pub open spec fn slash_count(s: Seq<u8>) -> nat
    decreases s.len(),
{
    if s.len() == 0 {
        0
    } else {
        slash_count(s.drop_last()) + if s.last() == SLASH {
            1nat
        } else {
            0nat
        }
    }
}

/// How deep below the root a relative path lies: the number of its
/// segments. The root itself has depth 0.
pub open spec fn depth_of(rel: Seq<u8>) -> nat {
    if rel.len() == 0 {
        0
    } else {
        slash_count(rel) + 1
    }
}

/// Appends the bytes of `src` to `out`.
fn append_bytes(out: &mut Vec<u8>, src: &[u8])
    ensures
        final(out)@ == old(out)@ + src@,
{
    let mut i: usize = 0;
    while i < src.len()
        invariant
            i <= src.len(),
            out@ == old(out)@ + src@.take(i as int),
        decreases src.len() - i,
    {
        out.push(src[i]);
        assert(src@.take(i as int + 1) == src@.take(i as int).push(src@[i as int]));
        i += 1;
    }
    assert(src@.take(src@.len() as int) == src@);
}

/// Makes an owned copy of a byte string.
pub fn copy_bytes(src: &[u8]) -> (out: Vec<u8>)
    ensures
        out@ == src@,
{
    let mut out: Vec<u8> = Vec::new();
    append_bytes(&mut out, src);
    assert(Seq::<u8>::empty() + src@ == src@);
    out
}

/// Trimming skips exactly the leading run of separators.
proof fn lemma_trim_skips_run(s: Seq<u8>, n: int)
    requires
        0 <= n <= s.len(),
        forall|j: int| 0 <= j < n ==> s[j] == SLASH,
        n == s.len() || s[n] != SLASH,
    ensures
        trim_slashes(s) == s.skip(n),
    decreases n,
{
    if n == 0 {
        assert(s.skip(0) == s);
    } else {
        let t = s.skip(1);
        assert forall|j: int| 0 <= j < n - 1 implies t[j] == SLASH by {
            assert(t[j] == s[j + 1]);
        }
        lemma_trim_skips_run(t, n - 1);
        assert(t.skip(n - 1) == s.skip(n));
    }
}

/// Builds the path of an entry from its directory and its name.
pub fn join(dir: &[u8], name: &[u8]) -> (path: Vec<u8>)
    ensures
        path@ == join_spec(dir@, name@),
{
    let mut path: Vec<u8> = Vec::new();
    append_bytes(&mut path, dir);
    if dir.len() > 0 && dir[dir.len() - 1] != SLASH {
        path.push(SLASH);
    }
    append_bytes(&mut path, name);
    assert(Seq::<u8>::empty() + dir@ == dir@);
    assert(Seq::<u8>::empty() + name@ == name@);
    path
}

/// Tells whether `path` is `root` or lies below it.
pub fn within(path: &[u8], root: &[u8]) -> (r: bool)
    ensures
        r == is_within(path@, root@),
{
    if root.len() > path.len() {
        return false;
    }
    let mut i: usize = 0;
    while i < root.len()
        invariant
            i <= root.len() <= path.len(),
            forall|j: int| 0 <= j < i ==> path@[j] == root@[j],
        decreases root.len() - i,
    {
        if path[i] != root[i] {
            assert(path@.take(root@.len() as int)[i as int] != root@[i as int]);
            return false;
        }
        i += 1;
    }
    assert(path@.take(root@.len() as int) =~= root@);
    root.len() == path.len() || root.len() == 0 || root[root.len() - 1] == SLASH
        || path[root.len()] == SLASH
}

/// Gives the string to match for a path: its form relative to `root`, with
/// a trailing separator where the path names a directory.
pub fn to_match_str(path: &[u8], root: &[u8], is_dir: bool) -> (s: Vec<u8>)
    ensures
        s@ == match_string(path@, root@, is_dir),
{
    let mut start: usize = 0;
    if within(path, root) {
        start = root.len();
        while start < path.len() && path[start] == SLASH
            invariant
                root.len() <= start <= path.len(),
                forall|j: int| root.len() <= j < start ==> path@[j] == SLASH,
            decreases path.len() - start,
        {
            start += 1;
        }
        proof {
            let tail = path@.skip(root@.len() as int);
            lemma_trim_skips_run(tail, start - root@.len());
            assert(tail.skip(start - root@.len()) == path@.skip(start as int));
        }
    } else if path.len() >= 2 && path[0] == DOT && path[1] == SLASH {
        start = 2;
    } else {
        assert(path@.skip(0) == path@);
    }
    let mut s: Vec<u8> = Vec::new();
    let mut i: usize = start;
    while i < path.len()
        invariant
            start <= i <= path.len(),
            s@ == path@.subrange(start as int, i as int),
        decreases path.len() - i,
    {
        s.push(path[i]);
        assert(path@.subrange(start as int, i as int + 1) == path@.subrange(
            start as int,
            i as int,
        ).push(path@[i as int]));
        i += 1;
    }
    assert(path@.subrange(start as int, path@.len() as int) == path@.skip(start as int));
    if is_dir && !(s.len() > 0 && s[s.len() - 1] == SLASH) {
        s.push(SLASH);
    }
    s
}

/// Tells whether some segment of `s` begins with a dot without being the
/// single dot.
pub fn hidden_segment(s: &[u8]) -> (r: bool)
    ensures
        r == has_hidden_segment(s@),
{
    let mut i: usize = 0;
    while i < s.len()
        invariant
            i <= s.len(),
            forall|j: int| 0 <= j < i ==> !hidden_at(s@, j),
        decreases s.len() - i,
    {
        if s[i] == DOT && (i == 0 || s[i - 1] == SLASH) && i + 1 < s.len() && s[i + 1] != SLASH {
            assert(hidden_at(s@, i as int));
            return true;
        }
        i += 1;
    }
    false
}

/// Tells whether some segment of `s` begins with a dot and is neither `.`
/// nor `..`.
pub fn hidden_component(s: &[u8]) -> (r: bool)
    ensures
        r == has_hidden_component(s@),
{
    let mut i: usize = 0;
    while i < s.len()
        invariant
            i <= s.len(),
            forall|j: int| 0 <= j < i ==> !hidden_name_at(s@, j),
        decreases s.len() - i,
    {
        if s[i] == DOT && (i == 0 || s[i - 1] == SLASH) && i + 1 < s.len() && s[i + 1] != SLASH {
            let parent: bool = s[i + 1] == DOT && (i + 2 == s.len() || s[i + 2] == SLASH);
            if !parent {
                assert(hidden_name_at(s@, i as int));
                return true;
            }
        }
        i += 1;
    }
    false
}

/// Tells whether `name` can name an entry of a directory.
pub fn segment(name: &[u8]) -> (r: bool)
    ensures
        r == is_segment(name@),
{
    if name.len() == 0 {
        return false;
    }
    let mut i: usize = 0;
    while i < name.len()
        invariant
            i <= name.len(),
            forall|j: int| 0 <= j < i ==> name@[j] != SLASH,
        decreases name.len() - i,
    {
        if name[i] == SLASH {
            return false;
        }
        i += 1;
    }
    true
}

/// A path built from a root and a plain relative form lies within that
/// root and has that relative form.
pub proof fn lemma_relative_of_path(root: Seq<u8>, rel: Seq<u8>)
    requires
        is_clean(rel),
    ensures
        is_within(path_of(root, rel), root),
        relative_to(path_of(root, rel), root) == rel,
{
    let p = path_of(root, rel);
    let n = root.len() as int;
    assert(trim_slashes(rel) == rel);
    if rel.len() == 0 {
        assert(p.take(n) =~= root);
        assert(p.skip(n) =~= Seq::<u8>::empty());
    } else if root.len() == 0 {
        assert(p.take(n) =~= root);
        assert(p.skip(n) =~= rel);
    } else if root.last() == SLASH {
        assert(p.take(n) =~= root);
        assert(p.skip(n) =~= rel);
    } else {
        assert(p.take(n) =~= root);
        assert(p[n] == SLASH);
        let t = p.skip(n);
        assert(t[0] == SLASH);
        assert(t.skip(1) =~= rel);
        assert(trim_slashes(t) == trim_slashes(t.skip(1)));
    }
}

/// Joining a name to a directory below the root gives the path whose
/// relative form is the directory's relative form joined with the name.
pub proof fn lemma_join_below(root: Seq<u8>, rel: Seq<u8>, name: Seq<u8>)
    requires
        is_clean(rel),
        is_segment(name),
    ensures
        is_clean(join_spec(rel, name)),
        join_spec(rel, name).len() > 0,
        join_spec(path_of(root, rel), name) == path_of(root, join_spec(rel, name)),
{
    let c = join_spec(rel, name);
    if rel.len() > 0 {
        let p = path_of(root, rel);
        assert(p.len() > 0 && p.last() == rel.last());
        assert(c.last() == name.last());
        assert(c[0] == rel[0]);
        assert(join_spec(p, name) =~= path_of(root, c));
    }
}

/// The separators of a concatenation are those of its parts.
pub proof fn lemma_slash_count_concat(a: Seq<u8>, b: Seq<u8>)
    ensures
        slash_count(a + b) == slash_count(a) + slash_count(b),
    decreases b.len(),
{
    if b.len() == 0 {
        assert(a + b =~= a);
    } else {
        assert((a + b).drop_last() =~= a + b.drop_last());
        lemma_slash_count_concat(a, b.drop_last());
    }
}

/// A name of an entry holds no separator.
pub proof fn lemma_segment_has_no_slash(name: Seq<u8>)
    requires
        forall|i: int| 0 <= i < name.len() ==> name[i] != SLASH,
    ensures
        slash_count(name) == 0,
    decreases name.len(),
{
    if name.len() > 0 {
        lemma_segment_has_no_slash(name.drop_last());
    }
}

/// An entry lies one level below its directory.
pub proof fn lemma_child_depth(rel: Seq<u8>, name: Seq<u8>)
    requires
        is_clean(rel),
        is_segment(name),
    ensures
        depth_of(join_spec(rel, name)) == depth_of(rel) + 1,
{
    lemma_segment_has_no_slash(name);
    if rel.len() > 0 {
        let d = rel.push(SLASH);
        assert(d.drop_last() =~= rel);
        lemma_slash_count_concat(d, name);
    }
}

/// Each separator in the relative form of an entry either lies in the
/// relative form of its directory or closes it.
pub proof fn lemma_child_prefixes(rel: Seq<u8>, name: Seq<u8>, i: int)
    requires
        is_clean(rel),
        is_segment(name),
        0 <= i < join_spec(rel, name).len(),
        join_spec(rel, name)[i] == SLASH,
    ensures
        rel.len() > 0,
        i <= rel.len(),
        i < rel.len() ==> rel[i] == SLASH && join_spec(rel, name).take(i + 1) == rel.take(i + 1),
        i == rel.len() ==> join_spec(rel, name).take(i + 1) == dir_form(rel),
{
    let c = join_spec(rel, name);
    if rel.len() == 0 {
        assert(c[i] == name[i]);
    } else {
        if i > rel.len() {
            assert(c[i] == name[i - rel.len() - 1]);
        }
        if i < rel.len() {
            assert(c.take(i + 1) =~= rel.take(i + 1));
        } else {
            assert(c.take(i + 1) =~= rel.push(SLASH));
        }
    }
}

} // verus!
