//! The list of paths to bundle, and the archive entry name of each.
use vstd::prelude::*;

use crate::error::BundleError;

verus! {

/// What the file system holds at a path.
#[derive(Clone, Copy, Debug, PartialEq, Eq, Structural)]
pub enum NodeKind {
    Missing,
    File,
    Dir,
    Other,
}

/// A path to bundle, with what lies at the path itself and at each of its
/// ancestors (the empty root aside).
pub struct PathInfo {
    pub path: Vec<u8>,
    pub ancestors: Vec<NodeKind>,
}

pub open spec fn newline() -> u8 {
    10u8
}

pub open spec fn carriage_return() -> u8 {
    13u8
}

/// Index of the first newline at or after `i`, or the length of `s`.
pub open spec fn line_end(s: Seq<u8>, i: int) -> int
    decreases s.len() - i,
{
    if i < 0 || i >= s.len() {
        s.len() as int
    } else if s[i] == newline() {
        i
    } else {
        line_end(s, i + 1)
    }
}

/// A line without its terminator's carriage return, if any.
pub open spec fn trim_line(l: Seq<u8>) -> Seq<u8> {
    if l.len() > 0 && l.last() == carriage_return() {
        l.drop_last()
    } else {
        l
    }
}

/// The lines of `s` from `i` on, each without its terminator. Text after the
/// last newline is a line of its own when it is not empty.
pub open spec fn lines_from(s: Seq<u8>, i: int) -> Seq<Seq<u8>>
    decreases s.len() - i,
{
    if i < 0 || i >= s.len() {
        Seq::empty()
    } else {
        let e = line_end(s, i);
        if e < i || e > s.len() {
            Seq::empty()
        } else if e == s.len() {
            seq![trim_line(s.subrange(i, e))]
        } else {
            seq![trim_line(s.subrange(i, e))] + lines_from(s, e + 1)
        }
    }
}

pub open spec fn views(v: Seq<Vec<u8>>) -> Seq<Seq<u8>> {
    v.map_values(|x: Vec<u8>| x@)
}

proof fn lemma_line_end_bounds(s: Seq<u8>, i: int)
    requires
        0 <= i <= s.len(),
    ensures
        i <= line_end(s, i) <= s.len(),
        line_end(s, i) < s.len() ==> s[line_end(s, i)] == newline(),
    decreases s.len() - i,
{
    if i < s.len() && s[i] != newline() {
        lemma_line_end_bounds(s, i + 1);
    }
}

/// Appends `s[a..b]` to `out`.
fn push_range(out: &mut Vec<u8>, s: &[u8], a: usize, b: usize)
    requires
        a <= b <= s@.len(),
    ensures
        final(out)@ == old(out)@ + s@.subrange(a as int, b as int),
{
    let mut i: usize = a;
    while i < b
        invariant
            a <= i <= b <= s@.len(),
            out@ == old(out)@ + s@.subrange(a as int, i as int),
        decreases b - i,
    {
        out.push(s[i]);
        assert(s@.subrange(a as int, i + 1) =~= s@.subrange(a as int, i as int).push(s@[i as int]));
        i = i + 1;
    }
}

/// Splits newline-terminated text into its lines, one path per line, each
/// without its line terminator (`\n` or `\r\n`). A final line may lack the
/// terminator; nothing after the last newline gives no empty entry.
pub fn read_paths(input: &[u8]) -> (r: Vec<Vec<u8>>)
    ensures
        views(r@) == lines_from(input@, 0),
{
    let mut out: Vec<Vec<u8>> = Vec::new();
    let mut i: usize = 0;
    while i < input.len()
        invariant
            i <= input@.len(),
            lines_from(input@, 0) == views(out@) + lines_from(input@, i as int),
        decreases input@.len() - i,
    {
        let mut j: usize = i;
        while j < input.len() && input[j] != 10
            invariant
                i <= j <= input@.len(),
                line_end(input@, i as int) == line_end(input@, j as int),
            decreases input@.len() - j,
        {
            j = j + 1;
        }
        proof {
            lemma_line_end_bounds(input@, i as int);
        }
        let mut line: Vec<u8> = Vec::new();
        if j > i && input[j - 1] == 13 {
            push_range(&mut line, input, i, j - 1);
            assert(input@.subrange(i as int, j - 1) =~= input@.subrange(i as int, j as int).drop_last());
        } else {
            push_range(&mut line, input, i, j);
        }
        let ghost before = out@;
        out.push(line);
        assert(views(out@) =~= views(before).push(line@));
        if j == input.len() {
            assert(views(out@) + lines_from(input@, j as int) =~= views(before) + seq![line@]);
            i = j;
        } else {
            assert(views(out@) + lines_from(input@, j + 1) =~= views(before) + (seq![line@]
                + lines_from(input@, j + 1)));
            i = j + 1;
        }
    }
    assert(views(out@) + Seq::empty() =~= views(out@));
    out
}

/// Whether a path or an ancestor of one may be bundled: a file or a directory.
pub open spec fn bundleable(k: NodeKind) -> bool {
    k == NodeKind::File || k == NodeKind::Dir
}

/// The archive entry name of `path`, whose own node and ancestors are
/// `ancestors`: the path less `prefix`, once every one of them is a file or a
/// directory and the path starts with `prefix`.
pub open spec fn entry_name_of(path: Seq<u8>, prefix: Seq<u8>, ancestors: Seq<NodeKind>) -> Result<
    Seq<u8>,
    BundleError,
> {
    if !(forall|i: int| 0 <= i < ancestors.len() ==> bundleable(ancestors[i])) {
        Err(BundleError::NotFileOrDir)
    } else if prefix.len() <= path.len() && path.subrange(0, prefix.len() as int) == prefix {
        Ok(path.subrange(prefix.len() as int, path.len() as int))
    } else {
        Err(BundleError::PrefixMismatch)
    }
}

/// Whether each of `kinds` is a file or a directory.
pub fn ancestors_ok(kinds: &[NodeKind]) -> (r: bool)
    ensures
        r == forall|i: int| 0 <= i < kinds@.len() ==> bundleable(kinds@[i]),
{
    let mut i: usize = 0;
    while i < kinds.len()
        invariant
            i <= kinds@.len(),
            forall|k: int| 0 <= k < i ==> bundleable(kinds@[k]),
        decreases kinds@.len() - i,
    {
        let k = kinds[i];
        if !(k == NodeKind::File || k == NodeKind::Dir) {
            return false;
        }
        i = i + 1;
    }
    true
}

/// `path` less its literal leading `prefix`.
pub fn strip_prefix(path: &[u8], prefix: &[u8]) -> (r: Result<Vec<u8>, BundleError>)
    ensures
        match r {
            Ok(name) => prefix@.len() <= path@.len() && path@.subrange(0, prefix@.len() as int)
                == prefix@ && name@ == path@.subrange(prefix@.len() as int, path@.len() as int),
            Err(e) => e == BundleError::PrefixMismatch && !(prefix@.len() <= path@.len()
                && path@.subrange(0, prefix@.len() as int) == prefix@),
        },
{
    if prefix.len() > path.len() {
        return Err(BundleError::PrefixMismatch);
    }
    let mut i: usize = 0;
    while i < prefix.len()
        invariant
            prefix@.len() <= path@.len(),
            i <= prefix@.len(),
            forall|k: int| 0 <= k < i ==> path@[k] == prefix@[k],
        decreases prefix@.len() - i,
    {
        if path[i] != prefix[i] {
            assert(path@.subrange(0, prefix@.len() as int)[i as int] != prefix@[i as int]);
            return Err(BundleError::PrefixMismatch);
        }
        i = i + 1;
    }
    assert(path@.subrange(0, prefix@.len() as int) =~= prefix@);
    let mut name: Vec<u8> = Vec::new();
    push_range(&mut name, path, prefix.len(), path.len());
    Ok(name)
}

/// The archive entry name of one path: refused when the path or an ancestor
/// is not a file or directory, then when the path lacks `prefix`.
pub fn entry_name(path: &[u8], prefix: &[u8], ancestors: &[NodeKind]) -> (r: Result<
    Vec<u8>,
    BundleError,
>)
    ensures
        match entry_name_of(path@, prefix@, ancestors@) {
            Ok(name) => r matches Ok(v) && v@ == name,
            Err(e) => r == Err::<Vec<u8>, BundleError>(e),
        },
{
    if !ancestors_ok(ancestors) {
        return Err(BundleError::NotFileOrDir);
    }
    strip_prefix(path, prefix)
}

/// The entry names of all `paths`, in order, or the error of the first path
/// that is refused. Nothing is named unless every path is accepted.
pub fn entry_names(paths: &Vec<PathInfo>, prefix: &[u8]) -> (r: Result<Vec<Vec<u8>>, BundleError>)
    ensures
        match r {
            Ok(names) => names@.len() == paths@.len() && forall|i: int|
                0 <= i < paths@.len() ==> entry_name_of(
                    paths@[i].path@,
                    prefix@,
                    paths@[i].ancestors@,
                ) == Ok::<Seq<u8>, BundleError>(names@[i]@),
            Err(e) => exists|j: int|
                0 <= j < paths@.len() && entry_name_of(paths@[j].path@, prefix@, paths@[j].ancestors@)
                    == Err::<Seq<u8>, BundleError>(e) && forall|i: int|
                    0 <= i < j ==> entry_name_of(paths@[i].path@, prefix@, paths@[i].ancestors@) is Ok,
        },
{
    let mut names: Vec<Vec<u8>> = Vec::new();
    let mut i: usize = 0;
    while i < paths.len()
        invariant
            i <= paths@.len(),
            names@.len() == i,
            forall|k: int|
                0 <= k < i ==> entry_name_of(paths@[k].path@, prefix@, paths@[k].ancestors@) == Ok::<
                    Seq<u8>,
                    BundleError,
                >(names@[k]@),
        decreases paths@.len() - i,
    {
        let item = &paths[i];
        match entry_name(item.path.as_slice(), prefix, item.ancestors.as_slice()) {
            Ok(name) => {
                names.push(name);
            },
            Err(e) => {
                assert forall|k: int| 0 <= k < i implies entry_name_of(
                    paths@[k].path@,
                    prefix@,
                    paths@[k].ancestors@,
                ) is Ok by {
                    assert(entry_name_of(paths@[k].path@, prefix@, paths@[k].ancestors@) == Ok::<
                        Seq<u8>,
                        BundleError,
                    >(names@[k]@));
                }
                return Err(e);
            },
        }
        i = i + 1;
    }
    Ok(names)
}

} // verus!
