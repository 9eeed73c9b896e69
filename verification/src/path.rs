//! The grammar of path strings: separators, roots, names and parents.
//!
//! A path is a root followed by components. The root is a single separator
//! (`/r`), a drive with its separator (`D:\r`), a bare drive (`D:`) or empty.
//! Components are separated by one or more separators, and separators at the
//! end of a path are not part of it.

use vstd::prelude::*;
use crate::text::{chars_of, string_of};

verus! {

/// Both the slash and the backslash separate the components of a path.
pub open spec fn is_separator(c: char) -> bool {
    c == '/' || c == '\\'
}

/// The letters that name a drive.
pub open spec fn is_drive_letter(c: char) -> bool {
    ('a' <= c && c <= 'z') || ('A' <= c && c <= 'Z')
}

/// How many characters at the start of `p` make up its root.
pub open spec fn root_len(p: Seq<char>) -> int {
    if p.len() >= 1 && is_separator(p[0]) {
        1
    } else if p.len() >= 2 && is_drive_letter(p[0]) && p[1] == ':' {
        if p.len() >= 3 && is_separator(p[2]) {
            3
        } else {
            2
        }
    } else {
        0
    }
}

/// `n` without the separators that end `p[..n]`, never cutting into the root.
pub open spec fn trim_end(p: Seq<char>, n: int) -> int
    decreases n,
{
    if root_len(p) < n <= p.len() && is_separator(p[n - 1]) {
        trim_end(p, n - 1)
    } else {
        n
    }
}

/// Where the component that ends at `n` begins.
pub open spec fn name_start(p: Seq<char>, n: int) -> int
    decreases n,
{
    if root_len(p) < n <= p.len() && !is_separator(p[n - 1]) {
        name_start(p, n - 1)
    } else {
        n
    }
}

/// The end of the last component of `p`.
pub open spec fn name_end(p: Seq<char>) -> int {
    trim_end(p, p.len() as int)
}

/// The last component of `p`; empty where `p` is a root or empty.
pub open spec fn file_name_of(p: Seq<char>) -> Seq<char> {
    p.subrange(name_start(p, name_end(p)), name_end(p))
}

/// The path without its last component; `None` where `p` has no component.
pub open spec fn parent_of(p: Seq<char>) -> Option<Seq<char>> {
    let end = name_end(p);
    let start = name_start(p, end);
    if start == end {
        None
    } else {
        Some(p.subrange(0, trim_end(p, start)))
    }
}

/// `p`, its parent, the parent of that, and so on up to the root.
pub open spec fn ancestors(p: Seq<char>) -> Seq<Seq<char>>
    decreases p.len(),
{
    proof {
        lemma_parent_shorter(p);
    }
    match parent_of(p) {
        None => seq![p],
        Some(q) => seq![p] + ancestors(q),
    }
}

/// Trimming and name-finding stay between the root and their argument.
pub proof fn lemma_bounds(p: Seq<char>, n: int)
    requires
        root_len(p) <= n <= p.len(),
    ensures
        root_len(p) <= trim_end(p, n) <= n,
        root_len(p) <= name_start(p, n) <= n,
    decreases n,
{
    if root_len(p) < n {
        lemma_bounds(p, n - 1);
    }
}

/// A parent is strictly shorter than its child.
pub proof fn lemma_parent_shorter(p: Seq<char>)
    ensures
        parent_of(p) matches Some(q) ==> q.len() < p.len(),
        root_len(p) <= name_start(p, name_end(p)) <= name_end(p) <= p.len(),
        0 <= root_len(p) <= p.len(),
{
    lemma_bounds(p, p.len() as int);
    lemma_bounds(p, name_end(p));
    lemma_bounds(p, name_start(p, name_end(p)));
}

/// The shape of `ancestors(p)`: it starts at `p`, each element is followed by
/// its parent, the last has none, and the elements get strictly shorter.
pub proof fn lemma_ancestors(p: Seq<char>)
    ensures
        ancestors(p).len() >= 1,
        ancestors(p)[0] == p,
        forall|i: int|
            0 <= i < ancestors(p).len() - 1 ==> parent_of(#[trigger] ancestors(p)[i]) == Some(
                ancestors(p)[i + 1],
            ),
        parent_of(ancestors(p).last()) is None,
        forall|i: int, j: int|
            0 <= i < j < ancestors(p).len() ==> (#[trigger] ancestors(p)[j]).len() < (
            #[trigger] ancestors(p)[i]).len(),
    decreases p.len(),
{
    lemma_parent_shorter(p);
    match parent_of(p) {
        None => {},
        Some(q) => {
            lemma_ancestors(q);
            let a = ancestors(p);
            let b = ancestors(q);
            assert(a =~= seq![p] + b);
            assert forall|i: int| 0 <= i < a.len() - 1 implies parent_of(#[trigger] a[i]) == Some(
                a[i + 1],
            ) by {
                if i > 0 {
                    assert(a[i] == b[i - 1]);
                    assert(a[i + 1] == b[i]);
                }
            }
            assert forall|i: int, j: int| 0 <= i < j < a.len() implies (#[trigger] a[j]).len() < (
            #[trigger] a[i]).len() by {
                assert(a[j] == b[j - 1]);
                if i > 0 {
                    assert(a[i] == b[i - 1]);
                } else if j > 1 {
                    assert(b[j - 1].len() < b[0].len());
                }
            }
        },
    }
}

/// Whether `c` separates path components.
pub fn separator(c: char) -> (r: bool)
    ensures
        r == is_separator(c),
{
    c == '/' || c == '\\'
}

/// Whether `c` names a drive.
fn drive_letter(c: char) -> (r: bool)
    ensures
        r == is_drive_letter(c),
{
    ('a' <= c && c <= 'z') || ('A' <= c && c <= 'Z')
}

/// How many characters at the start of `p` make up its root.
fn root_length(p: &Vec<char>) -> (r: usize)
    ensures
        r == root_len(p@),
        r <= p.len(),
{
    if p.len() >= 1 && separator(p[0]) {
        1
    } else if p.len() >= 2 && drive_letter(p[0]) && p[1] == ':' {
        if p.len() >= 3 && separator(p[2]) {
            3
        } else {
            2
        }
    } else {
        0
    }
}

/// `n` without the separators that end `p[..n]`.
fn trim(p: &Vec<char>, root: usize, n: usize) -> (r: usize)
    requires
        root == root_len(p@),
        root <= n <= p.len(),
    ensures
        r == trim_end(p@, n as int),
        root <= r <= n,
{
    let mut i: usize = n;
    while i > root && separator(p[i - 1])
        invariant
            root == root_len(p@),
            root <= i <= n <= p.len(),
            trim_end(p@, i as int) == trim_end(p@, n as int),
        decreases i,
    {
        i -= 1;
    }
    i
}

/// Where the component that ends at `n` begins.
fn start_of_name(p: &Vec<char>, root: usize, n: usize) -> (r: usize)
    requires
        root == root_len(p@),
        root <= n <= p.len(),
    ensures
        r == name_start(p@, n as int),
        root <= r <= n,
{
    let mut i: usize = n;
    while i > root && !separator(p[i - 1])
        invariant
            root == root_len(p@),
            root <= i <= n <= p.len(),
            name_start(p@, i as int) == name_start(p@, n as int),
        decreases i,
    {
        i -= 1;
    }
    i
}

/// The last component of `path`, empty where it has none.
pub fn file_name(path: &str) -> (name: String)
    ensures
        name@ == file_name_of(path@),
{
    let p = chars_of(path);
    let root = root_length(&p);
    let end = trim(&p, root, p.len());
    let start = start_of_name(&p, root, end);
    string_of(&p, start, end)
}

/// The parent of `path`, `None` where it has no component to drop.
pub fn parent(path: &str) -> (r: Option<String>)
    ensures
        match r {
            Some(q) => parent_of(path@) == Some(q@),
            None => parent_of(path@) is None,
        },
{
    let p = chars_of(path);
    let root = root_length(&p);
    let end = trim(&p, root, p.len());
    let start = start_of_name(&p, root, end);
    if start == end {
        None
    } else {
        let cut = trim(&p, root, start);
        Some(string_of(&p, 0, cut))
    }
}

} // verus!
