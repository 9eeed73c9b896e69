//! Which paths a scan leaves out, which it measures whole, and which count as
//! scripts.

use vstd::prelude::*;
use crate::path::{file_name, file_name_of};
use crate::text::{chars_of, matches_at};

verus! {

/// A name that begins with this character is left out of every scan.
pub open spec fn reserved_prefix() -> char {
    '$'
}

/// Names of system directories, matched at the end of a name.
pub open spec fn reserved_names() -> Seq<Seq<char>> {
    seq!["Config.Msi"@, "System Volume Information"@]
}

/// The endings that mark a script or an executable.
pub open spec fn script_endings() -> Seq<Seq<char>> {
    seq![".exe"@, ".dll"@, ".bat"@, ".vbs"@, ".ps1"@]
}

/// Whether `text` ends with one of `endings`.
pub open spec fn ends_with_any(text: Seq<char>, endings: Seq<Seq<char>>) -> bool {
    exists|i: int| 0 <= i < endings.len() && (#[trigger] endings[i]).is_suffix_of(text)
}

/// A path is ignored where its last component begins with the reserved
/// prefix or ends with a reserved name.
pub open spec fn is_ignored(path: Seq<char>) -> bool {
    let name = file_name_of(path);
    (name.len() > 0 && name[0] == reserved_prefix()) || ends_with_any(name, reserved_names())
}

/// A path is script-like where it ends with one of the script endings.
pub open spec fn is_script(path: Seq<char>) -> bool {
    ends_with_any(path, script_endings())
}

/// No path is measured as one opaque leaf.
pub open spec fn is_opaque_leaf(path: Seq<char>) -> bool {
    false
}

/// Whether `text` ends with `ending`.
fn ends_with(text: &Vec<char>, ending: &str) -> (r: bool)
    ensures
        r == ending@.is_suffix_of(text@),
{
    let pat = chars_of(ending);
    if pat.len() > text.len() {
        return false;
    }
    let at = text.len() - pat.len();
    let r = matches_at(text, at, &pat);
    proof {
        let tail = text@.skip(at as int);
        assert(tail =~= text@.subrange(text@.len() - pat@.len(), text@.len() as int));
        if r {
            assert(tail.subrange(0, pat@.len() as int) =~= tail);
        }
    }
    r
}

/// Whether a scan leaves `path` out, with everything beneath it.
pub fn treat_as_ignore(path: &str) -> (r: bool)
    ensures
        r == is_ignored(path@),
{
    let name = file_name(path);
    let name = chars_of(name.as_str());
    if name.len() > 0 && name[0] == '$' {
        return true;
    }
    let a = ends_with(&name, "Config.Msi");
    let b = ends_with(&name, "System Volume Information");
    proof {
        let names = reserved_names();
        assert(names[0] == "Config.Msi"@ && names[1] == "System Volume Information"@);
    }
    a || b
}

/// Whether `path` is measured as a whole instead of being walked into.
pub fn treat_as_file(path: &str) -> (r: bool)
    ensures
        r == is_opaque_leaf(path@),
{
    false
}

/// Whether `path` counts as a script.
pub fn treat_as_script(path: &str) -> (r: bool)
    ensures
        r == is_script(path@),
{
    let text = chars_of(path);
    let a = ends_with(&text, ".exe");
    let b = ends_with(&text, ".dll");
    let c = ends_with(&text, ".bat");
    let d = ends_with(&text, ".vbs");
    let e = ends_with(&text, ".ps1");
    proof {
        let ends = script_endings();
        assert(ends[0] == ".exe"@ && ends[1] == ".dll"@ && ends[2] == ".bat"@ && ends[3] == ".vbs"@
            && ends[4] == ".ps1"@);
    }
    a || b || c || d || e
}

} // verus!
