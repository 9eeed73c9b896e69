//! The size of a whole subtree, for an entry that is measured as one unit.

use vstd::prelude::*;
use crate::fault::{Fault, WalkError};
use crate::fsview::{DirEntry, FsSnapshot, Probe};
use crate::store::views;

verus! {

/// `size` and the lengths of `entries`; `None` where the sum overflows.
pub open spec fn with_lengths(size: u64, entries: Seq<DirEntry>) -> Option<u64>
    decreases entries.len(),
{
    if entries.len() == 0 {
        Some(size)
    } else {
        match with_lengths(size, entries.drop_last()) {
            Some(s) => if s + entries.last().len <= u64::MAX {
                Some((s + entries.last().len) as u64)
            } else {
                None
            },
            None => None,
        }
    }
}

/// `is_dir` as a function value.
pub open spec fn is_subdir() -> spec_fn(DirEntry) -> bool {
    |e: DirEntry| e.is_dir
}

/// The path of an entry, as a function value.
pub open spec fn path_of() -> spec_fn(DirEntry) -> Seq<char> {
    |e: DirEntry| e.path@
}

/// The paths of the directories among `entries`.
pub open spec fn subdirs(entries: Seq<DirEntry>) -> Seq<Seq<char>> {
    entries.filter(is_subdir()).map_values(path_of())
}

/// The sum that a deep walk reaches from `stack` and `size` on: each listed
/// directory adds the lengths of its entries and has its directories
/// entered; what is gone, no directory or not listable adds nothing.
pub open spec fn deep_size(fs: Map<Seq<char>, Probe>, stack: Seq<Seq<char>>, size: u64, steps: nat) -> Result<
    u64,
    Fault,
>
    decreases steps,
{
    if stack.len() == 0 {
        Ok(size)
    } else if steps == 0 {
        Err(Fault::StepLimit)
    } else if !fs.contains_key(stack.last()) {
        Err(Fault::Unknown(stack.last()))
    } else {
        match fs[stack.last()] {
            Probe::Dir { entries: Some(es), .. } => match with_lengths(size, es@) {
                Some(sum) => deep_size(fs, stack.drop_last() + subdirs(es@), sum, (steps - 1) as nat),
                None => Err(Fault::Overflow),
            },
            _ => deep_size(fs, stack.drop_last(), size, (steps - 1) as nat),
        }
    }
}

/// Adds the lengths of `entries` to `size` and puts the directories among
/// them on `stack`.
fn add_listing(stack: &mut Vec<String>, size: u64, entries: &Vec<DirEntry>) -> (r: Option<u64>)
    ensures
        r == with_lengths(size, entries@),
        r is Some ==> views(final(stack)@) == views(old(stack)@) + subdirs(entries@),
{
    let ghost base = views(stack@);
    let ghost sub = is_subdir();
    let mut sum: u64 = size;
    let mut i: usize = 0;
    proof {
        reveal(Seq::filter);
        assert(entries@.take(0) =~= Seq::<DirEntry>::empty());
        assert(base + subdirs(entries@.take(0)) =~= base);
    }
    while i < entries.len()
        invariant
            i <= entries.len(),
            sub == is_subdir(),
            with_lengths(size, entries@.take(i as int)) == Some(sum),
            views(stack@) == base + subdirs(entries@.take(i as int)),
        decreases entries.len() - i,
    {
        proof {
            assert(entries@.take(i + 1).drop_last() =~= entries@.take(i as int));
            assert(entries@.take(i + 1).last() == entries@[i as int]);
            assert(entries@.take(i + 1) =~= entries@.take(i as int).push(entries@[i as int]));
            entries@.take(i as int).lemma_filter_push(entries@[i as int], sub);
        }
        if entries[i].len > u64::MAX - sum {
            proof {
                lemma_lengths_prefix(size, entries@, i + 1);
            }
            return None;
        }
        sum = sum + entries[i].len;
        if entries[i].is_dir {
            let ghost seen = views(stack@);
            stack.push(entries[i].path.clone());
            assert(views(stack@) =~= seen.push(entries@[i as int].path@));
            assert(entries@.take(i as int).filter(sub).push(entries@[i as int]).map_values(path_of())
                =~= entries@.take(i as int).filter(sub).map_values(path_of()).push(
                entries@[i as int].path@,
            ));
        }
        i += 1;
    }
    assert(entries@.take(i as int) =~= entries@);
    Some(sum)
}

/// The length of `entry` and of everything beneath it, taking at most
/// `steps` directories from the stack.
pub fn pure_walk(entry: &DirEntry, fs: &FsSnapshot, steps: u64) -> (r: Result<u64, WalkError>)
    ensures
        match deep_size(fs@, seq![entry.path@], entry.len, steps as nat) {
            Ok(size) => r == Ok::<u64, WalkError>(size),
            Err(f) => r matches Err(e) && e@ == f,
        },
{
    let mut stack: Vec<String> = Vec::new();
    stack.push(entry.path.clone());
    let mut size: u64 = entry.len;
    let mut left: u64 = steps;
    assert(views(stack@) =~= seq![entry.path@]);
    loop
        invariant
            deep_size(fs@, views(stack@), size, left as nat) == deep_size(
                fs@,
                seq![entry.path@],
                entry.len,
                steps as nat,
            ),
        decreases left,
    {
        if stack.len() == 0 {
            return Ok(size);
        }
        if left == 0 {
            return Err(WalkError::StepLimit);
        }
        let ghost before = views(stack@);
        let path = match stack.pop() {
            Some(p) => p,
            None => {
                return Ok(size);
            },
        };
        assert(views(stack@) =~= before.drop_last());
        assert(path@ == before.last());
        match fs.probe(path.as_str()) {
            None => {
                return Err(WalkError::Unknown(path));
            },
            Some(Probe::Dir { entries: Some(es), .. }) => {
                match add_listing(&mut stack, size, es) {
                    Some(sum) => {
                        size = sum;
                    },
                    None => {
                        return Err(WalkError::Overflow);
                    },
                }
            },
            Some(_) => {},
        }
        left = left - 1;
    }
}

/// Where the lengths of a part of a listing overflow, those of the whole do.
pub proof fn lemma_lengths_prefix(size: u64, entries: Seq<DirEntry>, n: int)
    requires
        0 <= n <= entries.len(),
        with_lengths(size, entries.take(n)) is None,
    ensures
        with_lengths(size, entries) is None,
    decreases entries.len() - n,
{
    if n < entries.len() {
        assert(entries.take(n + 1).drop_last() =~= entries.take(n));
        lemma_lengths_prefix(size, entries, n + 1);
    } else {
        assert(entries.take(n) =~= entries);
    }
}

} // verus!
