//! Applying parsed diff hunks to a file's lines. The hunks are plain data
//! — a starting line, the length of the replaced range, and added, removed
//! and context lines — so the application itself is verified; the driver
//! parses patch text into this shape and joins the result back into text.

use vstd::prelude::*;

verus! {

/// One line of a hunk: added to the output, removed from the input, or
/// kept as context.
#[derive(Debug, Clone)]
pub enum PatchLine {
    Add(String),
    Remove(String),
    Context(String),
}

/// One hunk: the 1-based line its replaced range starts at, that range's
/// length, and the hunk's lines.
#[derive(Debug, Clone)]
pub struct PatchHunk {
    pub start: u64,
    pub count: u64,
    pub lines: Vec<PatchLine>,
}

pub ghost enum PatchLineV {
    Add(Seq<char>),
    Remove(Seq<char>),
    Context(Seq<char>),
}

pub ghost struct PatchHunkV {
    pub start: u64,
    pub count: u64,
    pub lines: Seq<PatchLineV>,
}

impl View for PatchLine {
    type V = PatchLineV;

    open spec fn view(&self) -> PatchLineV {
        match self {
            PatchLine::Add(s) => PatchLineV::Add(s@),
            PatchLine::Remove(s) => PatchLineV::Remove(s@),
            PatchLine::Context(s) => PatchLineV::Context(s@),
        }
    }
}

impl View for PatchHunk {
    type V = PatchHunkV;

    open spec fn view(&self) -> PatchHunkV {
        PatchHunkV {
            start: self.start,
            count: self.count,
            lines: self.lines@.map_values(|l: PatchLine| l@),
        }
    }
}

/// What a hunk emits: its added and context lines, in order.
pub open spec fn hunk_output(lines: Seq<PatchLineV>) -> Seq<Seq<char>>
    decreases lines.len(),
{
    if lines.len() == 0 {
        Seq::empty()
    } else {
        hunk_output(lines.drop_last()) + (match lines.last() {
            PatchLineV::Add(s) => seq![s],
            PatchLineV::Remove(s) => Seq::<Seq<char>>::empty(),
            PatchLineV::Context(s) => seq![s],
        })
    }
}

/// How many lines a hunk adds.
pub open spec fn hunk_adds(lines: Seq<PatchLineV>) -> int
    decreases lines.len(),
{
    if lines.len() == 0 {
        0
    } else {
        hunk_adds(lines.drop_last()) + (match lines.last() {
            PatchLineV::Add(s) => 1int,
            PatchLineV::Remove(s) => 0int,
            PatchLineV::Context(s) => 0int,
        })
    }
}

/// The last hunk whose range starts at line `ln`, if any; a later hunk
/// with the same start shadows an earlier one.
pub open spec fn find_hunk(hunks: Seq<PatchHunkV>, ln: int) -> Option<PatchHunkV>
    decreases hunks.len(),
{
    if hunks.len() == 0 {
        None
    } else if hunks.last().start == ln {
        Some(hunks.last())
    } else {
        find_hunk(hunks.drop_last(), ln)
    }
}

/// How many further input lines a hunk consumes after its first: the rest
/// of its replaced range, when the range exceeds what the hunk adds.
pub open spec fn hunk_skip(h: PatchHunkV) -> int {
    if h.count > hunk_adds(h.lines) {
        h.count - hunk_adds(h.lines) + 1
    } else {
        0
    }
}

/// The patched lines from position `i` on: a line starting a hunk's range
/// is replaced by that hunk's output and the rest of the range is dropped;
/// every other line passes through.
pub open spec fn spec_apply(lines: Seq<Seq<char>>, hunks: Seq<PatchHunkV>, i: int) -> Seq<
    Seq<char>,
>
    decreases lines.len() - i,
    when i >= 0
{
    if i >= lines.len() {
        Seq::empty()
    } else {
        match find_hunk(hunks, i + 1) {
            Some(h) => {
                let next = i + 1 + hunk_skip(h);
                hunk_output(h.lines) + spec_apply(
                    lines,
                    hunks,
                    if next > lines.len() {
                        lines.len() as int
                    } else {
                        next
                    },
                )
            },
            None => seq![lines[i]] + spec_apply(lines, hunks, i + 1),
        }
    }
}

/// The views of a hunk vector.
pub open spec fn hvs(hunks: Seq<PatchHunk>) -> Seq<PatchHunkV> {
    hunks.map_values(|h: PatchHunk| h@)
}

/// The views of a line vector.
pub open spec fn lvs(lines: Seq<String>) -> Seq<Seq<char>> {
    lines.map_values(|s: String| s@)
}

/// Finds the hunk whose range starts at line `ln`, later hunks shadowing
/// earlier ones.
fn find_hunk_at(hunks: &Vec<PatchHunk>, ln: u64) -> (r: Option<&PatchHunk>)
    ensures
        match r {
            Some(h) => find_hunk(hvs(hunks@), ln as int) == Some(h@),
            None => find_hunk(hvs(hunks@), ln as int) is None,
        },
{
    let mut j: usize = hunks.len();
    while j > 0
        invariant
            0 <= j <= hunks@.len(),
            forall|k: int| j <= k < hunks@.len() ==> hvs(hunks@)[k].start != ln,
        decreases j,
    {
        j = j - 1;
        if hunks[j].start == ln {
            proof {
                lemma_find_hunk_at(hvs(hunks@), ln as int, j as int);
            }
            return Some(&hunks[j]);
        }
    }
    proof {
        lemma_find_hunk_missing(hvs(hunks@), ln as int);
    }
    None
}

/// A matching position with no later match determines the found hunk.
proof fn lemma_find_hunk_at(hunks: Seq<PatchHunkV>, ln: int, j: int)
    requires
        0 <= j < hunks.len(),
        hunks[j].start == ln,
        forall|k: int| j < k < hunks.len() ==> hunks[k].start != ln,
    ensures
        find_hunk(hunks, ln) == Some(hunks[j]),
    decreases hunks.len(),
{
    if hunks.last().start != ln {
        assert forall|k: int| j < k < hunks.drop_last().len() implies hunks.drop_last()[k].start
            != ln by {
            assert(hunks[k].start != ln);
        }
        lemma_find_hunk_at(hunks.drop_last(), ln, j);
    }
}

/// No matching start means no hunk is found.
proof fn lemma_find_hunk_missing(hunks: Seq<PatchHunkV>, ln: int)
    requires
        forall|k: int| 0 <= k < hunks.len() ==> hunks[k].start != ln,
    ensures
        find_hunk(hunks, ln) is None,
    decreases hunks.len(),
{
    if hunks.len() > 0 {
        assert forall|k: int| 0 <= k < hunks.drop_last().len() implies hunks.drop_last()[k].start
            != ln by {
            assert(hunks[k].start != ln);
        }
        lemma_find_hunk_missing(hunks.drop_last(), ln);
    }
}

/// Emits one hunk's added and context lines.
fn push_hunk_output(out: &mut Vec<String>, h: &PatchHunk)
    ensures
        lvs(final(out)@) == lvs(old(out)@) + hunk_output(h@.lines),
{
    let mut k: usize = 0;
    proof {
        assert(h@.lines.take(0) =~= Seq::<PatchLineV>::empty());
        assert(lvs(out@) + hunk_output(h@.lines.take(0)) =~= lvs(out@));
    }
    while k < h.lines.len()
        invariant
            0 <= k <= h.lines@.len(),
            lvs(out@) == lvs(old(out)@) + hunk_output(h@.lines.take(k as int)),
        decreases h.lines@.len() - k,
    {
        proof {
            assert(h@.lines.take(k + 1).drop_last() =~= h@.lines.take(k as int));
            assert(h@.lines.take(k + 1).last() == h@.lines[k as int]);
        }
        let ghost old_out = out@;
        match &h.lines[k] {
            PatchLine::Add(s) => {
                out.push(s.clone());
                proof {
                    assert(lvs(out@) =~= lvs(old_out).push(s@));
                    assert(lvs(old_out).push(s@) =~= lvs(old(out)@) + hunk_output(
                        h@.lines.take(k + 1),
                    ));
                }
            },
            PatchLine::Remove(_) => {
                proof {
                    assert(lvs(out@) =~= lvs(old(out)@) + hunk_output(h@.lines.take(k + 1)));
                }
            },
            PatchLine::Context(s) => {
                out.push(s.clone());
                proof {
                    assert(lvs(out@) =~= lvs(old_out).push(s@));
                    assert(lvs(old_out).push(s@) =~= lvs(old(out)@) + hunk_output(
                        h@.lines.take(k + 1),
                    ));
                }
            },
        }
        k += 1;
    }
    proof {
        assert(h@.lines.take(h.lines@.len() as int) =~= h@.lines);
    }
}

/// Counts a hunk's added lines.
fn count_hunk_adds(h: &PatchHunk) -> (r: u64)
    ensures
        r == hunk_adds(h@.lines) || (hunk_adds(h@.lines) > u64::MAX && r == u64::MAX),
        r <= hunk_adds(h@.lines),
{
    let mut adds: u64 = 0;
    let mut k: usize = 0;
    proof {
        assert(h@.lines.take(0) =~= Seq::<PatchLineV>::empty());
    }
    while k < h.lines.len()
        invariant
            0 <= k <= h.lines@.len(),
            adds == hunk_adds(h@.lines.take(k as int)) || (hunk_adds(h@.lines.take(k as int))
                > u64::MAX && adds == u64::MAX),
            adds <= hunk_adds(h@.lines.take(k as int)),
            0 <= hunk_adds(h@.lines.take(k as int)),
        decreases h.lines@.len() - k,
    {
        proof {
            assert(h@.lines.take(k + 1).drop_last() =~= h@.lines.take(k as int));
            assert(h@.lines.take(k + 1).last() == h@.lines[k as int]);
        }
        match &h.lines[k] {
            PatchLine::Add(_) => {
                if adds < u64::MAX {
                    adds = adds + 1;
                }
            },
            PatchLine::Remove(_) => {},
            PatchLine::Context(_) => {},
        }
        k += 1;
    }
    proof {
        assert(h@.lines.take(h.lines@.len() as int) =~= h@.lines);
    }
    adds
}

/// Applies the hunks to the file's lines: a line at which a hunk's range
/// starts is replaced by the hunk's added and context lines, the rest of
/// the range is dropped, and every other line passes through unchanged.
pub fn apply(old_lines: &Vec<String>, hunks: &Vec<PatchHunk>) -> (r: Vec<String>)
    requires
        forall|k: int|
            0 <= k < hunks@.len() ==> hunk_adds((#[trigger] hvs(hunks@)[k]).lines) <= u64::MAX,
    ensures
        lvs(r@) == spec_apply(lvs(old_lines@), hvs(hunks@), 0),
{
    let mut out: Vec<String> = Vec::new();
    let mut i: usize = 0;
    let len = old_lines.len();
    proof {
        assert(lvs(out@) + spec_apply(lvs(old_lines@), hvs(hunks@), 0) =~= spec_apply(
            lvs(old_lines@),
            hvs(hunks@),
            0,
        ));
    }
    while i < len
        invariant
            0 <= i,
            len == old_lines@.len(),
            spec_apply(lvs(old_lines@), hvs(hunks@), 0) == lvs(out@) + spec_apply(
                lvs(old_lines@),
                hvs(hunks@),
                i as int,
            ),
            forall|k: int|
                0 <= k < hunks@.len() ==> hunk_adds((#[trigger] hvs(hunks@)[k]).lines)
                    <= u64::MAX,
        decreases len - i,
    {
        let ln = (i as u64) + 1;
        match find_hunk_at(hunks, ln) {
            Some(h) => {
                let ghost hv = h@;
                push_hunk_output(&mut out, h);
                let adds = count_hunk_adds(h);
                proof {
                    assert(exists|k: int|
                        0 <= k < hunks@.len() && hvs(hunks@)[k] == hv) by {
                        lemma_find_hunk_member(hvs(hunks@), ln as int);
                    }
                    assert(adds == hunk_adds(hv.lines));
                }
                let remaining = (len - i) as u64;
                if h.count > adds {
                    let d = h.count - adds;
                    proof {
                        assert(hunk_skip(hv) == d + 1);
                    }
                    if remaining < 2 || d > remaining - 2 {
                        proof {
                            assert(i + 1 + hunk_skip(hv) > lvs(old_lines@).len());
                            assert(spec_apply(
                                lvs(old_lines@),
                                hvs(hunks@),
                                lvs(old_lines@).len() as int,
                            ) =~= Seq::<Seq<char>>::empty());
                        }
                        return out;
                    }
                    proof {
                        assert(hunk_skip(hv) == d + 1 && i + 2 + d <= len);
                    }
                    i = i + 2 + (d as usize);
                } else {
                    proof {
                        assert(hunk_skip(hv) == 0);
                    }
                    i = i + 1;
                }
            },
            None => {
                let ghost old_out = out@;
                out.push(old_lines[i].clone());
                proof {
                    assert(lvs(out@) =~= lvs(old_out).push(lvs(old_lines@)[i as int]));
                }
                i = i + 1;
            },
        }
    }
    proof {
        assert(spec_apply(lvs(old_lines@), hvs(hunks@), i as int) =~= Seq::<Seq<char>>::empty());
    }
    out
}

/// A found hunk is a member of the list.
proof fn lemma_find_hunk_member(hunks: Seq<PatchHunkV>, ln: int)
    ensures
        find_hunk(hunks, ln) matches Some(h) ==> exists|k: int|
            0 <= k < hunks.len() && hunks[k] == h,
    decreases hunks.len(),
{
    if hunks.len() > 0 {
        lemma_find_hunk_member(hunks.drop_last(), ln);
        if hunks.last().start == ln {
            assert(hunks[hunks.len() - 1] == hunks.last());
        } else {
            match find_hunk(hunks.drop_last(), ln) {
                Some(h) => {
                    let k = choose|k: int|
                        0 <= k < hunks.drop_last().len() && hunks.drop_last()[k] == h;
                    assert(hunks[k] == h);
                },
                None => {},
            }
        }
    }
}

} // verus!
