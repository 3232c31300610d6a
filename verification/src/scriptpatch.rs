//! The script patcher's own bookkeeping: which patch files it will apply
//! and the replacements to run over them. Reading, parsing, and applying
//! the patches is file work the driver performs.

use vstd::prelude::*;
use vstd::string::*;
use crate::replace::Replacements;

verus! {

/// Index of the last occurrence of `c` in `s`, or -1.
pub open spec fn last_index_of(s: Seq<char>, c: char) -> int
    decreases s.len(),
{
    if s.len() == 0 {
        -1
    } else if s.last() == c {
        s.len() - 1
    } else {
        last_index_of(s.drop_last(), c)
    }
}

/// The exact position determines the last occurrence.
pub proof fn lemma_last_index_exact(s: Seq<char>, c: char, j: int)
    requires
        0 <= j < s.len(),
        s[j] == c,
        forall|k: int| j < k < s.len() ==> s[k] != c,
    ensures
        last_index_of(s, c) == j,
    decreases s.len(),
{
    if s.last() != c {
        assert forall|k: int| j < k < s.drop_last().len() implies s.drop_last()[k] != c by {
            assert(s[k] != c);
        }
        lemma_last_index_exact(s.drop_last(), c, j);
    }
}

/// No occurrence at all puts the last occurrence at -1.
pub proof fn lemma_last_index_missing(s: Seq<char>, c: char)
    requires
        forall|k: int| 0 <= k < s.len() ==> s[k] != c,
    ensures
        last_index_of(s, c) == -1,
    decreases s.len(),
{
    if s.len() > 0 {
        assert forall|k: int| 0 <= k < s.drop_last().len() implies s.drop_last()[k] != c by {
            assert(s[k] != c);
        }
        lemma_last_index_missing(s.drop_last(), c);
    }
}

/// The file name of a separator-joined path: what follows the last `/`.
pub open spec fn file_name_of(path: Seq<char>) -> Seq<char> {
    path.skip(last_index_of(path, '/') + 1)
}

/// The stem of a file name: what precedes its last dot, unless the name
/// begins with that dot or has none.
pub open spec fn file_stem_of(name: Seq<char>) -> Seq<char> {
    let d = last_index_of(name, '.');
    if d <= 0 {
        name
    } else {
        name.take(d)
    }
}

/// The stems of the paths with a nonempty file name, in order.
pub open spec fn stems_of(paths: Seq<Seq<char>>) -> Seq<Seq<char>>
    decreases paths.len(),
{
    if paths.len() == 0 {
        Seq::empty()
    } else {
        stems_of(paths.drop_last()) + if file_name_of(paths.last()).len() == 0 {
            Seq::empty()
        } else {
            seq![file_stem_of(file_name_of(paths.last()))]
        }
    }
}

/// The stem of one path string, when it has a file name.
fn file_stem_str(path: &str) -> (r: Option<String>)
    ensures
        (r is None) == (file_name_of(path@).len() == 0),
        r matches Some(s) ==> s@ == file_stem_of(file_name_of(path@)),
{
    let len = path.unicode_len();
    let mut sep: usize = len;
    let mut i: usize = len;
    while i > 0 && sep == len
        invariant
            0 <= i <= len,
            len == path@.len(),
            sep == len || (i <= sep < len && path@[sep as int] == '/'),
            sep == len ==> forall|k: int| i <= k < len ==> path@[k] != '/',
            sep < len ==> forall|k: int| sep < k < len ==> path@[k] != '/',
        decreases i,
    {
        i = i - 1;
        if path.get_char(i) == '/' {
            sep = i;
        }
    }
    proof {
        if sep == len {
            lemma_last_index_missing(path@, '/');
        } else {
            lemma_last_index_exact(path@, '/', sep as int);
        }
    }
    let name_start = if sep == len {
        0
    } else {
        sep + 1
    };
    let name = path.substring_char(name_start, len);
    proof {
        assert(name@ =~= file_name_of(path@));
    }
    if name.unicode_len() == 0 {
        return None;
    }
    let name_len = name.unicode_len();
    let mut dot: usize = name_len;
    let mut j: usize = name_len;
    while j > 0 && dot == name_len
        invariant
            0 <= j <= name_len,
            name_len == name@.len(),
            dot == name_len || (j <= dot < name_len && name@[dot as int] == '.'),
            dot == name_len ==> forall|k: int| j <= k < name_len ==> name@[k] != '.',
            dot < name_len ==> forall|k: int| dot < k < name_len ==> name@[k] != '.',
        decreases j,
    {
        j = j - 1;
        if name.get_char(j) == '.' {
            dot = j;
        }
    }
    proof {
        if dot == name_len {
            lemma_last_index_missing(name@, '.');
        } else {
            lemma_last_index_exact(name@, '.', dot as int);
        }
    }
    if dot == name_len || dot == 0 {
        Some(name.to_owned())
    } else {
        let stem = name.substring_char(0, dot);
        proof {
            assert(stem@ =~= file_stem_of(file_name_of(path@)));
        }
        Some(stem.to_owned())
    }
}

/// Applies diff patches from a directory of patch files. This holds the
/// bookkeeping; the driver walks the directory, reads each patch, runs the
/// replacements, and applies the result to the matching script.
#[derive(Debug)]
pub struct ScriptPatcher {
    /// The paths of the patches this patcher will apply.
    pub patch_paths: Vec<String>,
    /// Replacements run over each patch's text before it is applied.
    pub replacements: Option<Replacements>,
}

impl ScriptPatcher {
    /// The file stems of this patcher's patches: the script names they
    /// will patch. Paths are read as plain `/`-separated strings; the
    /// driver hands them over in that shape.
    pub fn get_patch_script_names(&self) -> (r: Vec<String>)
        ensures
            r@.map_values(|s: String| s@) == stems_of(
                self.patch_paths@.map_values(|p: String| p@),
            ),
    {
        let ghost pv = self.patch_paths@.map_values(|p: String| p@);
        let mut out: Vec<String> = Vec::new();
        let mut i: usize = 0;
        proof {
            assert(pv.take(0) =~= Seq::<Seq<char>>::empty());
            assert(out@.map_values(|s: String| s@) =~= Seq::<Seq<char>>::empty());
        }
        while i < self.patch_paths.len()
            invariant
                0 <= i <= self.patch_paths@.len(),
                pv == self.patch_paths@.map_values(|p: String| p@),
                out@.map_values(|s: String| s@) == stems_of(pv.take(i as int)),
            decreases self.patch_paths@.len() - i,
        {
            proof {
                assert(pv.take(i + 1).drop_last() =~= pv.take(i as int));
                assert(pv.take(i + 1).last() == pv[i as int]);
            }
            match file_stem_str(self.patch_paths[i].as_str()) {
                Some(stem) => {
                    let ghost old_out = out@;
                    out.push(stem);
                    proof {
                        assert(out@.map_values(|s: String| s@) =~= old_out.map_values(
                            |s: String| s@,
                        ) + seq![file_stem_of(file_name_of(pv[i as int]))]);
                    }
                },
                None => {
                    proof {
                        assert(stems_of(pv.take(i + 1)) =~= stems_of(pv.take(i as int)));
                    }
                },
            }
            i += 1;
        }
        proof {
            assert(pv.take(self.patch_paths@.len() as int) =~= pv);
        }
        out
    }
}

} // verus!
