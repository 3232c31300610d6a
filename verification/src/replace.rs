//! Keyed text replacements for patch scripts: `key=value` lists parsed into
//! brace-wrapped replacement pairs, applied in order.

use vstd::prelude::*;
use vstd::string::*;
use crate::errors::PatchError;
use crate::strutil::replace_all;
use crate::strutil::split_chars;
use crate::strutil::split_str;
use crate::strutil::str_replace;

verus! {

/// One replacement: `key` (brace-wrapped) is replaced by `value`.
#[derive(Debug, PartialEq)]
pub struct Replacement {
    pub key: String,
    pub value: String,
}

impl Replacement {
    /// Wraps `key` in braces and pairs it with `value`.
    pub fn new(key: String, value: String) -> (r: Self)
        ensures
            r.key@ == seq!['{'] + key@ + seq!['}'],
            r.value == value,
    {
        proof {
            reveal_strlit("{");
            reveal_strlit("}");
        }
        let mut k = "{".to_owned();
        k.append(key.as_str());
        k.append("}");
        proof {
            assert(k@ =~= seq!['{'] + key@ + seq!['}']);
        }
        Replacement { key: k, value }
    }
}

/// A collection of replacements, applied in order.
#[derive(Debug)]
pub struct Replacements {
    pub replacements: Vec<Replacement>,
}

/// The (key, value) views of the pairs.
pub open spec fn reps_view(rs: Seq<Replacement>) -> Seq<(Seq<char>, Seq<char>)> {
    rs.map_values(|r: Replacement| (r.key@, r.value@))
}

/// A `key=value` pair parses when splitting it on `=` yields a value piece.
pub open spec fn pair_parses(pair: Seq<char>) -> bool {
    split_chars(pair, '=').len() >= 2
}

/// The replacement a pair denotes: its first piece brace-wrapped, paired
/// with its second piece; later pieces are ignored.
pub open spec fn pair_replacement(pair: Seq<char>) -> (Seq<char>, Seq<char>) {
    (
        seq!['{'] + split_chars(pair, '=')[0] + seq!['}'],
        split_chars(pair, '=')[1],
    )
}

impl Replacements {
    /// Parses a list like `key1=value1,key2=value2`. Fails exactly when
    /// some comma-separated piece has no `=`-separated value.
    pub fn try_parse_str(to_parse: &str) -> (r: Result<Self, PatchError>)
        ensures
            r matches Ok(rs) ==> {
                &&& reps_view(rs.replacements@).len() == split_chars(to_parse@, ',').len()
                &&& forall|i: int|
                    0 <= i < reps_view(rs.replacements@).len() ==> pair_parses(
                        #[trigger] split_chars(to_parse@, ',')[i],
                    ) && reps_view(rs.replacements@)[i] == pair_replacement(
                        split_chars(to_parse@, ',')[i],
                    )
            },
            (r is Err) == exists|i: int|
                0 <= i < split_chars(to_parse@, ',').len() && !pair_parses(
                    #[trigger] split_chars(to_parse@, ',')[i],
                ),
    {
        let pairs = split_str(to_parse, ',');
        let mut replacements: Vec<Replacement> = Vec::new();
        let mut i: usize = 0;
        while i < pairs.len()
            invariant
                0 <= i <= pairs@.len(),
                pairs@.map_values(|p: String| p@) == split_chars(to_parse@, ','),
                reps_view(replacements@).len() == i,
                forall|k: int|
                    0 <= k < i ==> pair_parses(#[trigger] split_chars(to_parse@, ',')[k])
                        && reps_view(replacements@)[k] == pair_replacement(
                        split_chars(to_parse@, ',')[k],
                    ),
            decreases pairs@.len() - i,
        {
            let pieces = split_str(pairs[i].as_str(), '=');
            proof {
                assert(pairs@[i as int]@ == split_chars(to_parse@, ',')[i as int]);
            }
            if pieces.len() < 2 {
                assert(!pair_parses(split_chars(to_parse@, ',')[i as int]));
                return Err(
                    PatchError::ReplacementParse("replacement does not have value".to_owned()),
                );
            }
            let key = pieces[0].clone();
            let value = pieces[1].clone();
            proof {
                assert(key@ == split_chars(pairs@[i as int]@, '=')[0]);
                assert(value@ == split_chars(pairs@[i as int]@, '=')[1]);
            }
            let ghost before = replacements@;
            replacements.push(Replacement::new(key, value));
            proof {
                assert(reps_view(replacements@) =~= reps_view(before).push(
                    pair_replacement(split_chars(to_parse@, ',')[i as int]),
                ));
            }
            i += 1;
        }
        Ok(Replacements { replacements })
    }

    /// Applies every replacement to `input`, in order.
    pub fn replace(&self, input: &str) -> (r: String)
        requires
            forall|i: int|
                0 <= i < self.replacements@.len()
                    ==> (#[trigger] self.replacements@[i]).key@.len() > 0,
        ensures
            r@ == apply_replacements(input@, reps_view(self.replacements@)),
    {
        let mut replaced = input.to_owned();
        let mut i: usize = 0;
        proof {
            assert(reps_view(self.replacements@).skip(0) =~= reps_view(self.replacements@));
        }
        while i < self.replacements.len()
            invariant
                0 <= i <= self.replacements@.len(),
                forall|k: int|
                    0 <= k < self.replacements@.len()
                        ==> (#[trigger] self.replacements@[k]).key@.len() > 0,
                apply_replacements(input@, reps_view(self.replacements@)) == apply_replacements(
                    replaced@,
                    reps_view(self.replacements@).skip(i as int),
                ),
            decreases self.replacements@.len() - i,
        {
            proof {
                assert(reps_view(self.replacements@).skip(i as int)[0] == (
                    self.replacements@[i as int].key@,
                    self.replacements@[i as int].value@,
                ));
                assert(reps_view(self.replacements@).skip(i as int).drop_first()
                    =~= reps_view(self.replacements@).skip(i as int + 1));
            }
            let entry = &self.replacements[i];
            let next = str_replace(replaced.as_str(), entry.key.as_str(), entry.value.as_str());
            replaced = next;
            i += 1;
        }
        proof {
            assert(reps_view(self.replacements@).skip(self.replacements@.len() as int)
                =~= Seq::<(Seq<char>, Seq<char>)>::empty());
        }
        replaced
    }
}

/// Folds the replacements over the text, left to right.
pub open spec fn apply_replacements(s: Seq<char>, reps: Seq<(Seq<char>, Seq<char>)>) -> Seq<char>
    decreases reps.len(),
{
    if reps.len() == 0 {
        s
    } else {
        apply_replacements(replace_all(s, reps[0].0, reps[0].1), reps.drop_first())
    }
}

} // verus!
