//! The fixed identification headers every request carries, held as plain
//! name/value pairs with unique names.

use vstd::prelude::*;
use crate::strutil::str_eq;

verus! {

/// The view of a header collection: name/value character sequences in order.
pub type HeaderPairsV = Seq<(Seq<char>, Seq<char>)>;

/// Header names are pairwise distinct.
pub open spec fn pairs_wf(pairs: HeaderPairsV) -> bool {
    forall|i: int, j: int| 0 <= i < j < pairs.len() ==> pairs[i].0 != pairs[j].0
}

/// Inserting keeps names pairwise distinct.
pub proof fn lemma_spec_insert_wf(pairs: HeaderPairsV, n: Seq<char>, v: Seq<char>)
    requires
        pairs_wf(pairs),
    ensures
        pairs_wf(spec_insert(pairs, n, v)),
{
    if exists|j: int| 0 <= j < pairs.len() && pairs[j].0 == n {
        let j = choose|j: int| 0 <= j < pairs.len() && pairs[j].0 == n;
        assert forall|k: int| 0 <= k < j implies pairs[k].0 != n by {
            assert(pairs[k].0 != pairs[j].0);
        }
        lemma_spec_insert_found(pairs, n, v, j);
        let r = pairs.update(j, (n, v));
        assert forall|a: int, b: int| 0 <= a < b < r.len() implies r[a].0 != r[b].0 by {
            if a != j && b != j {
                assert(r[a].0 == pairs[a].0 && r[b].0 == pairs[b].0);
            } else if a == j {
                assert(r[b].0 == pairs[b].0 && pairs[b].0 != pairs[j].0);
            } else {
                assert(r[a].0 == pairs[a].0 && pairs[a].0 != pairs[j].0);
            }
        }
    } else {
        lemma_spec_insert_missing(pairs, n, v);
        let r = pairs.push((n, v));
        assert forall|a: int, b: int| 0 <= a < b < r.len() implies r[a].0 != r[b].0 by {
            if b < pairs.len() {
                assert(r[a].0 == pairs[a].0 && r[b].0 == pairs[b].0);
            } else {
                assert(r[a].0 == pairs[a].0 && r[b].0 == n);
            }
        }
    }
}

/// The first value filed under `n`, if any.
pub open spec fn lookup(pairs: HeaderPairsV, n: Seq<char>) -> Option<Seq<char>>
    decreases pairs.len(),
{
    if pairs.len() == 0 {
        None
    } else if pairs[0].0 == n {
        Some(pairs[0].1)
    } else {
        lookup(pairs.drop_first(), n)
    }
}

/// After an insert, looking the name up yields the inserted value, and every
/// other name resolves as before.
pub proof fn lemma_lookup_insert(pairs: HeaderPairsV, n: Seq<char>, v: Seq<char>)
    ensures
        lookup(spec_insert(pairs, n, v), n) == Some(v),
        forall|n2: Seq<char>|
            n2 != n ==> #[trigger] lookup(spec_insert(pairs, n, v), n2) == lookup(pairs, n2),
    decreases pairs.len(),
{
    if pairs.len() == 0 {
        assert(spec_insert(pairs, n, v) =~= seq![(n, v)]);
        assert forall|n2: Seq<char>|
            n2 != n implies #[trigger] lookup(spec_insert(pairs, n, v), n2) == lookup(
            pairs,
            n2,
        ) by {
            assert(spec_insert(pairs, n, v).drop_first() =~= pairs);
        }
    } else if pairs[0].0 == n {
        let r = spec_insert(pairs, n, v);
        assert(r == seq![(n, v)] + pairs.drop_first());
        assert(r[0] == (n, v));
        assert forall|n2: Seq<char>|
            n2 != n implies #[trigger] lookup(r, n2) == lookup(pairs, n2) by {
            assert(r.drop_first() =~= pairs.drop_first());
        }
    } else {
        lemma_lookup_insert(pairs.drop_first(), n, v);
        let r = spec_insert(pairs, n, v);
        assert(r == seq![pairs[0]] + spec_insert(pairs.drop_first(), n, v));
        assert(r[0] == pairs[0]);
        assert(r.drop_first() =~= spec_insert(pairs.drop_first(), n, v));
        assert forall|n2: Seq<char>|
            n2 != n implies #[trigger] lookup(r, n2) == lookup(pairs, n2) by {
            if pairs[0].0 != n2 {
                assert(lookup(r, n2) == lookup(spec_insert(pairs.drop_first(), n, v), n2));
                assert(lookup(spec_insert(pairs.drop_first(), n, v), n2) == lookup(
                    pairs.drop_first(),
                    n2,
                ));
            }
        }
    }
}

/// Where a name first occurs at `j`, lookup returns that pair's value.
pub proof fn lemma_lookup_at(pairs: HeaderPairsV, n: Seq<char>, j: int)
    requires
        0 <= j < pairs.len(),
        pairs[j].0 == n,
        forall|k: int| 0 <= k < j ==> pairs[k].0 != n,
    ensures
        lookup(pairs, n) == Some(pairs[j].1),
    decreases pairs.len(),
{
    if j > 0 {
        assert forall|k: int| 0 <= k < j - 1 implies pairs.drop_first()[k].0 != n by {
            assert(pairs[k + 1].0 != n);
        }
        lemma_lookup_at(pairs.drop_first(), n, j - 1);
    }
}

/// Where a name occurs nowhere, lookup fails.
pub proof fn lemma_lookup_missing(pairs: HeaderPairsV, n: Seq<char>)
    requires
        forall|k: int| 0 <= k < pairs.len() ==> pairs[k].0 != n,
    ensures
        lookup(pairs, n) is None,
    decreases pairs.len(),
{
    if pairs.len() > 0 {
        assert forall|k: int| 0 <= k < pairs.drop_first().len() implies pairs.drop_first()[k].0
            != n by {
            assert(pairs[k + 1].0 != n);
        }
        lemma_lookup_missing(pairs.drop_first(), n);
    }
}

/// Replaces the value of `n` if present, else appends the pair.
pub open spec fn spec_insert(pairs: HeaderPairsV, n: Seq<char>, v: Seq<char>) -> HeaderPairsV
    decreases pairs.len(),
{
    if pairs.len() == 0 {
        seq![(n, v)]
    } else if pairs[0].0 == n {
        seq![(n, v)] + pairs.drop_first()
    } else {
        seq![pairs[0]] + spec_insert(pairs.drop_first(), n, v)
    }
}

/// A collection of headers the service expects, with unique names.
#[derive(Debug)]
pub struct Headers {
    pub pairs: Vec<(String, String)>,
}

impl View for Headers {
    type V = HeaderPairsV;

    open spec fn view(&self) -> HeaderPairsV {
        self.pairs@.map_values(|p: (String, String)| (p.0@, p.1@))
    }
}

impl Headers {
    /// Header names are unique.
    pub open spec fn wf(&self) -> bool {
        pairs_wf(self@)
    }

    /// The value filed under `n`, if any.
    pub open spec fn spec_get(&self, n: Seq<char>) -> Option<Seq<char>> {
        lookup(self@, n)
    }

    /// The five fixed identification headers attached to every request.
    pub fn new() -> (r: Self)
        ensures
            r@ =~= seq![
                ("user-agent"@, "Mozilla/5.0 (Android; U; en-US) AppleWebKit/533.19.4 (KHTML, like Gecko) AdobeAIR/33.1"@),
                ("content-type"@, "application/x-www-form-urlencoded"@),
                ("device_name"@, "stella"@),
                ("app_ver"@, "1.8.1"@),
                ("x-flash-version"@, "33,1,1,620"@),
            ],
            r.wf(),
    {
        let mut pairs: Vec<(String, String)> = Vec::new();
        pairs.push(
            (
                "user-agent".to_owned(),
                "Mozilla/5.0 (Android; U; en-US) AppleWebKit/533.19.4 (KHTML, like Gecko) AdobeAIR/33.1".to_owned(),
            ),
        );
        pairs.push(("content-type".to_owned(), "application/x-www-form-urlencoded".to_owned()));
        pairs.push(("device_name".to_owned(), "stella".to_owned()));
        pairs.push(("app_ver".to_owned(), "1.8.1".to_owned()));
        pairs.push(("x-flash-version".to_owned(), "33,1,1,620".to_owned()));
        let r = Headers { pairs };
        proof {
            reveal_strlit("user-agent");
            reveal_strlit("content-type");
            reveal_strlit("device_name");
            reveal_strlit("app_ver");
            reveal_strlit("x-flash-version");
            assert(r@ =~= seq![
                ("user-agent"@, "Mozilla/5.0 (Android; U; en-US) AppleWebKit/533.19.4 (KHTML, like Gecko) AdobeAIR/33.1"@),
                ("content-type"@, "application/x-www-form-urlencoded"@),
                ("device_name"@, "stella"@),
                ("app_ver"@, "1.8.1"@),
                ("x-flash-version"@, "33,1,1,620"@),
            ]);
            assert(r.wf()) by {
                assert("user-agent"@.len() == 10);
                assert("content-type"@.len() == 12);
                assert("device_name"@.len() == 11);
                assert("app_ver"@.len() == 7);
                assert("x-flash-version"@.len() == 15);
            }
        }
        r
    }

    /// Inserts a header, replacing any existing value under the same name.
    pub fn insert_str(&mut self, name: &str, value: &str)
        ensures
            final(self)@ == spec_insert(old(self)@, name@, value@),
            old(self).wf() ==> final(self).wf(),
    {
        let ghost old_view = self@;
        let mut j: usize = 0;
        while j < self.pairs.len()
            invariant
                0 <= j <= self.pairs@.len(),
                self@ == old_view,
                self.pairs == old(self).pairs,
                forall|k: int| 0 <= k < j ==> self@[k].0 != name@,
            decreases self.pairs@.len() - j,
        {
            if str_eq(self.pairs[j].0.as_str(), name) {
                assert(self@[j as int].0 == name@);
                let entry = self.pairs.remove(j);
                self.pairs.insert(j, (entry.0, value.to_owned()));
                proof {
                    assert(self@ =~= old_view.update(j as int, (name@, value@)));
                    lemma_spec_insert_found(old_view, name@, value@, j as int);
                    if old(self).wf() {
                        assert(final(self).wf());
                    }
                }
                return;
            }
            j += 1;
        }
        self.pairs.push((name.to_owned(), value.to_owned()));
        proof {
            assert(self@ =~= old_view.push((name@, value@)));
            lemma_spec_insert_missing(old_view, name@, value@);
            if old(self).wf() {
                assert(final(self).wf());
            }
        }
    }

    /// The value filed under `name`, if any.
    pub fn get(&self, name: &str) -> (r: Option<&String>)
        ensures
            match r {
                Some(v) => self.spec_get(name@) == Some(v@),
                None => self.spec_get(name@) is None,
            },
    {
        let mut j: usize = 0;
        while j < self.pairs.len()
            invariant
                0 <= j <= self.pairs@.len(),
                forall|k: int| 0 <= k < j ==> self@[k].0 != name@,
            decreases self.pairs@.len() - j,
        {
            if str_eq(self.pairs[j].0.as_str(), name) {
                assert(self@[j as int].0 == name@);
                proof {
                    lemma_lookup_at(self@, name@, j as int);
                }
                return Some(&self.pairs[j].1);
            }
            j += 1;
        }
        proof {
            lemma_lookup_missing(self@, name@);
        }
        None
    }

    /// A copy of the pairs, for assembling an outgoing request.
    pub fn get_cloned_inner(&self) -> (r: Vec<(String, String)>)
        ensures
            r@.map_values(|p: (String, String)| (p.0@, p.1@)) == self@,
    {
        let mut out: Vec<(String, String)> = Vec::new();
        let mut j: usize = 0;
        proof {
            assert(out@.map_values(|p: (String, String)| (p.0@, p.1@)) =~= self@.take(0));
        }
        while j < self.pairs.len()
            invariant
                0 <= j <= self.pairs@.len(),
                out@.map_values(|p: (String, String)| (p.0@, p.1@)) == self@.take(j as int),
            decreases self.pairs@.len() - j,
        {
            let ghost old_out = out@;
            out.push((self.pairs[j].0.clone(), self.pairs[j].1.clone()));
            proof {
                assert(out@.map_values(|p: (String, String)| (p.0@, p.1@)) =~= old_out.map_values(
                    |p: (String, String)| (p.0@, p.1@),
                ).push(self@[j as int]));
                assert(self@.take(j + 1) =~= self@.take(j as int).push(self@[j as int]));
            }
            j += 1;
        }
        proof {
            assert(self@.take(self.pairs@.len() as int) =~= self@);
        }
        out
    }
}

/// When `n` is filed at position `j` (and not earlier), inserting updates
/// exactly that pair.
pub proof fn lemma_spec_insert_found(pairs: HeaderPairsV, n: Seq<char>, v: Seq<char>, j: int)
    requires
        0 <= j < pairs.len(),
        pairs[j].0 == n,
        forall|k: int| 0 <= k < j ==> pairs[k].0 != n,
    ensures
        spec_insert(pairs, n, v) =~= pairs.update(j, (n, v)),
    decreases pairs.len(),
{
    if j == 0 {
        assert(seq![(n, v)] + pairs.drop_first() =~= pairs.update(0, (n, v)));
    } else {
        assert forall|k: int| 0 <= k < j - 1 implies pairs.drop_first()[k].0 != n by {
            assert(pairs[k + 1].0 != n);
        }
        lemma_spec_insert_found(pairs.drop_first(), n, v, j - 1);
        assert(seq![pairs[0]] + pairs.drop_first().update(j - 1, (n, v)) =~= pairs.update(
            j,
            (n, v),
        ));
    }
}

/// When `n` is not filed yet, inserting appends the pair.
pub proof fn lemma_spec_insert_missing(pairs: HeaderPairsV, n: Seq<char>, v: Seq<char>)
    requires
        forall|k: int| 0 <= k < pairs.len() ==> pairs[k].0 != n,
    ensures
        spec_insert(pairs, n, v) =~= pairs.push((n, v)),
    decreases pairs.len(),
{
    if pairs.len() > 0 {
        assert forall|k: int| 0 <= k < pairs.drop_first().len() implies pairs.drop_first()[k].0
            != n by {
            assert(pairs[k + 1].0 != n);
        }
        lemma_spec_insert_missing(pairs.drop_first(), n, v);
        assert(seq![pairs[0]] + pairs.drop_first().push((n, v)) =~= pairs.push((n, v)));
    }
}

} // verus!
