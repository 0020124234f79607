use vstd::prelude::*;

use crate::errors::ReconcileError;

verus! {

/// The views of a sequence of (digest, path) pairs.
pub open spec fn pair_views(s: Seq<(String, String)>) -> Seq<(Seq<char>, Seq<char>)> {
    s.map_values(|p: (String, String)| (p.0@, p.1@))
}

/// The digest-to-path mapping a sequence of pairs denotes; a later pair for
/// the same digest wins.
pub open spec fn pairs_to_map(s: Seq<(Seq<char>, Seq<char>)>) -> Map<Seq<char>, Seq<char>>
    decreases s.len(),
{
    if s.len() == 0 {
        Map::empty()
    } else {
        pairs_to_map(s.drop_last()).insert(s.last().0, s.last().1)
    }
}

/// No digest occurs twice among the pairs.
pub open spec fn digests_unique(s: Seq<(Seq<char>, Seq<char>)>) -> bool {
    forall|i: int, j: int| 0 <= i < j < s.len() ==> s[i].0 != s[j].0
}

pub proof fn lemma_pairs_to_map_membership(s: Seq<(Seq<char>, Seq<char>)>, k: Seq<char>)
    ensures
        pairs_to_map(s).contains_key(k) <==> exists|i: int| 0 <= i < s.len() && s[i].0 == k,
    decreases s.len(),
{
    if s.len() > 0 {
        lemma_pairs_to_map_membership(s.drop_last(), k);
        if pairs_to_map(s).contains_key(k) {
            if s.last().0 != k {
                let i = choose|i: int| 0 <= i < s.drop_last().len() && s.drop_last()[i].0 == k;
                assert(s[i].0 == k);
            }
        } else {
            assert(forall|i: int| 0 <= i < s.len() - 1 ==> s.drop_last()[i] == s[i]);
        }
    }
}

pub proof fn lemma_pairs_to_map_value(s: Seq<(Seq<char>, Seq<char>)>, i: int)
    requires
        digests_unique(s),
        0 <= i < s.len(),
    ensures
        pairs_to_map(s).contains_key(s[i].0),
        pairs_to_map(s)[s[i].0] == s[i].1,
    decreases s.len(),
{
    if s.len() > 0 {
        assert(forall|j: int| 0 <= j < s.len() - 1 ==> s.drop_last()[j] == s[j]);
        if i < s.len() - 1 {
            lemma_pairs_to_map_value(s.drop_last(), i);
        }
    }
}

pub proof fn lemma_pairs_to_map_dom_len(s: Seq<(Seq<char>, Seq<char>)>)
    requires
        digests_unique(s),
    ensures
        pairs_to_map(s).dom().finite(),
        pairs_to_map(s).dom().len() == s.len(),
    decreases s.len(),
{
    if s.len() > 0 {
        assert(forall|j: int| 0 <= j < s.len() - 1 ==> s.drop_last()[j] == s[j]);
        lemma_pairs_to_map_dom_len(s.drop_last());
        lemma_pairs_to_map_membership(s.drop_last(), s.last().0);
    }
}

/// The persisted digest-to-path index of one directory: each distinct
/// content digest maps to the single canonical file that carries it.
pub struct HashIndex {
    entries: Vec<(String, String)>,
}

impl View for HashIndex {
    type V = Map<Seq<char>, Seq<char>>;

    closed spec fn view(&self) -> Map<Seq<char>, Seq<char>> {
        pairs_to_map(pair_views(self.entries@))
    }
}

impl HashIndex {
    /// Each digest has exactly one entry.
    pub closed spec fn wf(&self) -> bool {
        digests_unique(pair_views(self.entries@))
    }

    /// An empty index: what a run starts from when no index was persisted.
    pub fn new() -> (r: HashIndex)
        ensures
            r.wf(),
            r@ == Map::<Seq<char>, Seq<char>>::empty(),
    {
        HashIndex { entries: Vec::new() }
    }

    /// Builds the index from persisted (digest, path) pairs. A digest that
    /// occurs twice means the persisted content is malformed and is a fatal
    /// error, exactly then.
    pub fn from_pairs(pairs: Vec<(String, String)>) -> (r: Result<HashIndex, ReconcileError>)
        ensures
            (match r {
                Ok(ix) => ix.wf() && digests_unique(pair_views(pairs@)) && ix@ == pairs_to_map(
                    pair_views(pairs@),
                ),
                Err(e) => e == ReconcileError::DuplicateDigest && !digests_unique(
                    pair_views(pairs@),
                ),
            }),
    {
        let n = pairs.len();
        let mut i: usize = 0;
        while i < n
            invariant
                n == pairs@.len(),
                i <= n,
                forall|a: int, b: int| 0 <= a < b < i ==> pair_views(pairs@)[a].0 != pair_views(
                    pairs@,
                )[b].0,
            decreases n - i,
        {
            let mut j: usize = 0;
            while j < i
                invariant
                    i < n == pairs@.len(),
                    j <= i,
                    forall|a: int, b: int| 0 <= a < b < i ==> pair_views(pairs@)[a].0
                        != pair_views(pairs@)[b].0,
                    forall|a: int| 0 <= a < j ==> pair_views(pairs@)[a].0 != pair_views(
                        pairs@,
                    )[i as int].0,
                decreases i - j,
            {
                if pairs[j].0 == pairs[i].0 {
                    proof {
                        assert(pair_views(pairs@)[j as int].0 == pair_views(pairs@)[i as int].0);
                        assert(!digests_unique(pair_views(pairs@)));
                    }
                    return Err(ReconcileError::DuplicateDigest);
                }
                j = j + 1;
            }
            i = i + 1;
        }
        Ok(HashIndex { entries: pairs })
    }

    /// The path currently recorded for a digest, if any.
    pub fn get(&self, digest: &String) -> (r: Option<&String>)
        requires
            self.wf(),
        ensures
            (match r {
                Some(p) => self@.contains_key(digest@) && self@[digest@] == p@,
                None => !self@.contains_key(digest@),
            }),
    {
        let n = self.entries.len();
        let mut i: usize = 0;
        while i < n
            invariant
                self.wf(),
                n == self.entries@.len(),
                i <= n,
                forall|a: int| 0 <= a < i ==> pair_views(self.entries@)[a].0 != digest@,
            decreases n - i,
        {
            if self.entries[i].0 == *digest {
                proof {
                    lemma_pairs_to_map_value(pair_views(self.entries@), i as int);
                }
                return Some(&self.entries[i].1);
            }
            i = i + 1;
        }
        proof {
            lemma_pairs_to_map_membership(pair_views(self.entries@), digest@);
        }
        None
    }

    /// Records `path` as the canonical file for `digest`, replacing any
    /// previous entry for that digest.
    pub fn set(&mut self, digest: String, path: String)
        requires
            old(self).wf(),
        ensures
            final(self).wf(),
            final(self)@ == old(self)@.insert(digest@, path@),
    {
        let n = self.entries.len();
        let mut i: usize = 0;
        while i < n
            invariant
                self == old(self),
                self.wf(),
                n == self.entries@.len(),
                i <= n,
                forall|a: int| 0 <= a < i ==> pair_views(self.entries@)[a].0 != digest@,
            decreases n - i,
        {
            if self.entries[i].0 == digest {
                let _removed = self.entries.remove(i);
                self.entries.push((digest, path));
                proof {
                    let olds = pair_views(old(self).entries@);
                    let news = pair_views(self.entries@);
                    assert(news =~= olds.remove(i as int).push((olds[i as int].0, news.last().1)));
                    lemma_set_entry(olds, i as int, news.last().1);
                }
                return ;
            }
            i = i + 1;
        }
        self.entries.push((digest, path));
        proof {
            let olds = pair_views(old(self).entries@);
            let news = pair_views(self.entries@);
            assert(news.drop_last() =~= olds);
            assert(news.last() == (digest@, path@));
            assert forall|a: int, b: int| 0 <= a < b < news.len() implies news[a].0
                != news[b].0 by {
                assert(news[a] == olds[a]);
                if b < news.len() - 1 {
                    assert(news[b] == olds[b]);
                }
            }
        }
    }

    /// How many digests the index holds.
    pub fn len(&self) -> (n: usize)
        requires
            self.wf(),
        ensures
            n == self@.dom().len(),
    {
        proof {
            lemma_pairs_to_map_dom_len(pair_views(self.entries@));
        }
        self.entries.len()
    }

    /// The (digest, path) pairs of the index, for persisting it; they denote
    /// exactly the index's mapping, one pair per digest.
    pub fn pairs(&self) -> (r: &Vec<(String, String)>)
        requires
            self.wf(),
        ensures
            digests_unique(pair_views(r@)),
            pairs_to_map(pair_views(r@)) == self@,
    {
        &self.entries
    }
}

/// Replacing the pair at `i` (whose digest stays) by appending the updated
/// pair at the end leaves the denoted mapping at `insert` of the old key.
proof fn lemma_set_entry(s: Seq<(Seq<char>, Seq<char>)>, i: int, v: Seq<char>)
    requires
        digests_unique(s),
        0 <= i < s.len(),
    ensures
        digests_unique(s.remove(i).push((s[i].0, v))),
        pairs_to_map(s.remove(i).push((s[i].0, v))) == pairs_to_map(s).insert(s[i].0, v),
{
    let t = s.remove(i).push((s[i].0, v));
    assert forall|a: int, b: int| 0 <= a < b < t.len() implies t[a].0 != t[b].0 by {
        if b < t.len() - 1 {
            let sa = if a < i { a } else { a + 1 };
            let sb = if b < i { b } else { b + 1 };
            assert(s[sa].0 == t[a].0 && s[sb].0 == t[b].0);
        } else {
            let sa = if a < i { a } else { a + 1 };
            assert(s[sa].0 == t[a].0);
        }
    }
    assert(t.drop_last() =~= s.remove(i));
    lemma_pairs_to_map_remove(s, i);
    assert(pairs_to_map(t) == pairs_to_map(s).remove(s[i].0).insert(s[i].0, v));
    assert(pairs_to_map(s).remove(s[i].0).insert(s[i].0, v) =~= pairs_to_map(s).insert(s[i].0, v));
}

/// Removing the pair at `i` removes exactly its digest from the mapping.
proof fn lemma_pairs_to_map_remove(s: Seq<(Seq<char>, Seq<char>)>, i: int)
    requires
        digests_unique(s),
        0 <= i < s.len(),
    ensures
        digests_unique(s.remove(i)),
        pairs_to_map(s.remove(i)) == pairs_to_map(s).remove(s[i].0),
    decreases s.len(),
{
    assert forall|a: int, b: int| 0 <= a < b < s.remove(i).len() implies s.remove(i)[a].0
        != s.remove(i)[b].0 by {
        let sa = if a < i { a } else { a + 1 };
        let sb = if b < i { b } else { b + 1 };
        assert(s[sa].0 == s.remove(i)[a].0 && s[sb].0 == s.remove(i)[b].0);
    }
    if i == s.len() - 1 {
        assert(s.remove(i) =~= s.drop_last());
        lemma_pairs_to_map_membership(s.drop_last(), s[i].0);
        assert(pairs_to_map(s.drop_last()) =~= pairs_to_map(s.drop_last()).remove(s[i].0));
        assert(pairs_to_map(s).remove(s[i].0) =~= pairs_to_map(s.drop_last()));
    } else {
        assert(forall|j: int| 0 <= j < s.len() - 1 ==> s.drop_last()[j] == s[j]);
        lemma_pairs_to_map_remove(s.drop_last(), i);
        assert(s.remove(i).drop_last() =~= s.drop_last().remove(i));
        assert(s.remove(i).last() == s.last());
        assert(pairs_to_map(s.remove(i)) == pairs_to_map(s.drop_last()).remove(s[i].0).insert(
            s.last().0,
            s.last().1,
        ));
        assert(pairs_to_map(s.drop_last()).remove(s[i].0).insert(s.last().0, s.last().1)
            =~= pairs_to_map(s.drop_last()).insert(s.last().0, s.last().1).remove(s[i].0));
    }
}

} // verus!
