//! Named values: the environment and the shell's own variables.

use vstd::prelude::*;

verus! {

/// Names with one value each.
pub struct Vars {
    entries: Vec<(String, String)>,
}

/// The values that a list of pairs gives, the later of two pairs for one name counting.
pub open spec fn pairs_map(pairs: Seq<(Seq<char>, Seq<char>)>) -> Map<Seq<char>, Seq<char>>
    decreases pairs.len(),
{
    if pairs.len() == 0 {
        Map::empty()
    } else {
        pairs_map(pairs.drop_last()).insert(pairs.last().0, pairs.last().1)
    }
}

impl View for Vars {
    type V = Map<Seq<char>, Seq<char>>;

    closed spec fn view(&self) -> Map<Seq<char>, Seq<char>> {
        pairs_map(self.entries.deep_view())
    }
}

proof fn lemma_pairs_get(pairs: Seq<(Seq<char>, Seq<char>)>, k: int)
    requires
        0 <= k < pairs.len(),
        forall|j: int| k < j < pairs.len() ==> (#[trigger] pairs[j]).0 != pairs[k].0,
    ensures
        pairs_map(pairs).dom().contains(pairs[k].0),
        pairs_map(pairs)[pairs[k].0] == pairs[k].1,
    decreases pairs.len(),
{
    if k < pairs.len() - 1 {
        lemma_pairs_get(pairs.drop_last(), k);
    }
}

proof fn lemma_pairs_none(pairs: Seq<(Seq<char>, Seq<char>)>, name: Seq<char>)
    requires
        forall|j: int| 0 <= j < pairs.len() ==> (#[trigger] pairs[j]).0 != name,
    ensures
        !pairs_map(pairs).dom().contains(name),
    decreases pairs.len(),
{
    if pairs.len() > 0 {
        lemma_pairs_none(pairs.drop_last(), name);
    }
}

impl Vars {
    /// No names.
    pub fn new() -> (r: Vars)
        ensures
            r@ == Map::<Seq<char>, Seq<char>>::empty(),
    {
        Vars { entries: Vec::new() }
    }

    /// The value of a name.
    pub fn get(&self, name: &str) -> (r: Option<String>)
        ensures
            match r {
                Some(value) => self@.dom().contains(name@) && self@[name@] == value@,
                None => !self@.dom().contains(name@),
            },
    {
        let mut i: usize = self.entries.len();
        let wanted = name.to_owned();
        while i > 0
            invariant
                i <= self.entries@.len(),
                wanted@ == name@,
                forall|j: int|
                    i <= j < self.entries@.len() ==> (#[trigger] self.entries.deep_view()[j]).0
                        != name@,
            decreases i,
        {
            i -= 1;
            if self.entries[i].0 == wanted {
                proof {
                    lemma_pairs_get(self.entries.deep_view(), i as int);
                }
                return Some(self.entries[i].1.clone());
            }
        }
        proof {
            lemma_pairs_none(self.entries.deep_view(), name@);
        }
        None
    }

    /// Takes a name away, and gives the value it had.
    pub fn remove(&mut self, name: &str) -> (r: Option<String>)
        ensures
            final(self)@ == old(self)@.remove(name@),
            match r {
                Some(value) => old(self)@.dom().contains(name@) && old(self)@[name@] == value@,
                None => !old(self)@.dom().contains(name@),
            },
    {
        let before = self.get(name);
        let mut kept: Vec<(String, String)> = Vec::new();
        let wanted = name.to_owned();
        let mut i: usize = 0;
        assert(pairs_map(kept.deep_view()) =~= pairs_map(self.entries.deep_view().take(0)).remove(
            name@,
        ));
        while i < self.entries.len()
            invariant
                i <= self.entries@.len(),
                wanted@ == name@,
                *self == *old(self),
                pairs_map(kept.deep_view()) == pairs_map(
                    self.entries.deep_view().take(i as int),
                ).remove(name@),
            decreases self.entries.len() - i,
        {
            proof {
                let t = self.entries.deep_view().take(i + 1);
                assert(t.drop_last() =~= self.entries.deep_view().take(i as int));
            }
            if !(self.entries[i].0 == wanted) {
                let ghost shown = kept.deep_view();
                kept.push((self.entries[i].0.clone(), self.entries[i].1.clone()));
                assert(kept.deep_view().drop_last() =~= shown);
                assert(pairs_map(kept.deep_view()) =~= pairs_map(
                    self.entries.deep_view().take(i + 1),
                ).remove(name@));
            } else {
                assert(pairs_map(kept.deep_view()) =~= pairs_map(
                    self.entries.deep_view().take(i + 1),
                ).remove(name@));
            }
            i += 1;
        }
        assert(self.entries.deep_view().take(i as int) =~= self.entries.deep_view());
        self.entries = kept;
        before
    }

    /// Gives a name a value.
    pub fn insert(&mut self, name: &str, value: &str)
        ensures
            final(self)@ == old(self)@.insert(name@, value@),
    {
        self.remove(name);
        let ghost shown = self.entries.deep_view();
        self.entries.push((name.to_owned(), value.to_owned()));
        assert(self.entries.deep_view().drop_last() =~= shown);
        assert(self@ =~= old(self)@.insert(name@, value@));
    }

    /// A second copy.
    pub fn copy(&self) -> (r: Vars)
        ensures
            r@ == self@,
    {
        let mut out: Vec<(String, String)> = Vec::new();
        let mut i: usize = 0;
        while i < self.entries.len()
            invariant
                i <= self.entries@.len(),
                out.deep_view() == self.entries.deep_view().take(i as int),
            decreases self.entries.len() - i,
        {
            let ghost shown = out.deep_view();
            out.push((self.entries[i].0.clone(), self.entries[i].1.clone()));
            assert(out.deep_view() =~= shown.push(self.entries.deep_view()[i as int]));
            assert(out.deep_view() =~= self.entries.deep_view().take(i + 1));
            i += 1;
        }
        assert(self.entries.deep_view().take(i as int) =~= self.entries.deep_view());
        Vars { entries: out }
    }

    /// The pairs, in no order that counts.
    pub fn pairs(&self) -> (r: &Vec<(String, String)>)
        ensures
            pairs_map(r.deep_view()) == self@,
    {
        &self.entries
    }
}

} // verus!
