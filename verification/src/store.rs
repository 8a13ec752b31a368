//! The partial witness store: the mutable fact base mapping witness indices
//! to resolved field values.
//!
//! Once a key is set it is never overwritten with a different value:
//! re-setting an equal value is a no-op, and disagreement is a conflict.  The
//! populated key set only grows over a solving session.

use vstd::prelude::*;
use crate::field::FieldValue;

verus! {

/// Abstract contents of an association list: later entries win, though the
/// store never holds two entries for one key.
pub open spec fn entries_map(s: Seq<(u32, FieldValue)>) -> Map<nat, nat>
    decreases s.len(),
{
    if s.len() == 0 {
        Map::empty()
    } else {
        entries_map(s.drop_last()).insert(s.last().0 as nat, s.last().1@)
    }
}

/// A partial assignment of field values to witness indices.
#[derive(Clone, Debug, PartialEq, Eq)]
pub struct WitnessStore {
    entries: Vec<(u32, FieldValue)>,
}

impl View for WitnessStore {
    type V = Map<nat, nat>;

    closed spec fn view(&self) -> Map<nat, nat> {
        entries_map(self.entries@)
    }
}

impl WitnessStore {
    /// Keys are distinct and every stored value is a reduced field element.
    pub closed spec fn wf(self) -> bool {
        &&& forall|i: int, j: int|
            0 <= i < j < self.entries@.len() ==> self.entries@[i].0 != self.entries@[j].0
        &&& forall|i: int| 0 <= i < self.entries@.len() ==> (#[trigger] self.entries@[i]).1.wf()
    }

    /// An empty store.
    pub fn new() -> (r: WitnessStore)
        ensures
            r.wf(),
            r@ == Map::<nat, nat>::empty(),
    {
        WitnessStore { entries: Vec::new() }
    }

    /// Number of populated witnesses.
    pub fn len(&self) -> (r: usize)
        requires
            self.wf(),
        ensures
            r == self@.dom().len(),
    {
        proof {
            lemma_entries_map_len(self.entries@);
        }
        self.entries.len()
    }

    /// Looks a witness up.
    pub fn get(&self, witness: u32) -> (r: Option<FieldValue>)
        requires
            self.wf(),
        ensures
            match r {
                Some(v) => v.wf() && self@.contains_key(witness as nat) && self@[witness as nat]
                    == v@,
                None => !self@.contains_key(witness as nat),
            },
    {
        let n = self.entries.len();
        let mut i: usize = 0;
        while i < n
            invariant
                n == self.entries@.len(),
                i <= n,
                self.wf(),
                forall|j: int| 0 <= j < i ==> (#[trigger] self.entries@[j]).0 != witness,
            decreases n - i,
        {
            let (w, v) = self.entries[i];
            if w == witness {
                proof {
                    lemma_entries_map_at(self.entries@, i as int);
                }
                return Some(v);
            }
            i = i + 1;
        }
        proof {
            lemma_entries_map_dom(self.entries@, witness as nat);
        }
        None
    }

    /// Whether a witness is populated.
    pub fn contains(&self, witness: u32) -> (r: bool)
        requires
            self.wf(),
        ensures
            r == self@.contains_key(witness as nat),
    {
        match self.get(witness) {
            Some(_) => true,
            None => false,
        }
    }

    /// Records a value for a witness.  Returns `true` when the store after
    /// the call holds `value` for `witness`: either the key was free, or it
    /// already held this very value.  Returns `false` — and leaves the store
    /// unchanged — when the key holds a different value: a conflict.
    pub fn set(&mut self, witness: u32, value: FieldValue) -> (r: bool)
        requires
            old(self).wf(),
            value.wf(),
        ensures
            final(self).wf(),
            r == (!old(self)@.contains_key(witness as nat) || old(self)@[witness as nat]
                == value@),
            r ==> final(self)@ == old(self)@.insert(witness as nat, value@),
            !r ==> final(self)@ == old(self)@,
    {
        let n = self.entries.len();
        let mut i: usize = 0;
        while i < n
            invariant
                n == self.entries@.len(),
                i <= n,
                self.wf(),
                forall|j: int| 0 <= j < i ==> (#[trigger] self.entries@[j]).0 != witness,
            decreases n - i,
        {
            let (w, v) = self.entries[i];
            if w == witness {
                proof {
                    lemma_entries_map_at(self.entries@, i as int);
                }
                if v.eq_value(&value) {
                    proof {
                        assert(self@.insert(witness as nat, value@) =~= self@);
                    }
                    return true;
                } else {
                    return false;
                }
            }
            i = i + 1;
        }
        proof {
            lemma_entries_map_dom(self.entries@, witness as nat);
        }
        self.entries.push((witness, value));
        proof {
            assert(self.entries@.drop_last() =~= old(self).entries@);
        }
        true
    }
}

/// An entry's key is in the store's contents, bound to that entry's value.
proof fn lemma_entries_map_at(s: Seq<(u32, FieldValue)>, i: int)
    requires
        0 <= i < s.len(),
        forall|a: int, b: int| 0 <= a < b < s.len() ==> s[a].0 != s[b].0,
    ensures
        entries_map(s).contains_key(s[i].0 as nat),
        entries_map(s)[s[i].0 as nat] == s[i].1@,
    decreases s.len(),
{
    if i == s.len() - 1 {
    } else {
        lemma_entries_map_at(s.drop_last(), i);
    }
}

/// A key that no entry carries is absent from the store's contents.
proof fn lemma_entries_map_dom(s: Seq<(u32, FieldValue)>, k: nat)
    requires
        forall|j: int| 0 <= j < s.len() ==> (#[trigger] s[j]).0 as nat != k,
    ensures
        !entries_map(s).contains_key(k),
    decreases s.len(),
{
    if s.len() > 0 {
        lemma_entries_map_dom(s.drop_last(), k);
    }
}

/// With distinct keys, the contents hold exactly one binding per entry.
proof fn lemma_entries_map_len(s: Seq<(u32, FieldValue)>)
    requires
        forall|a: int, b: int| 0 <= a < b < s.len() ==> s[a].0 != s[b].0,
    ensures
        entries_map(s).dom().len() == s.len(),
        entries_map(s).dom().finite(),
    decreases s.len(),
{
    if s.len() > 0 {
        lemma_entries_map_len(s.drop_last());
        lemma_entries_map_dom(s.drop_last(), s.last().0 as nat);
    }
}

} // verus!
