//! Allowances by owner and spender.
use super::types::AllowanceValue;
use crate::address::Address;
use crate::ledger::{
    entry_map, keys_distinct, lemma_appended, lemma_entry_absent, lemma_entry_present,
    lemma_entry_replaced,
};
use vstd::prelude::*;

verus! {

/// The allowances that owners gave to spenders.
#[derive(Debug)]
pub struct Allowances {
    entries: Vec<((Address, Address), AllowanceValue)>,
}

impl View for Allowances {
    type V = Map<(Address, Address), AllowanceValue>;

    closed spec fn view(&self) -> Map<(Address, Address), AllowanceValue> {
        entry_map(self.entries@)
    }
}

impl Allowances {
    /// Every pair of owner and spender has at most one entry.
    pub closed spec fn wf(self) -> bool {
        keys_distinct(self.entries@)
    }

    pub fn new() -> (allowances: Allowances)
        ensures
            allowances.wf(),
            allowances@ == Map::<(Address, Address), AllowanceValue>::empty(),
    {
        Allowances { entries: Vec::new() }
    }

    fn position(&self, owner: Address, spender: Address) -> (r: Option<usize>)
        requires
            self.wf(),
        ensures
            r matches Some(i) ==> i < self.entries@.len() && self.entries@[i as int].0 == (
            owner,
            spender,
        ) && self@.contains_key((owner, spender)) && self@[(owner, spender)]
                == self.entries@[i as int].1,
            r is None ==> !self@.contains_key((owner, spender)) && forall|i: int|
                0 <= i < self.entries@.len() ==> (#[trigger] self.entries@[i]).0 != (
                owner,
                spender,
            ),
    {
        let mut i: usize = 0;
        while i < self.entries.len()
            invariant
                self.wf(),
                i <= self.entries@.len(),
                forall|j: int|
                    0 <= j < i ==> (#[trigger] self.entries@[j]).0 != (owner, spender),
            decreases self.entries@.len() - i,
        {
            let key: (Address, Address) = self.entries[i].0;
            if key.0 == owner && key.1 == spender {
                proof {
                    lemma_entry_present(self.entries@, i as int);
                }
                return Some(i);
            }
            i = i + 1;
        }
        proof {
            lemma_entry_absent(self.entries@, (owner, spender));
        }
        None
    }

    pub fn get(&self, owner: Address, spender: Address) -> (r: Option<AllowanceValue>)
        requires
            self.wf(),
        ensures
            r == (if self@.contains_key((owner, spender)) {
                Some(self@[(owner, spender)])
            } else {
                None
            }),
    {
        match self.position(owner, spender) {
            Some(i) => Some(self.entries[i].1),
            None => None,
        }
    }

    pub fn set(&mut self, owner: Address, spender: Address, value: AllowanceValue)
        requires
            old(self).wf(),
        ensures
            final(self).wf(),
            final(self)@ == old(self)@.insert((owner, spender), value),
    {
        match self.position(owner, spender) {
            Some(i) => {
                proof {
                    lemma_entry_replaced(self.entries@, i as int, value);
                }
                self.entries.set(i, ((owner, spender), value));
            },
            None => {
                proof {
                    lemma_appended(self.entries@, (owner, spender), value);
                }
                self.entries.push(((owner, spender), value));
            },
        }
    }
}

} // verus!
