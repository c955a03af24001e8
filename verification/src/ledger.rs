//! Amounts by holder.
use crate::address::Address;
use vstd::prelude::*;

verus! {

/// The mapping that a list of entries stands for.
pub open spec fn entry_map<K, V>(entries: Seq<(K, V)>) -> Map<K, V>
    decreases entries.len(),
{
    if entries.len() == 0 {
        Map::empty()
    } else {
        entry_map(entries.drop_last()).insert(entries.last().0, entries.last().1)
    }
}

/// The sum of all amounts in a list of entries.
pub open spec fn entry_total<K>(entries: Seq<(K, i128)>) -> int
    decreases entries.len(),
{
    if entries.len() == 0 {
        0
    } else {
        entry_total(entries.drop_last()) + entries.last().1
    }
}

/// No key has two entries.
pub open spec fn keys_distinct<K, V>(entries: Seq<(K, V)>) -> bool {
    forall|i: int, j: int|
        0 <= i < j < entries.len() ==> (#[trigger] entries[i]).0 != (#[trigger] entries[j]).0
}

pub proof fn lemma_entry_absent<K, V>(entries: Seq<(K, V)>, key: K)
    requires
        forall|i: int| 0 <= i < entries.len() ==> (#[trigger] entries[i]).0 != key,
    ensures
        !entry_map(entries).contains_key(key),
    decreases entries.len(),
{
    if entries.len() > 0 {
        let shorter = entries.drop_last();
        assert forall|i: int| 0 <= i < shorter.len() implies (#[trigger] shorter[i]).0 != key by {
            assert(shorter[i] == entries[i]);
        }
        lemma_entry_absent(shorter, key);
        assert(entries.last() == entries[entries.len() - 1]);
    }
}

pub proof fn lemma_entry_present<K, V>(entries: Seq<(K, V)>, index: int)
    requires
        keys_distinct(entries),
        0 <= index < entries.len(),
    ensures
        entry_map(entries).contains_key(entries[index].0),
        entry_map(entries)[entries[index].0] == entries[index].1,
    decreases entries.len(),
{
    let last = entries.len() - 1;
    if index < last {
        let shorter = entries.drop_last();
        assert(keys_distinct(shorter)) by {
            assert forall|i: int, j: int| 0 <= i < j < shorter.len() implies (
            #[trigger] shorter[i]).0 != (#[trigger] shorter[j]).0 by {
                assert(shorter[i] == entries[i] && shorter[j] == entries[j]);
            }
        }
        lemma_entry_present(shorter, index);
        assert(shorter[index] == entries[index]);
        assert(entries[index].0 != entries[last].0);
    }
}

pub proof fn lemma_entry_replaced<K, V>(entries: Seq<(K, V)>, index: int, value: V)
    requires
        keys_distinct(entries),
        0 <= index < entries.len(),
    ensures
        entry_map(entries.update(index, (entries[index].0, value))) == entry_map(entries).insert(
            entries[index].0,
            value,
        ),
        keys_distinct(entries.update(index, (entries[index].0, value))),
    decreases entries.len(),
{
    let key = entries[index].0;
    let changed = entries.update(index, (key, value));
    assert forall|i: int, j: int| 0 <= i < j < changed.len() implies (#[trigger] changed[i]).0 != (
    #[trigger] changed[j]).0 by {
        assert(changed[i].0 == entries[i].0 && changed[j].0 == entries[j].0);
    }
    let shorter = entries.drop_last();
    let last = entries.len() - 1;
    if index == last {
        assert(changed.drop_last() =~= shorter);
        assert(entry_map(changed) =~= entry_map(entries).insert(key, value));
    } else {
        assert(keys_distinct(shorter)) by {
            assert forall|i: int, j: int| 0 <= i < j < shorter.len() implies (
            #[trigger] shorter[i]).0 != (#[trigger] shorter[j]).0 by {
                assert(shorter[i] == entries[i] && shorter[j] == entries[j]);
            }
        }
        lemma_entry_replaced(shorter, index, value);
        assert(changed.drop_last() =~= shorter.update(index, (shorter[index].0, value)));
        assert(entries[index].0 != entries[last].0);
        assert(entry_map(changed) =~= entry_map(entries).insert(key, value));
    }
}

proof fn lemma_total_replaced<K>(entries: Seq<(K, i128)>, index: int, value: i128)
    requires
        0 <= index < entries.len(),
    ensures
        entry_total(entries.update(index, (entries[index].0, value))) == entry_total(entries)
            - entries[index].1 + value,
    decreases entries.len(),
{
    let changed = entries.update(index, (entries[index].0, value));
    let shorter = entries.drop_last();
    if index == entries.len() - 1 {
        assert(changed.drop_last() =~= shorter);
    } else {
        lemma_total_replaced(shorter, index, value);
        assert(changed.drop_last() =~= shorter.update(index, (shorter[index].0, value)));
    }
}

pub proof fn lemma_appended<K, V>(entries: Seq<(K, V)>, key: K, value: V)
    requires
        keys_distinct(entries),
        forall|i: int| 0 <= i < entries.len() ==> (#[trigger] entries[i]).0 != key,
    ensures
        entry_map(entries.push((key, value))) == entry_map(entries).insert(key, value),
        keys_distinct(entries.push((key, value))),
{
    let longer = entries.push((key, value));
    assert(longer.drop_last() =~= entries);
    assert forall|i: int, j: int| 0 <= i < j < longer.len() implies (#[trigger] longer[i]).0 != (
    #[trigger] longer[j]).0 by {
        assert(longer[i] == entries[i]);
        if j < entries.len() {
            assert(longer[j] == entries[j]);
        }
    }
}

proof fn lemma_entry_within_total<K>(entries: Seq<(K, i128)>, index: int)
    requires
        forall|i: int| 0 <= i < entries.len() ==> (#[trigger] entries[i]).1 >= 0,
        0 <= index < entries.len(),
    ensures
        entries[index].1 <= entry_total(entries),
    decreases entries.len(),
{
    let shorter = entries.drop_last();
    assert forall|i: int| 0 <= i < shorter.len() implies (#[trigger] shorter[i]).1 >= 0 by {
        assert(shorter[i] == entries[i]);
    }
    if index < entries.len() - 1 {
        lemma_entry_within_total(shorter, index);
        assert(shorter[index] == entries[index]);
        assert(entries[entries.len() - 1].1 >= 0);
    } else {
        lemma_total_nonnegative(shorter);
    }
}

proof fn lemma_total_nonnegative<K>(entries: Seq<(K, i128)>)
    requires
        forall|i: int| 0 <= i < entries.len() ==> (#[trigger] entries[i]).1 >= 0,
    ensures
        entry_total(entries) >= 0,
    decreases entries.len(),
{
    if entries.len() > 0 {
        let shorter = entries.drop_last();
        assert forall|i: int| 0 <= i < shorter.len() implies (#[trigger] shorter[i]).1 >= 0 by {
            assert(shorter[i] == entries[i]);
        }
        lemma_total_nonnegative(shorter);
        assert(entries[entries.len() - 1].1 >= 0);
    }
}

/// No part of a list of non-negative amounts sums to more than the whole.
proof fn lemma_total_of_prefix<K>(entries: Seq<(K, i128)>, len: int)
    requires
        forall|i: int| 0 <= i < entries.len() ==> (#[trigger] entries[i]).1 >= 0,
        0 <= len <= entries.len(),
    ensures
        entry_total(entries.take(len)) <= entry_total(entries),
    decreases entries.len(),
{
    if len == entries.len() {
        assert(entries.take(len) =~= entries);
    } else {
        let shorter = entries.drop_last();
        assert forall|i: int| 0 <= i < shorter.len() implies (#[trigger] shorter[i]).1 >= 0 by {
            assert(shorter[i] == entries[i]);
        }
        lemma_total_of_prefix(shorter, len);
        assert(shorter.take(len) =~= entries.take(len));
        assert(entries[entries.len() - 1].1 >= 0);
    }
}

proof fn lemma_key_has_entry<K, V>(entries: Seq<(K, V)>, key: K) -> (index: int)
    requires
        entry_map(entries).contains_key(key),
    ensures
        0 <= index < entries.len(),
        entries[index].0 == key,
    decreases entries.len(),
{
    let last = entries.len() - 1;
    if entries[last].0 == key {
        last
    } else {
        lemma_key_has_entry(entries.drop_last(), key)
    }
}

/// An amount for every holder; none is the same as zero.
#[derive(Debug)]
pub struct Ledger {
    entries: Vec<(Address, i128)>,
}

impl View for Ledger {
    type V = Map<Address, i128>;

    closed spec fn view(&self) -> Map<Address, i128> {
        entry_map(self.entries@)
    }
}

impl Ledger {
    /// Every holder has at most one entry.
    pub closed spec fn wf(self) -> bool {
        keys_distinct(self.entries@)
    }

    /// What `holder` has.
    pub open spec fn amount(self, holder: Address) -> i128 {
        if self@.contains_key(holder) {
            self@[holder]
        } else {
            0
        }
    }

    /// What all holders have together.
    pub closed spec fn total(self) -> int {
        entry_total(self.entries@)
    }

    /// Nobody's amount is negative.
    pub open spec fn nonnegative(self) -> bool {
        forall|holder: Address| #[trigger] self@.contains_key(holder) ==> self@[holder] >= 0
    }

    /// Where nobody's amount is negative, nobody has more than all together.
    pub proof fn lemma_amount_within_total(self, holder: Address)
        requires
            self.wf(),
            self.nonnegative(),
        ensures
            0 <= self.amount(holder) <= self.total(),
    {
        self.lemma_entries_nonnegative();
        lemma_total_nonnegative(self.entries@);
        if self@.contains_key(holder) {
            let index = lemma_key_has_entry(self.entries@, holder);
            lemma_entry_present(self.entries@, index);
            lemma_entry_within_total(self.entries@, index);
        }
    }

    pub proof fn lemma_total_nonnegative(self)
        requires
            self.wf(),
            self.nonnegative(),
        ensures
            self.total() >= 0,
    {
        self.lemma_entries_nonnegative();
        lemma_total_nonnegative(self.entries@);
    }

    pub fn new() -> (ledger: Ledger)
        ensures
            ledger.wf(),
            ledger@ == Map::<Address, i128>::empty(),
            ledger.total() == 0,
    {
        Ledger { entries: Vec::new() }
    }

    /// The position of `holder`'s entry.
    fn position(&self, holder: Address) -> (r: Option<usize>)
        requires
            self.wf(),
        ensures
            r matches Some(i) ==> i < self.entries@.len() && self.entries@[i as int].0 == holder
                && self@.contains_key(holder) && self@[holder] == self.entries@[i as int].1,
            r is None ==> !self@.contains_key(holder) && forall|i: int|
                0 <= i < self.entries@.len() ==> (#[trigger] self.entries@[i]).0 != holder,
    {
        let mut i: usize = 0;
        while i < self.entries.len()
            invariant
                self.wf(),
                i <= self.entries@.len(),
                forall|j: int| 0 <= j < i ==> (#[trigger] self.entries@[j]).0 != holder,
            decreases self.entries@.len() - i,
        {
            if self.entries[i].0 == holder {
                proof {
                    lemma_entry_present(self.entries@, i as int);
                }
                return Some(i);
            }
            i = i + 1;
        }
        proof {
            lemma_entry_absent(self.entries@, holder);
        }
        None
    }

    pub fn get(&self, holder: Address) -> (amount: i128)
        requires
            self.wf(),
        ensures
            amount == self.amount(holder),
    {
        match self.position(holder) {
            Some(i) => self.entries[i].1,
            None => 0,
        }
    }

    /// Whether `holder` has an entry, be it zero.
    pub fn contains(&self, holder: Address) -> (r: bool)
        requires
            self.wf(),
        ensures
            r == self@.contains_key(holder),
    {
        self.position(holder).is_some()
    }

    /// Whether nobody's amount is negative and all together do not exceed
    /// `limit`.
    pub fn sums_within(&self, limit: i128) -> (r: bool)
        requires
            self.wf(),
        ensures
            r == (self.nonnegative() && self.total() <= limit),
    {
        let mut sum: i128 = 0;
        let mut i: usize = 0;
        while i < self.entries.len()
            invariant
                self.wf(),
                i <= self.entries@.len(),
                forall|j: int| 0 <= j < i ==> (#[trigger] self.entries@[j]).1 >= 0,
                sum == entry_total(self.entries@.take(i as int)),
                0 <= sum,
            decreases self.entries@.len() - i,
        {
            let entry: (Address, i128) = self.entries[i];
            proof {
                lemma_entry_present(self.entries@, i as int);
                let longer = self.entries@.take(i + 1);
                assert(longer.drop_last() =~= self.entries@.take(i as int));
                assert(longer.last() == self.entries@[i as int]);
            }
            if entry.1 < 0 {
                assert(self@.contains_key(entry.0) && self@[entry.0] < 0);
                return false;
            }
            match sum.checked_add(entry.1) {
                None => {
                    proof {
                        if self.nonnegative() {
                            self.lemma_entries_nonnegative();
                            lemma_total_of_prefix(self.entries@, i + 1);
                        }
                    }
                    return false;
                },
                Some(next) => {
                    sum = next;
                },
            }
            i = i + 1;
        }
        proof {
            assert(self.entries@.take(i as int) =~= self.entries@);
            self.lemma_nonnegative_entries();
        }
        sum <= limit
    }

    /// Whether nobody's amount is negative.
    pub fn is_nonnegative(&self) -> (r: bool)
        requires
            self.wf(),
        ensures
            r == self.nonnegative(),
    {
        let mut i: usize = 0;
        while i < self.entries.len()
            invariant
                self.wf(),
                i <= self.entries@.len(),
                forall|j: int| 0 <= j < i ==> (#[trigger] self.entries@[j]).1 >= 0,
            decreases self.entries@.len() - i,
        {
            let entry: (Address, i128) = self.entries[i];
            if entry.1 < 0 {
                proof {
                    lemma_entry_present(self.entries@, i as int);
                    assert(self@.contains_key(entry.0) && self@[entry.0] < 0);
                }
                return false;
            }
            i = i + 1;
        }
        proof {
            self.lemma_nonnegative_entries();
        }
        true
    }

    proof fn lemma_entries_nonnegative(self)
        requires
            self.wf(),
            self.nonnegative(),
        ensures
            forall|i: int| 0 <= i < self.entries@.len() ==> (#[trigger] self.entries@[i]).1 >= 0,
    {
        assert forall|i: int| 0 <= i < self.entries@.len() implies (
        #[trigger] self.entries@[i]).1 >= 0 by {
            lemma_entry_present(self.entries@, i);
            assert(self@.contains_key(self.entries@[i].0));
        }
    }

    proof fn lemma_nonnegative_entries(self)
        requires
            self.wf(),
            forall|i: int| 0 <= i < self.entries@.len() ==> (#[trigger] self.entries@[i]).1 >= 0,
        ensures
            self.nonnegative(),
    {
        assert forall|holder: Address| #[trigger] self@.contains_key(holder) implies self@[holder]
            >= 0 by {
            let index = lemma_key_has_entry(self.entries@, holder);
            lemma_entry_present(self.entries@, index);
        }
    }

    pub fn set(&mut self, holder: Address, amount: i128)
        requires
            old(self).wf(),
        ensures
            final(self).wf(),
            final(self)@ == old(self)@.insert(holder, amount),
            final(self).total() == old(self).total() - old(self).amount(holder) + amount,
    {
        match self.position(holder) {
            Some(i) => {
                proof {
                    lemma_entry_replaced(self.entries@, i as int, amount);
                    lemma_total_replaced(self.entries@, i as int, amount);
                }
                self.entries.set(i, (holder, amount));
            },
            None => {
                proof {
                    lemma_appended(self.entries@, holder, amount);
                    assert(self.entries@.push((holder, amount)).drop_last() =~= self.entries@);
                }
                self.entries.push((holder, amount));
            },
        }
    }
}

} // verus!
