//! Counting the accesses of each remote address, and telling the addresses
//! that are shown from those that stay hidden.

use crate::access::{addresses_of, RemoteAccess};
use crate::keyed::KeyedList;
use crate::sequences::lemma_filter_next;
use vstd::prelude::*;

verus! {

/// An address is shown where its count is above this.
pub const VISIBILITY_THRESHOLD: u32 = 100;

/// Whether an address with `count` accesses is shown.
pub open spec fn is_visible(count: nat) -> bool {
    count > VISIBILITY_THRESHOLD
}

/// How often each address occurs in `events`. An address that does not occur
/// has no entry.
pub open spec fn tally(events: Seq<Seq<char>>) -> Map<Seq<char>, nat> {
    Map::new(
        |address: Seq<char>| events.to_multiset().count(address) > 0,
        |address: Seq<char>| events.to_multiset().count(address),
    )
}

/// The distinct addresses of `events`, each at the place of its first
/// occurrence.
pub open spec fn first_seen(events: Seq<Seq<char>>) -> Seq<Seq<char>>
    decreases events.len(),
{
    if events.len() == 0 {
        Seq::empty()
    } else {
        let earlier = first_seen(events.drop_last());
        if earlier.contains(events.last()) {
            earlier
        } else {
            earlier.push(events.last())
        }
    }
}

/// The count of `address` in `counts`: zero where it has no entry.
pub open spec fn count_in(counts: Map<Seq<char>, nat>, address: Seq<char>) -> nat {
    if counts.contains_key(address) {
        counts[address]
    } else {
        0
    }
}

/// `counts` after one more access from `address`.
pub open spec fn bump(counts: Map<Seq<char>, nat>, address: Seq<char>) -> Map<Seq<char>, nat> {
    counts.insert(address, count_in(counts, address) + 1)
}

/// One more access raises the tally of its address by one and leaves the
/// other tallies as they are; without accesses nothing is tallied.
pub proof fn lemma_tally_push(events: Seq<Seq<char>>, address: Seq<char>)
    ensures
        tally(Seq::<Seq<char>>::empty()) == Map::<Seq<char>, nat>::empty(),
        tally(events.push(address)) == bump(tally(events), address),
{
    let none = Seq::<Seq<char>>::empty();
    assert forall|a: Seq<char>| none.to_multiset().count(a) == 0 by {
        vstd::seq_lib::to_multiset_contains(none, a);
    }
    assert(tally(none) =~= Map::<Seq<char>, nat>::empty());
    vstd::seq_lib::to_multiset_build(events, address);
    assert(tally(events.push(address)) =~= bump(tally(events), address));
}

/// After `n` accesses from one address and none from another, the address has
/// the count `n`, and no other address has an entry; after no access at all
/// there is no entry.
pub proof fn lemma_tally_repeated(address: Seq<char>, n: nat)
    ensures
        n == 0 ==> tally(Seq::new(n, |i: int| address)) == Map::<Seq<char>, nat>::empty(),
        n > 0 ==> tally(Seq::new(n, |i: int| address)) == Map::<Seq<char>, nat>::empty().insert(
            address,
            n,
        ),
    decreases n,
{
    let events = Seq::new(n, |i: int| address);
    if n == 0 {
        assert(events =~= Seq::<Seq<char>>::empty());
        lemma_tally_push(events, address);
    } else {
        let fewer = Seq::new((n - 1) as nat, |i: int| address);
        lemma_tally_repeated(address, (n - 1) as nat);
        lemma_tally_push(fewer, address);
        assert(events =~= fewer.push(address));
        assert(bump(tally(fewer), address) =~= Map::<Seq<char>, nat>::empty().insert(address, n));
    }
}

/// The tally of an address is the number of its occurrences: an address has
/// an entry exactly where it occurs, and no tally is above the number of
/// events.
pub proof fn lemma_tally_counts(events: Seq<Seq<char>>, address: Seq<char>)
    ensures
        tally(events).contains_key(address) <==> events.contains(address),
        count_in(tally(events), address) == events.filter(|e: Seq<char>| e == address).len(),
        count_in(tally(events), address) <= events.len(),
    decreases events.len(),
{
    let same = |e: Seq<char>| e == address;
    if events.len() == 0 {
        lemma_tally_push(events, address);
        assert(events =~= Seq::<Seq<char>>::empty());
    } else {
        let earlier = events.drop_last();
        let last = events.last();
        lemma_tally_counts(earlier, address);
        lemma_tally_push(earlier, last);
        assert(events =~= earlier.push(last));
        vstd::seq_lib::to_multiset_contains(events, address);
        assert(events.filter(same) == if same(last) {
            earlier.filter(same).push(last)
        } else {
            earlier.filter(same)
        }) by {
            reveal(Seq::filter);
        }
    }
}

/// The tallies do not depend on the order in which the events came.
pub proof fn lemma_tally_any_order(first: Seq<Seq<char>>, second: Seq<Seq<char>>)
    requires
        first.to_multiset() == second.to_multiset(),
    ensures
        tally(first) == tally(second),
{
}

/// The distinct addresses are those that have a tally.
pub proof fn lemma_first_seen_holds(events: Seq<Seq<char>>, address: Seq<char>)
    ensures
        first_seen(events).contains(address) <==> tally(events).contains_key(address),
    decreases events.len(),
{
    if events.len() == 0 {
        lemma_tally_push(events, address);
        assert(events =~= Seq::<Seq<char>>::empty());
    } else {
        let earlier = events.drop_last();
        let last = events.last();
        lemma_first_seen_holds(earlier, address);
        lemma_first_seen_holds(earlier, last);
        lemma_tally_push(earlier, last);
        assert(events =~= earlier.push(last));
        let before = first_seen(earlier);
        if !before.contains(last) {
            let after = before.push(last);
            assert(after[before.len() as int] == last);
            if before.contains(address) {
                let j = before.index_of(address);
                assert(after[j] == address);
            }
            if after.contains(address) && address != last {
                let j = after.index_of(address);
                assert(before[j] == address);
            }
        }
    }
}

/// The tally of an address over the first `k` events is not above its tally
/// over all of them.
pub proof fn lemma_tally_of_prefix(events: Seq<Seq<char>>, k: int, address: Seq<char>)
    requires
        0 <= k <= events.len(),
    ensures
        count_in(tally(events.take(k)), address) <= count_in(tally(events), address),
    decreases events.len() - k,
{
    if k == events.len() {
        assert(events.take(k) =~= events);
    } else {
        lemma_tally_of_prefix(events, k + 1, address);
        assert(events.take(k + 1) =~= events.take(k).push(events[k]));
        lemma_tally_push(events.take(k), events[k]);
    }
}

/// An address with its count.
#[derive(Debug)]
pub struct Tally {
    pub address: String,
    pub count: u32,
}

/// What is shown of a table: the addresses above the threshold with their
/// counts, the number of the addresses that stay hidden, and the number of
/// all addresses.
#[derive(Debug)]
pub struct Report {
    pub visible: Vec<Tally>,
    pub hidden: usize,
    pub total: usize,
}

/// The addresses of `tallies`, in order.
pub open spec fn tallied_addresses(tallies: Seq<Tally>) -> Seq<Seq<char>> {
    tallies.map_values(|t: Tally| t.address@)
}

/// The number of accesses of each address.
#[derive(Debug)]
pub struct CountTable {
    counts: KeyedList<u32>,
}

impl View for CountTable {
    type V = Map<Seq<char>, nat>;

    closed spec fn view(&self) -> Map<Seq<char>, nat> {
        self.counts.as_map().map_values(|count: u32| count as nat)
    }
}

impl CountTable {
    #[verifier::type_invariant]
    spec fn well_formed(self) -> bool {
        &&& self.counts.wf()
        &&& forall|i: int| 0 <= i < self.counts.values().len() ==> self.counts.values()[i] >= 1
    }

    /// The addresses of the table, in the order in which they first came.
    pub closed spec fn addresses(&self) -> Seq<Seq<char>> {
        self.counts.keys()
    }

    /// The count of `address`: zero where the table has no entry for it.
    pub open spec fn count_of(&self, address: Seq<char>) -> nat {
        count_in(self@, address)
    }

    /// The addresses that are shown, in the order in which they first came.
    pub open spec fn visible_addresses(&self) -> Seq<Seq<char>> {
        self.addresses().filter(|address: Seq<char>| is_visible(self.count_of(address)))
    }

    /// The addresses that stay hidden, in the order in which they first came.
    pub open spec fn hidden_addresses(&self) -> Seq<Seq<char>> {
        self.addresses().filter(|address: Seq<char>| !is_visible(self.count_of(address)))
    }

    /// A table without entries.
    pub fn new() -> (table: Self)
        ensures
            table@ == Map::<Seq<char>, nat>::empty(),
            table.addresses() == Seq::<Seq<char>>::empty(),
    {
        let table = CountTable { counts: KeyedList::new() };
        assert(table@ =~= Map::<Seq<char>, nat>::empty());
        table
    }

    /// Counts one access: the count of its address goes up by one, from zero
    /// where the address is new.
    pub fn record(&mut self, event: RemoteAccess)
        requires
            old(self).count_of(event@) < u32::MAX,
        ensures
            final(self)@ == bump(old(self)@, event@),
            final(self).addresses() == if old(self)@.contains_key(event@) {
                old(self).addresses()
            } else {
                old(self).addresses().push(event@)
            },
    {
        proof {
            use_type_invariant(&*self);
            self.counts.lemma_as_map();
        }
        let mut counts = KeyedList::new();
        std::mem::swap(&mut counts, &mut self.counts);
        let existing: u32 = match counts.position(&event.address) {
            Some(i) => *counts.value_at(i),
            None => 0,
        };
        counts.put(event.address, existing + 1);
        self.counts = counts;
        assert(self@ =~= bump(old(self)@, event@));
    }

    /// The count of `address`: zero where the table has no entry for it.
    pub fn count(&self, address: &str) -> (count: u32)
        ensures
            count == self.count_of(address@),
    {
        proof {
            use_type_invariant(self);
            self.counts.lemma_as_map();
        }
        let key = address.to_owned();
        match self.counts.position(&key) {
            Some(i) => *self.counts.value_at(i),
            None => 0,
        }
    }

    /// The number of addresses. The addresses are distinct, they are the keys
    /// of the table, and each has come at least once.
    pub fn len(&self) -> (n: usize)
        ensures
            self@.dom().finite(),
            n == self@.dom().len(),
            n == self.addresses().len(),
            self.addresses().no_duplicates(),
            self.addresses().to_set() == self@.dom(),
            forall|address: Seq<char>| self@.contains_key(address) ==> self@[address] >= 1,
    {
        proof {
            use_type_invariant(self);
            self.counts.lemma_as_map();
            assert(self@.dom() =~= self.counts.as_map().dom());
            assert forall|address: Seq<char>| self@.contains_key(address) implies self@[address]
                >= 1 by {
                let i = self.counts.keys().index_of(address);
                assert(self.counts.keys()[i] == address);
            }
        }
        self.counts.len()
    }

    /// Counts all of `events`, in order, into a new table.
    pub fn aggregate(events: &Vec<RemoteAccess>) -> (table: Self)
        requires
            forall|address: Seq<char>|
                count_in(#[trigger] tally(addresses_of(events@)), address) <= u32::MAX,
        ensures
            table@ == tally(addresses_of(events@)),
            table.addresses() == first_seen(addresses_of(events@)),
    {
        let mut table = CountTable::new();
        let ghost all = addresses_of(events@);
        proof {
            lemma_tally_push(all.take(0), all[0]);
            assert(all.take(0) =~= Seq::<Seq<char>>::empty());
        }
        let mut i: usize = 0;
        while i < events.len()
            invariant
                i <= events.len(),
                all == addresses_of(events@),
                forall|address: Seq<char>| count_in(#[trigger] tally(all), address) <= u32::MAX,
                table@ == tally(all.take(i as int)),
                table.addresses() == first_seen(all.take(i as int)),
            decreases events.len() - i,
        {
            let event = RemoteAccess { address: events[i].address.clone() };
            proof {
                let seen = all.take(i as int);
                assert(all.take(i + 1) =~= seen.push(event@));
                assert(all.take(i + 1).drop_last() =~= seen);
                lemma_tally_push(seen, event@);
                lemma_tally_of_prefix(all, i + 1, event@);
                lemma_first_seen_holds(seen, event@);
            }
            table.record(event);
            i += 1;
        }
        assert(all.take(i as int) =~= all);
        table
    }

    /// What is shown of the table: each address whose count is above the
    /// threshold, with its count, in the order in which the addresses first
    /// came; and how many addresses are hidden, of how many in all.
    pub fn report(&self) -> (report: Report)
        ensures
            tallied_addresses(report.visible@) == self.visible_addresses(),
            forall|i: int|
                0 <= i < report.visible@.len() ==> (#[trigger] report.visible@[i]).count
                    == self.count_of(report.visible@[i].address@),
            report.hidden == self.hidden_addresses().len(),
            report.total == self.addresses().len(),
            self@.dom().finite(),
            report.total == self@.dom().len(),
            report.hidden + report.visible@.len() == report.total,
    {
        proof {
            use_type_invariant(self);
            self.counts.lemma_as_map();
            assert(self@.dom() =~= self.counts.as_map().dom());
        }
        let ghost all = self.addresses();
        let ghost shown = |address: Seq<char>| is_visible(self.count_of(address));
        let ghost unshown = |address: Seq<char>| !is_visible(self.count_of(address));
        let total: usize = self.counts.len();
        let mut visible: Vec<Tally> = Vec::new();
        let mut hidden: usize = 0;
        let mut i: usize = 0;
        proof {
            reveal(Seq::filter);
            assert(all.take(0) =~= Seq::<Seq<char>>::empty());
            assert(tallied_addresses(visible@) =~= all.take(0).filter(shown));
        }
        while i < total
            invariant
                i <= total,
                total == self.counts.keys().len(),
                total == self.counts.values().len(),
                all == self.addresses(),
                shown == |address: Seq<char>| is_visible(self.count_of(address)),
                unshown == |address: Seq<char>| !is_visible(self.count_of(address)),
                forall|j: int|
                    0 <= j < all.len() ==> self.count_of(#[trigger] all[j])
                        == self.counts.values()[j],
                tallied_addresses(visible@) == all.take(i as int).filter(shown),
                forall|j: int|
                    0 <= j < visible@.len() ==> (#[trigger] visible@[j]).count == self.count_of(
                        visible@[j].address@,
                    ),
                hidden == all.take(i as int).filter(unshown).len(),
                hidden + visible@.len() == i,
            decreases total - i,
        {
            let count: u32 = *self.counts.value_at(i);
            proof {
                lemma_filter_next(all, shown, i as int);
                lemma_filter_next(all, unshown, i as int);
            }
            if count > VISIBILITY_THRESHOLD {
                let ghost before = tallied_addresses(visible@);
                let address = self.counts.key_at(i).clone();
                visible.push(Tally { address, count });
                assert(tallied_addresses(visible@) =~= before.push(all[i as int]));
            } else {
                hidden += 1;
            }
            i += 1;
        }
        assert(all.take(i as int) =~= all);
        Report { visible, hidden, total }
    }
}

} // verus!
