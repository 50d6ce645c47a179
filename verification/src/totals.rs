//! What an event log gives to and takes from each address.

use crate::db::DbError;
use crate::ledger::{latest, net, overflows, rebuilt, LoggedTransfer};
use crate::primitives::U256;
use crate::rows::TransferRow;
use crate::table::BalanceTable;
use crate::text::amount_limit;
use crate::total::{Excess, Total};
use crate::values::logged_amounts;
use vstd::hash_map::StringHashMap;
use vstd::prelude::*;

verus! {

/// What a log does to one address: all it gives, all it takes, and the highest block of either.
pub struct Sums {
    pub credit: nat,
    pub debit: nat,
    pub latest: u64,
}

/// The sums of one address.
pub struct Group {
    pub address: String,
    pub credit: Total,
    pub debit: Total,
    pub latest: u64,
}

impl Group {
    /// The sums that the group holds.
    pub open spec fn sums(self) -> Sums {
        Sums { credit: self.credit.value(), debit: self.debit.value(), latest: self.latest }
    }
}

/// The sums of each address that a log names, with the place of each address among them.
pub struct Totals {
    groups: Vec<Group>,
    index: StringHashMap<usize>,
}

/// Whether the sums are those of `log` for the address with text `key`. No row adds more than the
/// largest amount to the credits or to the debits.
pub open spec fn sums_up(sums: Sums, log: Seq<LoggedTransfer>, key: Seq<char>) -> bool {
    &&& sums.credit - sums.debit == net(log, key)
    &&& sums.latest == latest(log, key)
    &&& sums.credit <= log.len() * amount_limit()
    &&& sums.debit <= log.len() * amount_limit()
}

impl Totals {
    /// Each address has one group, and the index points to it.
    pub closed spec fn valid(&self) -> bool {
        &&& forall|key: Seq<char>| #[trigger]
            self.index@.contains_key(key) ==> {
                &&& self.index@[key] < self.groups@.len()
                &&& self.groups@[self.index@[key] as int].address@ == key
            }
        &&& forall|i: int|
            0 <= i < self.groups@.len() ==> {
                &&& self.index@.contains_key((#[trigger] self.groups@[i]).address@)
                &&& self.index@[self.groups@[i].address@] == i
            }
    }

    /// The sums for an address: nought where there is no group for it.
    pub closed spec fn sums(&self, key: Seq<char>) -> Sums {
        if self.index@.contains_key(key) {
            self.groups@[self.index@[key] as int].sums()
        } else {
            Sums { credit: 0, debit: 0, latest: 0 }
        }
    }

    /// Whether the sums are those of `log`.
    pub open spec fn summarize(&self, log: Seq<LoggedTransfer>) -> bool {
        forall|key: Seq<char>| sums_up(#[trigger] self.sums(key), log, key)
    }

    /// Sums of the empty log.
    pub fn new() -> (totals: Totals)
        ensures
            totals.valid(),
            totals.summarize(Seq::empty()),
    {
        Totals { groups: Vec::new(), index: StringHashMap::new() }
    }

    /// The place of the group for `address`, which is made where there is none.
    fn place(&mut self, address: &String) -> (i: usize)
        requires
            old(self).valid(),
        ensures
            final(self).valid(),
            i < final(self).groups@.len(),
            final(self).groups@[i as int].address@ == address@,
            forall|key: Seq<char>| #[trigger] final(self).sums(key) == old(self).sums(key),
    {
        match self.index.get(address.as_str()) {
            Some(i) => *i,
            None => {
                let i: usize = self.groups.len();
                self.index.insert(address.clone(), i);
                self.groups.push(
                    Group {
                        address: address.clone(),
                        credit: Total::new(),
                        debit: Total::new(),
                        latest: 0,
                    },
                );
                i
            },
        }
    }

    /// Adds to the credits and the debits of an address.
    fn add_amounts(&mut self, address: &String, given: U256, taken: U256, block: u64)
        requires
            old(self).valid(),
            old(self).sums(address@).credit + given.value() < 0x1_0000_0000_0000_0000
                * amount_limit(),
            old(self).sums(address@).debit + taken.value() < 0x1_0000_0000_0000_0000
                * amount_limit(),
        ensures
            final(self).valid(),
            forall|key: Seq<char>| #[trigger]
                final(self).sums(key) == if key == address@ {
                    Sums {
                        credit: old(self).sums(key).credit + given.value(),
                        debit: old(self).sums(key).debit + taken.value(),
                        latest: if block > old(self).sums(key).latest {
                            block
                        } else {
                            old(self).sums(key).latest
                        },
                    }
                } else {
                    old(self).sums(key)
                },
    {
        let i: usize = self.place(address);
        let ghost placed = *self;
        assert(placed.sums(address@) == placed.groups@[i as int].sums());
        let group = &mut self.groups[i];
        group.credit.add(given);
        group.debit.add(taken);
        if block > group.latest {
            group.latest = block;
        }
        assert forall|key: Seq<char>| key != address@ implies #[trigger] self.sums(key)
            == placed.sums(key) by {
            if self.index@.contains_key(key) {
                assert(self.index@[key] != i);
            }
        }
    }

    /// Adds a row of the log: its value is taken from the sender and given to the receiver.
    pub fn add_row(&mut self, row: &TransferRow, log: Ghost<Seq<LoggedTransfer>>)
        requires
            old(self).valid(),
            old(self).summarize(log@),
            log@.len() < usize::MAX,
        ensures
            final(self).valid(),
            final(self).summarize(log@.push(row@)),
    {
        let (given, taken) = logged_amounts(row.value.as_str());
        let ghost longer = log@.push(row@);
        proof {
            given.lemma_in_range();
            taken.lemma_in_range();
            assert(sums_up(self.sums(row.from_addr@), log@, row.from_addr@));
            assert(sums_up(self.sums(row.to_addr@), log@, row.to_addr@));
            assert(longer.drop_last() =~= log@);
        }
        self.add_amounts(&row.from_addr, taken, given, row.block_number);
        self.add_amounts(&row.to_addr, given, taken, row.block_number);
        assert forall|key: Seq<char>| sums_up(#[trigger] self.sums(key), longer, key) by {
            assert(sums_up(old(self).sums(key), log@, key));
        }
    }

    /// The balance table that the log leaves, or an error where a balance would be larger than the
    /// largest amount.
    pub fn balances(&self, log: Ghost<Seq<LoggedTransfer>>) -> (r: Result<BalanceTable, DbError>)
        requires
            self.valid(),
            self.summarize(log@),
        ensures
            match r {
                Ok(table) => {
                    &&& !overflows(log@)
                    &&& table.valid()
                    &&& table@ == rebuilt(log@)
                },
                Err(error) => error == DbError::BalanceOverflow && overflows(log@),
            },
    {
        let mut table = BalanceTable::new();
        for i in 0..self.groups.len()
            invariant
                self.valid(),
                self.summarize(log@),
                table.valid(),
                forall|key: Seq<char>| #[trigger]
                    table@.contains_key(key) <==> {
                        &&& self.index@.contains_key(key)
                        &&& self.index@[key] < i
                        &&& net(log@, key) > 0
                    },
                forall|key: Seq<char>| #[trigger]
                    table@.contains_key(key) ==> table@[key] == rebuilt(log@)[key],
                forall|j: int|
                    0 <= j < i ==> net(log@, (#[trigger] self.groups@[j]).address@)
                        < amount_limit(),
        {
            let group = &self.groups[i];
            let ghost key = group.address@;
            let ghost before = table@;
            assert(self.index@.contains_key(key) && self.index@[key] == i);
            assert(sums_up(self.sums(key), log@, key));
            match group.credit.excess_over(&group.debit) {
                Excess::Nothing => {},
                Excess::Amount(amount) => {
                    proof {
                        amount.lemma_in_range();
                    }
                    table.upsert(group.address.clone(), amount.to_text(), group.latest);
                },
                Excess::TooLarge => {
                    assert(net(log@, key) >= amount_limit());
                    return Err(DbError::BalanceOverflow);
                },
            }
        }
        proof {
            assert forall|key: Seq<char>| #[trigger] net(log@, key) < amount_limit() by {
                assert(sums_up(self.sums(key), log@, key));
                if self.index@.contains_key(key) {
                    assert(self.groups@[self.index@[key] as int].address@ == key);
                }
            }
            assert forall|key: Seq<char>| net(log@, key) > 0 implies #[trigger]
                table@.contains_key(key) by {
                assert(sums_up(self.sums(key), log@, key));
            }
            assert(table@ =~= rebuilt(log@));
        }
        Ok(table)
    }
}

} // verus!
