//! The balance table: at most one row for each address.

use crate::ledger::{Balances, StoredBalance};
use crate::rows::BalanceRow;
use vstd::hash_map::StringHashMap;
use vstd::prelude::*;

verus! {

/// The table that rows make, where a row replaces an earlier one for the same address.
pub open spec fn table_of(rows: Seq<BalanceRow>) -> Balances
    decreases rows.len(),
{
    if rows.len() == 0 {
        Map::empty()
    } else {
        table_of(rows.drop_last()).insert(rows.last().address@, rows.last().stored())
    }
}

/// The rows of the balance table, with the place of each address among them.
pub struct BalanceTable {
    rows: Vec<BalanceRow>,
    index: StringHashMap<usize>,
}

impl View for BalanceTable {
    type V = Balances;

    closed spec fn view(&self) -> Balances {
        Map::new(
            |key: Seq<char>| self.index@.contains_key(key),
            |key: Seq<char>| self.rows@[self.index@[key] as int].stored(),
        )
    }
}

impl BalanceTable {
    /// Each address has one row, and the index points to it.
    pub closed spec fn valid(&self) -> bool {
        &&& forall|key: Seq<char>| #[trigger]
            self.index@.contains_key(key) ==> {
                &&& self.index@[key] < self.rows@.len()
                &&& self.rows@[self.index@[key] as int].address@ == key
            }
        &&& forall|i: int|
            0 <= i < self.rows@.len() ==> {
                &&& self.index@.contains_key((#[trigger] self.rows@[i]).address@)
                &&& self.index@[self.rows@[i].address@] == i
            }
    }

    /// A table without rows.
    pub fn new() -> (table: BalanceTable)
        ensures
            table.valid(),
            table@ == Map::<Seq<char>, StoredBalance>::empty(),
    {
        let table = BalanceTable { rows: Vec::new(), index: StringHashMap::new() };
        assert(table@ =~= Map::<Seq<char>, StoredBalance>::empty());
        table
    }

    /// The row for an address, if there is one.
    pub fn get(&self, address: &str) -> (row: Option<&BalanceRow>)
        requires
            self.valid(),
        ensures
            match row {
                Some(row) => {
                    &&& self@.contains_key(address@)
                    &&& row.address@ == address@
                    &&& row.stored() == self@[address@]
                },
                None => !self@.contains_key(address@),
            },
    {
        match self.index.get(address) {
            Some(i) => Some(&self.rows[*i]),
            None => None,
        }
    }

    /// Sets the row for an address, whether or not there was one.
    pub fn upsert(&mut self, address: String, balance: String, block: u64)
        requires
            old(self).valid(),
        ensures
            final(self).valid(),
            final(self)@ == old(self)@.insert(
                address@,
                StoredBalance { amount: balance@, block },
            ),
    {
        let ghost key = address@;
        let place: Option<usize> = match self.index.get(address.as_str()) {
            Some(i) => Some(*i),
            None => None,
        };
        let row = BalanceRow { address, balance, last_updated_block: block };
        match place {
            Some(i) => {
                self.rows[i] = row;
            },
            None => {
                let i: usize = self.rows.len();
                self.index.insert(row.address.clone(), i);
                self.rows.push(row);
            },
        }
        assert(self@ =~= old(self)@.insert(
            key,
            StoredBalance { amount: row.balance@, block },
        ));
    }

    /// The table that stored rows make.
    pub fn from_rows(rows: Vec<BalanceRow>) -> (table: BalanceTable)
        ensures
            table.valid(),
            table@ == table_of(rows@),
    {
        let mut table = BalanceTable::new();
        for i in 0..rows.len()
            invariant
                table.valid(),
                table@ == table_of(rows@.take(i as int)),
        {
            let row = &rows[i];
            table.upsert(row.address.clone(), row.balance.clone(), row.last_updated_block);
            assert(rows@.take(i + 1).drop_last() =~= rows@.take(i as int));
        }
        assert(rows@.take(rows@.len() as int) =~= rows@);
        table
    }

    /// The rows of the table: one for each address in it.
    pub fn rows(&self) -> (rows: &Vec<BalanceRow>)
        requires
            self.valid(),
        ensures
            forall|i: int, j: int|
                0 <= i < j < rows@.len() ==> (#[trigger] rows@[i]).address@ != (
                #[trigger] rows@[j]).address@,
            self@ == table_of(rows@),
    {
        proof {
            self.lemma_view_of_first_rows(self.rows@.len() as int);
            assert(self.rows@.take(self.rows@.len() as int) =~= self.rows@);
            assert forall|key: Seq<char>| #[trigger]
                self@.contains_key(key) implies table_of(self.rows@).contains_key(key) by {
                assert(self.index@.contains_key(key));
            }
            assert forall|key: Seq<char>| #[trigger]
                table_of(self.rows@).contains_key(key) implies self@.contains_key(key)
                && table_of(self.rows@)[key] == self@[key] by {
                assert(self.index@.contains_key(key));
            }
            assert(self@ =~= table_of(self.rows@));
        }
        &self.rows
    }

    /// The first `n` rows make the part of the table that the index places among them.
    proof fn lemma_view_of_first_rows(&self, n: int)
        requires
            self.valid(),
            0 <= n <= self.rows@.len(),
        ensures
            forall|key: Seq<char>| #[trigger]
                self.index@.contains_key(key) && self.index@[key] < n ==> table_of(
                    self.rows@.take(n),
                ).contains_key(key) && table_of(self.rows@.take(n))[key] == self@[key],
            forall|key: Seq<char>| #[trigger]
                table_of(self.rows@.take(n)).contains_key(key) ==> self.index@.contains_key(key)
                    && self.index@[key] < n,
        decreases n,
    {
        if n > 0 {
            self.lemma_view_of_first_rows(n - 1);
            let first = self.rows@.take(n);
            let row = self.rows@[n - 1];
            assert(first.drop_last() =~= self.rows@.take(n - 1));
            assert(first.last() == row);
            assert(table_of(first) == table_of(first.drop_last()).insert(
                row.address@,
                row.stored(),
            ));
            assert forall|key: Seq<char>| #[trigger]
                self.index@.contains_key(key) && self.index@[key] < n implies table_of(
                first,
            ).contains_key(key) && table_of(first)[key] == self@[key] by {
                if self.index@[key] == n - 1 {
                    assert(key == row.address@);
                } else {
                    assert(key != row.address@);
                }
            }
        }
    }
}

} // verus!
