//! What the operations on the tables promise, in terms of what goes in and what can be seen after.

use crate::db::{answer, transfers_of, DbError, TransferRecord};
use crate::ledger::{
    appended, balance, flow, latest, logged, logged_all, moved, net, overflows, patched, rebuilt,
    rolled_back, survivors, Balances, LoggedTransfer, Tables, Transfer,
};
use crate::numerals::{
    digit_numbers, law_amount_limit, law_decimal_writes, law_numeral_unique,
    law_written_balance_is_read, law_written_value_counts, writes,
};
use crate::rows::{log_of, BalanceRow, TransferRow};
use crate::table::table_of;
use crate::text::{
    address_text, amount_limit, law_address_text_injective, law_decimal_read_back, logged_value,
    parsed,
};
use crate::types::TransferEvent;
use vstd::arithmetic::power2::pow2;
use vstd::prelude::*;

verus! {

/// The sum of the values of some rows of the log.
pub open spec fn sum_of(rows: Seq<LoggedTransfer>) -> int {
    rows.fold_left(0int, |sum: int, r: LoggedTransfer| sum + logged_value(r.value))
}

/// The sum of the values of the rows whose receiver is `key`.
pub open spec fn received(log: Seq<LoggedTransfer>, key: Seq<char>) -> int {
    sum_of(log.filter(|r: LoggedTransfer| r.to == key))
}

/// The sum of the values of the rows whose sender is `key`.
pub open spec fn sent(log: Seq<LoggedTransfer>, key: Seq<char>) -> int {
    sum_of(log.filter(|r: LoggedTransfer| r.from == key))
}

proof fn lemma_sum_push(rows: Seq<LoggedTransfer>, r: LoggedTransfer)
    ensures
        sum_of(rows.push(r)) == sum_of(rows) + logged_value(r.value),
{
    assert(rows.push(r).drop_last() =~= rows);
}

/// What a log leaves to an address is all that its rows give to the address less all that they take
/// from it, in whatever order they do so.
pub proof fn law_net_is_received_less_sent(log: Seq<LoggedTransfer>, key: Seq<char>)
    ensures
        net(log, key) == received(log, key) - sent(log, key),
    decreases log.len(),
{
    reveal(Seq::filter);
    if log.len() > 0 {
        let front = log.drop_last();
        let r = log.last();
        law_net_is_received_less_sent(front, key);
        lemma_sum_push(front.filter(|r: LoggedTransfer| r.to == key), r);
        lemma_sum_push(front.filter(|r: LoggedTransfer| r.from == key), r);
    }
}

/// What two logs leave in one is what each of them leaves.
pub proof fn law_net_adds_up(x: Seq<LoggedTransfer>, y: Seq<LoggedTransfer>, key: Seq<char>)
    ensures
        net(x + y, key) == net(x, key) + net(y, key),
    decreases y.len(),
{
    if y.len() == 0 {
        assert(x + y =~= x);
    } else {
        assert((x + y).drop_last() =~= x + y.drop_last());
        assert((x + y).last() == y.last());
        law_net_adds_up(x, y.drop_last(), key);
    }
}

/// The later of two blocks.
spec fn later(a: u64, b: u64) -> u64 {
    if b > a {
        b
    } else {
        a
    }
}

/// The latest block so far, with one row more.
spec fn latest_with(block: u64, r: LoggedTransfer, key: Seq<char>) -> u64 {
    if r.from == key || r.to == key {
        later(block, r.block)
    } else {
        block
    }
}

proof fn lemma_net_folds(log: Seq<LoggedTransfer>, key: Seq<char>)
    ensures
        net(log, key) == log.fold_left(0int, |sum: int, r: LoggedTransfer| sum + flow(r, key)),
        latest(log, key) == log.fold_left(
            0u64,
            |block: u64, r: LoggedTransfer| latest_with(block, r, key),
        ),
    decreases log.len(),
{
    if log.len() > 0 {
        lemma_net_folds(log.drop_last(), key);
    }
}

/// A rebuild does not depend on the order of the log.
pub proof fn law_rebuild_ignores_order(x: Seq<LoggedTransfer>, y: Seq<LoggedTransfer>)
    requires
        x.to_multiset() == y.to_multiset(),
    ensures
        rebuilt(x) == rebuilt(y),
        overflows(x) == overflows(y),
{
    assert forall|key: Seq<char>| #[trigger]
        net(x, key) == net(y, key) && latest(x, key) == latest(y, key) by {
        let add = |sum: int, r: LoggedTransfer| sum + flow(r, key);
        let max = |block: u64, r: LoggedTransfer| latest_with(block, r, key);
        lemma_net_folds(x, key);
        lemma_net_folds(y, key);
        vstd::seq_lib::lemma_fold_left_permutation(x, y, add, 0int);
        vstd::seq_lib::lemma_fold_left_permutation(x, y, max, 0u64);
    }
    assert(rebuilt(x) =~= rebuilt(y));
    if overflows(x) {
        let key = choose|key: Seq<char>| #[trigger] net(x, key) >= amount_limit();
        assert(net(y, key) == net(x, key));
    }
    if overflows(y) {
        let key = choose|key: Seq<char>| #[trigger] net(y, key) >= amount_limit();
        assert(net(x, key) == net(y, key));
    }
}

/// Whether a row is from or to `key`.
pub open spec fn concerns(r: LoggedTransfer, key: Seq<char>) -> bool {
    r.from == key || r.to == key
}

/// Whether `block` is the highest block of the rows of `log` that are from or to `key`.
pub open spec fn last_concern(log: Seq<LoggedTransfer>, key: Seq<char>, block: u64) -> bool {
    &&& exists|i: int|
        0 <= i < log.len() && concerns(#[trigger] log[i], key) && log[i].block == block
    &&& forall|i: int|
        0 <= i < log.len() && concerns(#[trigger] log[i], key) ==> log[i].block <= block
}

proof fn lemma_last_concern(log: Seq<LoggedTransfer>, key: Seq<char>)
    ensures
        last_concern(log, key, latest(log, key)) || (net(log, key) == 0 && latest(log, key) == 0
            && forall|i: int| 0 <= i < log.len() ==> !concerns(#[trigger] log[i], key)),
    decreases log.len(),
{
    if log.len() > 0 {
        let front = log.drop_last();
        let last = log.len() - 1;
        lemma_last_concern(front, key);
        assert(log[last] == log.last());
        assert forall|i: int| 0 <= i < front.len() implies #[trigger] log[i] == front[i] by {}
        if last_concern(front, key, latest(front, key)) {
            let i = choose|i: int|
                0 <= i < front.len() && concerns(#[trigger] front[i], key) && front[i].block
                    == latest(front, key);
            assert(log[i] == front[i]);
            assert(concerns(log[i], key));
            if concerns(log.last(), key) {
                assert(concerns(log[last], key));
            }
        }
    }
}

/// The rows of `log` that are of block `fork_block` or an earlier one.
pub open spec fn up_to(log: Seq<LoggedTransfer>, fork_block: u64) -> Seq<LoggedTransfer> {
    log.filter(|r: LoggedTransfer| r.block <= fork_block)
}

/// What a rollback leaves. It keeps the rows of no later block than the fork, in their order. An
/// address has a balance if and only if the kept rows give it more than they take from it: then the
/// balance is the difference, and it is dated by the last of those rows that concerns the address.
/// This holds for every log, whatever the order of its credits and debits, as long as no address is
/// left with 2^256 or more.
pub proof fn law_rollback_leaves(tables: Tables, fork_block: u64, key: Seq<char>)
    requires
        forall|k: Seq<char>|
            #[trigger] received(up_to(tables.transfers, fork_block), k) - sent(
                up_to(tables.transfers, fork_block),
                k,
            ) < pow2(256),
    ensures
        ({
            let kept = up_to(tables.transfers, fork_block);
            let left = received(kept, key) - sent(kept, key);
            let after = rolled_back(tables, fork_block);
            &&& !overflows(survivors(tables.transfers, fork_block))
            &&& after.transfers == kept
            &&& after.last_block == tables.last_block
            &&& after.balances.contains_key(key) <==> left > 0
            &&& left <= 0 ==> answer(after.balances, key) == Ok::<Option<(nat, u64)>, DbError>(None)
            &&& left > 0 ==> {
                let row = after.balances[key];
                &&& writes(row.amount, left)
                &&& last_concern(kept, key, row.block)
                &&& answer(after.balances, key) == Ok::<Option<(nat, u64)>, DbError>(
                    Some((left as nat, row.block)),
                )
            }
        }),
{
    let kept = up_to(tables.transfers, fork_block);
    law_amount_limit();
    assert(survivors(tables.transfers, fork_block) == kept);
    assert forall|k: Seq<char>| #[trigger] net(kept, k) < pow2(256) by {
        law_net_is_received_less_sent(kept, k);
        assert(received(kept, k) - sent(kept, k) < pow2(256));
    }
    law_net_is_received_less_sent(kept, key);
    lemma_last_concern(kept, key);
    if net(kept, key) > 0 {
        law_decimal_writes(net(kept, key) as nat);
        law_decimal_read_back(net(kept, key) as nat);
    }
}

/// A rollback fails if and only if the rows that it would keep leave some address 2^256 or more.
pub proof fn law_rollback_fails(tables: Tables, fork_block: u64)
    ensures
        overflows(survivors(tables.transfers, fork_block)) <==> exists|key: Seq<char>|
            #[trigger] received(up_to(tables.transfers, fork_block), key) - sent(
                up_to(tables.transfers, fork_block),
                key,
            ) >= pow2(256),
{
    let kept = up_to(tables.transfers, fork_block);
    law_amount_limit();
    assert(survivors(tables.transfers, fork_block) == kept);
    assert forall|k: Seq<char>|
        #![trigger net(kept, k)]
        #![trigger received(kept, k)]
        net(kept, k) == received(kept, k) - sent(kept, k) by {
        law_net_is_received_less_sent(kept, k);
    }
}

/// What the balance table answers: nothing for an address without a row; otherwise the amount that
/// is stored, with its block, or an error where the stored text is no number.
pub proof fn law_answer(balances: Balances, key: Seq<char>)
    ensures
        !balances.contains_key(key) <==> answer(balances, key) == Ok::<
            Option<(nat, u64)>,
            DbError,
        >(None),
        balances.contains_key(key) ==> match parsed(balances[key].amount) {
            Some(n) => answer(balances, key) == Ok::<Option<(nat, u64)>, DbError>(
                Some((n, balances[key].block)),
            ),
            None => answer(balances, key) == Err::<Option<(nat, u64)>, DbError>(
                DbError::InvalidBalance,
            ),
        },
        forall|n: int|
            balances.contains_key(key) && n < pow2(256) && #[trigger] writes(
                balances[key].amount,
                n,
            ) ==> answer(balances, key) == Ok::<Option<(nat, u64)>, DbError>(
                Some((n as nat, balances[key].block)),
            ),
{
    assert forall|n: int|
        balances.contains_key(key) && n < pow2(256) && #[trigger] writes(
            balances[key].amount,
            n,
        ) implies parsed(balances[key].amount) == Some(n as nat) by {
        law_written_balance_is_read(balances[key].amount, n);
    }
}

/// The amount that the balance table has for an address: zero where it has none that can be read.
pub open spec fn amount_at(balances: Balances, key: Seq<char>) -> int {
    match answer(balances, key) {
        Ok(Some((amount, _))) => amount as int,
        _ => 0,
    }
}

/// `n`, or the nearest amount where it is none.
pub open spec fn held_to_amount(n: int) -> int {
    if n < 0 {
        0
    } else if n < pow2(256) {
        n
    } else {
        pow2(256) - 1
    }
}

/// Whether the balance table has the amount `n` of block `block` for `key`, in decimal.
pub open spec fn shows(balances: Balances, key: Seq<char>, n: int, block: u64) -> bool {
    &&& balances.contains_key(key)
    &&& balances[key].block == block
    &&& writes(balances[key].amount, n)
    &&& answer(balances, key) == Ok::<Option<(nat, u64)>, DbError>(Some((n as nat, block)))
}

/// What one appended transfer does. Its value is taken from the sender, down to zero, and given to
/// the receiver, up to the largest amount; both rows are dated by its block; every other row stays.
/// Together with [`law_append_batches`](crate::laws::law_append_batches) this is what any number of
/// transfers does.
pub proof fn law_append_one(tables: Tables, t: Transfer, key: Seq<char>)
    ensures
        ({
            let after = appended(tables, seq![t]);
            let from = address_text(t.from);
            let to = address_text(t.to);
            let sender = held_to_amount(amount_at(tables.balances, from) - t.value);
            &&& from != to ==> shows(after.balances, from, sender, t.block)
            &&& from != to ==> shows(
                after.balances,
                to,
                held_to_amount(amount_at(tables.balances, to) + t.value),
                t.block,
            )
            &&& from == to ==> shows(
                after.balances,
                to,
                held_to_amount(sender + t.value),
                t.block,
            )
            &&& key != from && key != to ==> {
                &&& after.balances.contains_key(key) == tables.balances.contains_key(key)
                &&& tables.balances.contains_key(key) ==> after.balances[key]
                    == tables.balances[key]
            }
            &&& after.last_block == tables.last_block
        }),
{
    law_amount_limit();
    let ts = seq![t];
    let from = address_text(t.from);
    let to = address_text(t.to);
    let b = tables.balances;
    reveal_with_fuel(patched, 2);
    assert(ts.drop_last() =~= Seq::empty());
    assert(ts.last() == t);
    assert(appended(tables, ts).balances == moved(b, t));
    assert(amount_at(b, from) == balance(b, from));
    assert(amount_at(b, to) == balance(b, to));
    let sender = held_to_amount(amount_at(b, from) - t.value);
    let receiver = held_to_amount(if from == to {
        sender + t.value
    } else {
        amount_at(b, to) + t.value
    });
    law_decimal_writes(sender as nat);
    law_decimal_read_back(sender as nat);
    law_decimal_writes(receiver as nat);
    law_decimal_read_back(receiver as nat);
}

/// The event log tells each appended transfer in full. It holds what it held, then one row for each
/// transfer, in order, with its block, the texts of its addresses, and its value in decimal; that
/// value is what the row counts for in a rebuild.
pub proof fn law_append_logs_in_full(tables: Tables, ts: Seq<Transfer>, i: int)
    requires
        0 <= i < ts.len(),
        ts[i].value < pow2(256),
    ensures
        ({
            let after = appended(tables, ts).transfers;
            let row = after[tables.transfers.len() + i];
            &&& after.len() == tables.transfers.len() + ts.len()
            &&& after.take(tables.transfers.len() as int) == tables.transfers
            &&& row.block == ts[i].block
            &&& row.from == address_text(ts[i].from)
            &&& row.to == address_text(ts[i].to)
            &&& writes(row.value, ts[i].value as int)
            &&& logged_value(row.value) == ts[i].value
        }),
{
    let after = appended(tables, ts).transfers;
    assert(after.take(tables.transfers.len() as int) =~= tables.transfers);
    assert(after[tables.transfers.len() + i] == logged_all(ts)[i]);
    law_decimal_writes(ts[i].value);
    law_written_value_counts(logged(ts[i]).value, ts[i].value as int);
}

/// No two transfers have the same row.
pub proof fn law_rows_tell_transfers_apart(a: Transfer, b: Transfer)
    requires
        logged(a) == logged(b),
    ensures
        a == b,
{
    law_address_text_injective(a.from, b.from);
    law_address_text_injective(a.to, b.to);
    law_decimal_writes(a.value);
    law_decimal_writes(b.value);
    law_numeral_unique(digit_numbers(logged(a).value), 10, a.value as int, b.value as int);
}

/// After one appended transfer the log gives its value to the receiver and takes it from the sender.
pub proof fn law_append_one_counts(tables: Tables, t: Transfer, key: Seq<char>)
    requires
        t.value < pow2(256),
    ensures
        received(appended(tables, seq![t]).transfers, key) == received(tables.transfers, key) + (
        if address_text(t.to) == key {
            t.value as int
        } else {
            0
        }),
        sent(appended(tables, seq![t]).transfers, key) == sent(tables.transfers, key) + (
        if address_text(t.from) == key {
            t.value as int
        } else {
            0
        }),
{
    reveal(Seq::filter);
    let log = tables.transfers;
    let after = appended(tables, seq![t]).transfers;
    law_append_logs_in_full(tables, seq![t], 0);
    assert(after.drop_last() =~= log);
    lemma_sum_push(log.filter(|r: LoggedTransfer| r.to == key), after.last());
    lemma_sum_push(log.filter(|r: LoggedTransfer| r.from == key), after.last());
}

/// A record and a decoded event tell the transfer with their own fields.
pub proof fn law_records_tell_their_fields(records: Seq<TransferRecord>, event: TransferEvent, i: int)
    requires
        0 <= i < records.len(),
    ensures
        transfers_of(records).len() == records.len(),
        transfers_of(records)[i].block == records[i].block_number,
        transfers_of(records)[i].from == records[i].from_addr.bytes@,
        transfers_of(records)[i].to == records[i].to_addr.bytes@,
        transfers_of(records)[i].value == records[i].value.value(),
        event@.block == event.block_number,
        event@.from == event.from.bytes@,
        event@.to == event.to.bytes@,
        event@.value == event.value.value(),
{
}

/// The event log that rows make has their texts and numbers, in their order.
pub proof fn law_rows_make_the_log(rows: Seq<TransferRow>, i: int)
    requires
        0 <= i < rows.len(),
    ensures
        log_of(rows).len() == rows.len(),
        log_of(rows)[i].block == rows[i].block_number,
        log_of(rows)[i].from == rows[i].from_addr@,
        log_of(rows)[i].to == rows[i].to_addr@,
        log_of(rows)[i].value == rows[i].value@,
{
}

/// The balance table that rows make has a row for each of their addresses, and that is the last one
/// for it.
pub proof fn law_rows_make_the_table(rows: Seq<BalanceRow>, i: int)
    requires
        0 <= i < rows.len(),
        forall|j: int| i < j < rows.len() ==> (#[trigger] rows[j]).address@ != rows[i].address@,
    ensures
        table_of(rows).contains_key(rows[i].address@),
        table_of(rows)[rows[i].address@].amount == rows[i].balance@,
        table_of(rows)[rows[i].address@].block == rows[i].last_updated_block,
    decreases rows.len(),
{
    let last = rows.len() - 1;
    if i < last {
        let front = rows.drop_last();
        assert(rows[last].address@ != rows[i].address@);
        assert(front[i] == rows[i]);
        assert forall|j: int| i < j < front.len() implies (#[trigger] front[j]).address@
            != front[i].address@ by {
            assert(rows[j] == front[j]);
        }
        law_rows_make_the_table(front, i);
    }
}

/// The balance table that rows make has rows for their addresses alone.
pub proof fn law_table_has_no_other_rows(rows: Seq<BalanceRow>, key: Seq<char>) -> (i: int)
    requires
        table_of(rows).contains_key(key),
    ensures
        0 <= i < rows.len(),
        rows[i].address@ == key,
    decreases rows.len(),
{
    if rows.last().address@ == key {
        rows.len() - 1
    } else {
        law_table_has_no_other_rows(rows.drop_last(), key)
    }
}

} // verus!
