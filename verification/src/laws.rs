//! What holds of the index as a whole: of every state, and across several operations.

use crate::db::{answer, transfers_of, DbError, TransferRecord};
use crate::exex::{
    block_transfers, committed, log_transfers, paired_receipts, receipt_transfers, reorged,
    reverted, Block, Chain, Log, Notification, Receipt,
};
use crate::ledger::{
    appended, balance, latest, logged, logged_all, moved, net, overflows, patched, rebuilt,
    rolled_back, survivors, with_balance, Balances, LoggedTransfer, StoredBalance, Tables, Transfer,
};
use crate::primitives::{be_value, saturated_difference, saturated_sum};
use crate::text::{address_text, amount_limit, law_decimal_read_back, logged_value, parsed};
use vstd::prelude::*;

verus! {

/// What `log` leaves to `key`, zero where it takes more than it gives.
pub open spec fn held(log: Seq<LoggedTransfer>, key: Seq<char>) -> nat {
    if net(log, key) > 0 {
        net(log, key) as nat
    } else {
        0
    }
}

/// Whether `log` never gives anything to `key` while it has taken more from it than it gave, and
/// never leaves it more than the largest amount.
pub open spec fn backed(log: Seq<LoggedTransfer>, key: Seq<char>) -> bool
    decreases log.len(),
{
    if log.len() == 0 {
        true
    } else {
        let r = log.last();
        let value = logged_value(r.value);
        let before = net(log.drop_last(), key);
        let paid = if r.from == key {
            before - value
        } else {
            before
        };
        &&& backed(log.drop_last(), key)
        &&& r.to == key && value > 0 ==> paid >= 0
        &&& net(log, key) < amount_limit()
    }
}

/// Whether the balance table shows what the log leaves, for every address that the log backs.
pub open spec fn faithful(tables: Tables) -> bool {
    forall|key: Seq<char>|
        backed(tables.transfers, key) ==> #[trigger] balance(tables.balances, key) == held(
            tables.transfers,
            key,
        )
}

/// Whether every balance in the table is a number.
pub open spec fn readable(balances: Balances) -> bool {
    forall|key: Seq<char>| #[trigger]
        balances.contains_key(key) ==> parsed(balances[key].amount) is Some
}

/// Whether the blocks of a log ascend.
pub open spec fn ordered(log: Seq<LoggedTransfer>) -> bool {
    forall|i: int, j: int|
        0 <= i < j < log.len() ==> (#[trigger] log[i]).block <= (#[trigger] log[j]).block
}

/// Whether each row of the balance table is dated by the last block in which the log names its
/// address.
pub open spec fn dated(tables: Tables) -> bool {
    forall|key: Seq<char>| #[trigger]
        tables.balances.contains_key(key) ==> tables.balances[key].block == latest(
            tables.transfers,
            key,
        )
}

/// Whether all rows of a log are of block `fork_block` or an earlier one.
pub open spec fn all_up_to(log: Seq<LoggedTransfer>, fork_block: u64) -> bool {
    forall|i: int| 0 <= i < log.len() ==> (#[trigger] log[i]).block <= fork_block
}

/// Whether all transfers are of later blocks than `fork_block`.
pub open spec fn all_after(ts: Seq<Transfer>, fork_block: u64) -> bool {
    forall|i: int| 0 <= i < ts.len() ==> (#[trigger] ts[i]).block > fork_block
}

/// Whether the values of all transfers are amounts, as those of records and of decoded events are.
pub open spec fn all_amounts(ts: Seq<Transfer>) -> bool {
    forall|i: int| 0 <= i < ts.len() ==> (#[trigger] ts[i]).value < amount_limit()
}

/// Whether a transfer is from or to the address with text `key`.
pub open spec fn touches(t: Transfer, key: Seq<char>) -> bool {
    address_text(t.from) == key || address_text(t.to) == key
}

/// Whether some transfer is from or to the address with text `key`.
pub open spec fn names(ts: Seq<Transfer>, key: Seq<char>) -> bool {
    exists|i: int| 0 <= i < ts.len() && touches(#[trigger] ts[i], key)
}

proof fn lemma_patched_concat(b: Balances, x: Seq<Transfer>, y: Seq<Transfer>)
    ensures
        patched(b, x + y) == patched(patched(b, x), y),
    decreases y.len(),
{
    if y.len() == 0 {
        assert(x + y =~= x);
    } else {
        assert((x + y).drop_last() =~= x + y.drop_last());
        assert((x + y).last() == y.last());
        lemma_patched_concat(b, x, y.drop_last());
    }
}

/// Appending nothing changes nothing.
pub proof fn law_append_nothing(tables: Tables)
    ensures
        appended(tables, Seq::empty()) == tables,
{
    assert(logged_all(Seq::empty()) =~= Seq::empty());
    assert(tables.transfers + Seq::<LoggedTransfer>::empty() =~= tables.transfers);
}

/// It does not matter in how many batches transfers are appended.
pub proof fn law_append_batches(tables: Tables, first: Seq<Transfer>, second: Seq<Transfer>)
    ensures
        appended(appended(tables, first), second) == appended(tables, first + second),
{
    let x = logged_all(first);
    let y = logged_all(second);
    assert(logged_all(first + second) =~= x + y);
    assert((tables.transfers + x) + y =~= tables.transfers + (x + y));
    lemma_patched_concat(tables.balances, first, second);
}

/// The event log is append-only: what it held stays, in its place.
pub proof fn law_append_keeps_log(tables: Tables, ts: Seq<Transfer>)
    ensures
        appended(tables, ts).transfers.take(tables.transfers.len() as int) == tables.transfers,
        appended(tables, ts).transfers.len() == tables.transfers.len() + ts.len(),
{
    assert(appended(tables, ts).transfers.take(tables.transfers.len() as int)
        =~= tables.transfers);
}

proof fn lemma_patch_local(b: Balances, ts: Seq<Transfer>, key: Seq<char>)
    requires
        !names(ts, key),
    ensures
        patched(b, ts).contains_key(key) == b.contains_key(key),
        b.contains_key(key) ==> patched(b, ts)[key] == b[key],
    decreases ts.len(),
{
    if ts.len() > 0 {
        let shorter = ts.drop_last();
        assert(!names(shorter, key)) by {
            if names(shorter, key) {
                let i = choose|i: int| 0 <= i < shorter.len() && touches(#[trigger] shorter[i], key);
                assert(ts[i] == shorter[i]);
            }
        }
        lemma_patch_local(b, shorter, key);
        assert(ts[ts.len() - 1] == ts.last());
    }
}

/// Appended transfers leave the row of an address alone that none of them names.
pub proof fn law_append_local(tables: Tables, ts: Seq<Transfer>, key: Seq<char>)
    requires
        !names(ts, key),
    ensures
        appended(tables, ts).balances.contains_key(key) == tables.balances.contains_key(key),
        tables.balances.contains_key(key) ==> appended(tables, ts).balances[key]
            == tables.balances[key],
{
    lemma_patch_local(tables.balances, ts, key);
}

/// Whether two tables hold the same row for `key`.
pub open spec fn agree(a: Balances, b: Balances, key: Seq<char>) -> bool {
    &&& a.contains_key(key) == b.contains_key(key)
    &&& a.contains_key(key) ==> a[key] == b[key]
}

proof fn lemma_patch_agrees(a: Balances, b: Balances, ts: Seq<Transfer>, keys: Set<Seq<char>>)
    requires
        forall|key: Seq<char>| #[trigger] keys.contains(key) ==> agree(a, b, key),
        forall|i: int|
            0 <= i < ts.len() ==> keys.contains(address_text((#[trigger] ts[i]).from))
                && keys.contains(address_text(ts[i].to)),
    ensures
        forall|key: Seq<char>| #[trigger]
            keys.contains(key) ==> agree(patched(a, ts), patched(b, ts), key),
    decreases ts.len(),
{
    if ts.len() > 0 {
        lemma_patch_agrees(a, b, ts.drop_last(), keys);
        let t = ts[ts.len() - 1];
        assert(keys.contains(address_text(t.from)) && keys.contains(address_text(t.to)));
        let pa = patched(a, ts.drop_last());
        let pb = patched(b, ts.drop_last());
        assert(agree(pa, pb, address_text(t.from)));
        assert(agree(pa, pb, address_text(t.to)));
        assert forall|key: Seq<char>| #[trigger] keys.contains(key) implies agree(
            patched(a, ts),
            patched(b, ts),
            key,
        ) by {
            assert(agree(pa, pb, key));
        }
    }
}

/// What appended transfers make of the balances of the addresses they name depends on the rows of
/// those addresses alone: two tables that agree on them still do afterwards.
pub proof fn law_append_reads_named_rows(a: Tables, b: Tables, ts: Seq<Transfer>, key: Seq<char>)
    requires
        forall|k: Seq<char>| #[trigger] names(ts, k) ==> agree(a.balances, b.balances, k),
        names(ts, key),
    ensures
        agree(appended(a, ts).balances, appended(b, ts).balances, key),
{
    let keys = Set::new(|k: Seq<char>| names(ts, k));
    assert forall|i: int| 0 <= i < ts.len() implies keys.contains(
        address_text((#[trigger] ts[i]).from),
    ) && keys.contains(address_text(ts[i].to)) by {
        assert(touches(ts[i], address_text(ts[i].from)));
        assert(touches(ts[i], address_text(ts[i].to)));
    }
    lemma_patch_agrees(a.balances, b.balances, ts, keys);
    assert(keys.contains(key));
}

proof fn lemma_survivors_concat(x: Seq<LoggedTransfer>, y: Seq<LoggedTransfer>, fork_block: u64)
    ensures
        survivors(x + y, fork_block) == survivors(x, fork_block) + survivors(y, fork_block),
{
    Seq::filter_distributes_over_add(x, y, |r: LoggedTransfer| r.block <= fork_block);
}

proof fn lemma_all_survive(log: Seq<LoggedTransfer>, fork_block: u64)
    requires
        all_up_to(log, fork_block),
    ensures
        survivors(log, fork_block) == log,
    decreases log.len(),
{
    reveal(Seq::filter);
    if log.len() > 0 {
        lemma_all_survive(log.drop_last(), fork_block);
        assert(log[log.len() - 1].block <= fork_block);
        assert(log.drop_last().push(log.last()) =~= log);
    } else {
        assert(survivors(log, fork_block) =~= log);
    }
}

proof fn lemma_none_survives(log: Seq<LoggedTransfer>, fork_block: u64)
    requires
        forall|i: int| 0 <= i < log.len() ==> (#[trigger] log[i]).block > fork_block,
    ensures
        survivors(log, fork_block) == Seq::<LoggedTransfer>::empty(),
    decreases log.len(),
{
    reveal(Seq::filter);
    if log.len() > 0 {
        lemma_none_survives(log.drop_last(), fork_block);
        assert(log[log.len() - 1].block > fork_block);
    }
}

proof fn lemma_survivors_twice(log: Seq<LoggedTransfer>, first: u64, second: u64)
    ensures
        survivors(survivors(log, first), second) == survivors(
            log,
            if first <= second {
                first
            } else {
                second
            },
        ),
    decreases log.len(),
{
    reveal(Seq::filter);
    if log.len() > 0 {
        lemma_survivors_twice(log.drop_last(), first, second);
        let kept = survivors(log.drop_last(), first);
        assert(kept.push(log.last()).drop_last() =~= kept);
    }
}

/// Two rollbacks do what the one that goes back further does.
pub proof fn law_rollback_twice(tables: Tables, first: u64, second: u64)
    ensures
        rolled_back(rolled_back(tables, first), second) == rolled_back(
            tables,
            if first <= second {
                first
            } else {
                second
            },
        ),
{
    lemma_survivors_twice(tables.transfers, first, second);
}

/// A rollback forgets what was appended after the fork: the tables are those that a rollback
/// without it would have left.
pub proof fn law_rollback_forgets(tables: Tables, ts: Seq<Transfer>, fork_block: u64)
    requires
        all_after(ts, fork_block),
    ensures
        rolled_back(appended(tables, ts), fork_block) == rolled_back(tables, fork_block),
{
    let added = logged_all(ts);
    assert forall|i: int| 0 <= i < added.len() implies (#[trigger] added[i]).block > fork_block by {
        assert(ts[i].block > fork_block);
    }
    lemma_none_survives(added, fork_block);
    lemma_survivors_concat(tables.transfers, added, fork_block);
    assert(survivors(tables.transfers, fork_block) + Seq::<LoggedTransfer>::empty() =~= survivors(
        tables.transfers,
        fork_block,
    ));
}

/// A rollback to before everything leaves an empty log and an empty balance table.
pub proof fn law_full_rollback_clears(tables: Tables, fork_block: u64)
    requires
        forall|i: int|
            0 <= i < tables.transfers.len() ==> (#[trigger] tables.transfers[i]).block > fork_block,
    ensures
        rolled_back(tables, fork_block).transfers == Seq::<LoggedTransfer>::empty(),
        rolled_back(tables, fork_block).balances == Map::<Seq<char>, StoredBalance>::empty(),
{
    lemma_none_survives(tables.transfers, fork_block);
    assert(rebuilt(Seq::empty()) =~= Map::<Seq<char>, StoredBalance>::empty());
}

/// The values of all rows of a log, without their signs.
pub open spec fn volume(log: Seq<LoggedTransfer>) -> nat
    decreases log.len(),
{
    if log.len() == 0 {
        0
    } else {
        let value = logged_value(log.last().value);
        volume(log.drop_last()) + (if value < 0 {
            -value
        } else {
            value
        }) as nat
    }
}

proof fn lemma_net_within_volume(log: Seq<LoggedTransfer>, key: Seq<char>)
    ensures
        net(log, key) <= volume(log),
    decreases log.len(),
{
    if log.len() > 0 {
        lemma_net_within_volume(log.drop_last(), key);
    }
}

/// A rollback succeeds where the rows it keeps move less than the largest amount in all.
pub proof fn law_rollback_succeeds(tables: Tables, fork_block: u64)
    requires
        volume(survivors(tables.transfers, fork_block)) < amount_limit(),
    ensures
        !overflows(survivors(tables.transfers, fork_block)),
{
    let log = survivors(tables.transfers, fork_block);
    assert forall|key: Seq<char>| #[trigger] net(log, key) < amount_limit() by {
        lemma_net_within_volume(log, key);
    }
}

/// What `moved` makes of one balance.
proof fn lemma_moved_balance(b: Balances, t: Transfer, key: Seq<char>)
    ensures
        ({
            let before = balance(b, key);
            let paid = if address_text(t.from) != key {
                before as int
            } else if before >= t.value {
                before - t.value
            } else {
                0
            };
            balance(moved(b, t), key) == if address_text(t.to) != key {
                paid
            } else if paid + t.value < amount_limit() {
                paid + t.value
            } else {
                amount_limit() - 1
            }
        }),
        readable(b) ==> readable(moved(b, t)),
{
    let from = address_text(t.from);
    let left = saturated_difference(balance(b, from), t.value);
    law_decimal_read_back(left);
    let debited = with_balance(b, from, left, t.block);
    law_decimal_read_back(saturated_sum(balance(debited, address_text(t.to)), t.value));
}

proof fn lemma_patch_faithful(log: Seq<LoggedTransfer>, b: Balances, ts: Seq<Transfer>)
    requires
        all_amounts(ts),
        forall|key: Seq<char>| backed(log, key) ==> #[trigger] balance(b, key) == held(log, key),
    ensures
        forall|key: Seq<char>|
            backed(log + logged_all(ts), key) ==> #[trigger] balance(patched(b, ts), key) == held(
                log + logged_all(ts),
                key,
            ),
    decreases ts.len(),
{
    let whole = log + logged_all(ts);
    if ts.len() == 0 {
        assert(whole =~= log);
    } else {
        let shorter = ts.drop_last();
        assert forall|i: int| 0 <= i < shorter.len() implies (#[trigger] shorter[i]).value
            < amount_limit() by {
            assert(ts[i].value < amount_limit());
        }
        lemma_patch_faithful(log, b, shorter);
        let t = ts[ts.len() - 1];
        assert(whole.drop_last() =~= log + logged_all(shorter));
        assert(whole.last() == logged(t));
        law_decimal_read_back(t.value);
        assert forall|key: Seq<char>| backed(whole, key) implies #[trigger] balance(
            patched(b, ts),
            key,
        ) == held(whole, key) by {
            assert(balance(patched(b, shorter), key) == held(whole.drop_last(), key));
            lemma_moved_balance(patched(b, shorter), t, key);
        }
    }
}

proof fn lemma_patch_readable(b: Balances, ts: Seq<Transfer>)
    requires
        readable(b),
    ensures
        readable(patched(b, ts)),
    decreases ts.len(),
{
    if ts.len() > 0 {
        lemma_patch_readable(b, ts.drop_last());
        lemma_moved_balance(patched(b, ts.drop_last()), ts.last(), Seq::empty());
    }
}

proof fn lemma_latest_bound(log: Seq<LoggedTransfer>, key: Seq<char>, bound: u64)
    requires
        all_up_to(log, bound),
    ensures
        latest(log, key) <= bound,
    decreases log.len(),
{
    if log.len() > 0 {
        lemma_latest_bound(log.drop_last(), key, bound);
        assert(log[log.len() - 1] == log.last());
    }
}

proof fn lemma_patch_dated(log: Seq<LoggedTransfer>, b: Balances, ts: Seq<Transfer>)
    requires
        ordered(log + logged_all(ts)),
        forall|key: Seq<char>| #[trigger] b.contains_key(key) ==> b[key].block == latest(log, key),
    ensures
        forall|key: Seq<char>| #[trigger]
            patched(b, ts).contains_key(key) ==> patched(b, ts)[key].block == latest(
                log + logged_all(ts),
                key,
            ),
    decreases ts.len(),
{
    let whole = log + logged_all(ts);
    if ts.len() == 0 {
        assert(whole =~= log);
    } else {
        let shorter = ts.drop_last();
        let t = ts.last();
        assert(whole.drop_last() =~= log + logged_all(shorter));
        assert(whole.last() == logged(t));
        assert(ordered(log + logged_all(shorter))) by {
            assert forall|i: int, j: int|
                0 <= i < j < whole.drop_last().len() implies (
            #[trigger] whole.drop_last()[i]).block <= (#[trigger] whole.drop_last()[j]).block by {
                assert(whole[i].block <= whole[j].block);
            }
        }
        lemma_patch_dated(log, b, shorter);
        assert forall|key: Seq<char>| #[trigger] patched(b, ts).contains_key(key) implies patched(
            b,
            ts,
        )[key].block == latest(whole, key) by {
            assert(all_up_to(whole.drop_last(), whole.last().block)) by {
                assert forall|i: int| 0 <= i < whole.drop_last().len() implies (
                #[trigger] whole.drop_last()[i]).block <= whole.last().block by {
                    assert(whole[i].block <= whole[whole.len() - 1].block);
                }
            }
            lemma_latest_bound(whole.drop_last(), key, whole.last().block);
            let before = patched(b, shorter);
            assert(patched(b, ts) == moved(before, t));
            if !touches(t, key) {
                assert(before.contains_key(key));
                assert(moved(before, t)[key] == before[key]);
            }
        }
    }
}

/// What every state of the index has: balances that follow from the log, that are numbers, and
/// that, as long as the blocks of the log ascend, are dated by their last change.
pub open spec fn sound(tables: Tables) -> bool {
    &&& faithful(tables)
    &&& readable(tables.balances)
    &&& ordered(tables.transfers) ==> dated(tables)
}

/// Empty tables are sound.
pub proof fn law_empty_is_sound(last_block: Option<u64>)
    ensures
        sound(Tables { transfers: Seq::empty(), balances: Map::empty(), last_block }),
{
}

/// The values of all records are amounts.
pub proof fn law_records_have_amounts(records: Seq<TransferRecord>)
    ensures
        all_amounts(transfers_of(records)),
{
    assert forall|i: int| 0 <= i < records.len() implies (#[trigger] transfers_of(
        records,
    )[i]).value < amount_limit() by {
        records[i].value.lemma_in_range();
    }
}

/// Appending transfers keeps the tables sound: the balances are patched to what the longer log
/// leaves.
pub proof fn law_append_keeps_sound(tables: Tables, ts: Seq<Transfer>)
    requires
        sound(tables),
        all_amounts(ts),
    ensures
        sound(appended(tables, ts)),
{
    lemma_patch_faithful(tables.transfers, tables.balances, ts);
    lemma_patch_readable(tables.balances, ts);
    let whole = tables.transfers + logged_all(ts);
    if ordered(whole) {
        assert(ordered(tables.transfers)) by {
            assert forall|i: int, j: int| 0 <= i < j < tables.transfers.len() implies (
            #[trigger] tables.transfers[i]).block <= (#[trigger] tables.transfers[j]).block by {
                assert(whole[i].block <= whole[j].block);
            }
        }
        lemma_patch_dated(tables.transfers, tables.balances, ts);
    }
}

/// A rollback that succeeds is exact: each balance is what the surviving events leave, and it is
/// dated by the last of them that names the address.
pub proof fn law_rollback_is_exact(tables: Tables, fork_block: u64, key: Seq<char>)
    requires
        !overflows(survivors(tables.transfers, fork_block)),
    ensures
        ({
            let log = survivors(tables.transfers, fork_block);
            let after = rolled_back(tables, fork_block);
            &&& balance(after.balances, key) == held(log, key)
            &&& answer(after.balances, key) == if held(log, key) > 0 {
                Ok::<Option<(nat, u64)>, DbError>(Some((held(log, key), latest(log, key))))
            } else {
                Ok::<Option<(nat, u64)>, DbError>(None)
            }
        }),
{
    let log = survivors(tables.transfers, fork_block);
    assert(net(log, key) < amount_limit());
    if net(log, key) > 0 {
        law_decimal_read_back(held(log, key));
    }
}

/// A rollback that succeeds leaves the tables sound, whatever they were.
pub proof fn law_rollback_makes_sound(tables: Tables, fork_block: u64)
    requires
        !overflows(survivors(tables.transfers, fork_block)),
    ensures
        sound(rolled_back(tables, fork_block)),
{
    let after = rolled_back(tables, fork_block);
    assert forall|key: Seq<char>| backed(after.transfers, key) implies #[trigger] balance(
        after.balances,
        key,
    ) == held(after.transfers, key) by {
        law_rollback_is_exact(tables, fork_block, key);
    }
    assert forall|key: Seq<char>| #[trigger] after.balances.contains_key(key) implies parsed(
        after.balances[key].amount,
    ) is Some by {
        law_rollback_is_exact(tables, fork_block, key);
    }
}

/// In sound tables every stored balance can be read.
pub proof fn law_sound_tables_answer(tables: Tables, key: Seq<char>)
    requires
        sound(tables),
    ensures
        answer(tables.balances, key) is Ok,
{
}

/// A rollback restores the balances at the fork. Let everything in the log be of the fork block or
/// an earlier one. Then, whatever is appended after it and rolled back again, the log is what it
/// was, and so is the balance of each address that the log backs; where the blocks of the log
/// ascend, so is the answer for it, except that a row with a zero balance goes.
pub proof fn law_rollback_restores(
    tables: Tables,
    ts: Seq<Transfer>,
    fork_block: u64,
    key: Seq<char>,
)
    requires
        sound(tables),
        all_up_to(tables.transfers, fork_block),
        all_after(ts, fork_block),
        !overflows(tables.transfers),
        backed(tables.transfers, key),
    ensures
        ({
            let after = rolled_back(appended(tables, ts), fork_block);
            &&& after.transfers == tables.transfers
            &&& after.last_block == tables.last_block
            &&& balance(after.balances, key) == balance(tables.balances, key)
            &&& after.balances.contains_key(key) <==> balance(tables.balances, key) > 0
            &&& ordered(tables.transfers) && balance(tables.balances, key) > 0 ==> answer(
                after.balances,
                key,
            ) == answer(tables.balances, key)
        }),
{
    law_rollback_forgets(tables, ts, fork_block);
    lemma_all_survive(tables.transfers, fork_block);
    law_rollback_is_exact(tables, fork_block, key);
    assert(balance(tables.balances, key) == held(tables.transfers, key));
}

/// How many numbers `n` bytes can write.
spec fn span(n: nat) -> nat
    decreases n,
{
    if n == 0 {
        1
    } else {
        256 * span((n - 1) as nat)
    }
}

proof fn lemma_be_value_bound(bytes: Seq<u8>)
    ensures
        be_value(bytes) < span(bytes.len()),
    decreases bytes.len(),
{
    if bytes.len() > 0 {
        lemma_be_value_bound(bytes.drop_last());
    }
}

/// The value of a decoded event is an amount: 32 bytes write none that is larger.
proof fn lemma_word_is_amount(data: Seq<u8>)
    requires
        data.len() == 32,
    ensures
        be_value(data) < amount_limit(),
{
    lemma_be_value_bound(data);
    reveal_with_fuel(span, 33);
}

proof fn lemma_log_transfers(logs: Seq<Log>, block: u64)
    ensures
        all_amounts(log_transfers(logs, block)),
        forall|i: int|
            0 <= i < log_transfers(logs, block).len() ==> (#[trigger] log_transfers(
                logs,
                block,
            )[i]).block == block,
    decreases logs.len(),
{
    if logs.len() > 0 {
        lemma_log_transfers(logs.drop_last(), block);
        if logs.last().data@.len() == 32 {
            lemma_word_is_amount(logs.last().data@);
        }
        let before = log_transfers(logs.drop_last(), block);
        let ts = log_transfers(logs, block);
        assert forall|i: int| 0 <= i < ts.len() implies (#[trigger] ts[i]).block == block
            && ts[i].value < amount_limit() by {
            if i < before.len() {
                assert(ts[i] == before[i]);
            }
        }
    }
}

proof fn lemma_receipt_transfers(receipts: Seq<Receipt>, block: u64)
    ensures
        all_amounts(receipt_transfers(receipts, block)),
        forall|i: int|
            0 <= i < receipt_transfers(receipts, block).len() ==> (#[trigger] receipt_transfers(
                receipts,
                block,
            )[i]).block == block,
    decreases receipts.len(),
{
    if receipts.len() > 0 {
        lemma_receipt_transfers(receipts.drop_last(), block);
        lemma_log_transfers(receipts.last().logs@, block);
        let before = receipt_transfers(receipts.drop_last(), block);
        let added = log_transfers(receipts.last().logs@, block);
        let ts = receipt_transfers(receipts, block);
        assert forall|i: int| 0 <= i < ts.len() implies (#[trigger] ts[i]).block == block
            && ts[i].value < amount_limit() by {
            if i < before.len() {
                assert(ts[i] == before[i]);
            } else {
                assert(ts[i] == added[i - before.len()]);
            }
        }
    }
}

/// The values of all transfers of a chain are amounts.
pub proof fn law_extraction_gives_amounts(blocks: Seq<Block>)
    ensures
        all_amounts(block_transfers(blocks)),
    decreases blocks.len(),
{
    if blocks.len() > 0 {
        law_extraction_gives_amounts(blocks.drop_last());
        lemma_receipt_transfers(paired_receipts(blocks.last()), blocks.last().number);
        let before = block_transfers(blocks.drop_last());
        let added = receipt_transfers(paired_receipts(blocks.last()), blocks.last().number);
        let ts = block_transfers(blocks);
        assert forall|i: int| 0 <= i < ts.len() implies (#[trigger] ts[i]).value
            < amount_limit() by {
            if i < before.len() {
                assert(ts[i] == before[i]);
            } else {
                assert(ts[i] == added[i - before.len()]);
            }
        }
    }
}

/// Whether the numbers of blocks ascend.
pub open spec fn ascending(blocks: Seq<Block>) -> bool {
    forall|i: int, j: int|
        0 <= i < j < blocks.len() ==> (#[trigger] blocks[i]).number < (#[trigger] blocks[j]).number
}

/// The transfers of a chain come in block order, and each is of one of the blocks.
pub proof fn law_extraction_keeps_block_order(blocks: Seq<Block>)
    requires
        ascending(blocks),
    ensures
        forall|i: int|
            0 <= i < block_transfers(blocks).len() ==> blocks[0].number <= (
            #[trigger] block_transfers(blocks)[i]).block <= blocks.last().number,
        forall|i: int, j: int|
            0 <= i < j < block_transfers(blocks).len() ==> (#[trigger] block_transfers(
                blocks,
            )[i]).block <= (#[trigger] block_transfers(blocks)[j]).block,
    decreases blocks.len(),
{
    if blocks.len() > 0 {
        let shorter = blocks.drop_last();
        assert forall|i: int, j: int| 0 <= i < j < shorter.len() implies (
        #[trigger] shorter[i]).number < (#[trigger] shorter[j]).number by {
            assert(blocks[i].number < blocks[j].number);
        }
        law_extraction_keeps_block_order(shorter);
        lemma_receipt_transfers(paired_receipts(blocks.last()), blocks.last().number);
        if shorter.len() > 0 {
            assert(blocks[0] == shorter[0]);
            assert(blocks[shorter.len() - 1] == shorter.last());
            assert(blocks[shorter.len() - 1].number < blocks[blocks.len() - 1].number);
        }
        let before = block_transfers(shorter);
        let added = receipt_transfers(paired_receipts(blocks.last()), blocks.last().number);
        let ts = block_transfers(blocks);
        assert(ts == before + added);
        assert(shorter.len() == 0 ==> before.len() == 0);
        assert forall|i: int| 0 <= i < ts.len() implies blocks[0].number <= (
        #[trigger] ts[i]).block <= blocks.last().number && (i < before.len() ==> ts[i]
            == before[i]) && (i >= before.len() ==> ts[i].block == blocks.last().number) by {
            if i < before.len() {
                assert(ts[i] == before[i]);
            } else {
                assert(ts[i] == added[i - before.len()]);
            }
        }
    }
}

/// A notification that is handled without an error keeps the tables sound: so they are after every
/// run of notifications, whatever reorganizations it holds.
pub proof fn law_notification_keeps_sound(tables: Tables, notification: Notification)
    requires
        sound(tables),
        !notification.fails(tables),
    ensures
        sound(notification.applied(tables)),
{
    match notification {
        Notification::ChainCommitted { new } => {
            law_extraction_gives_amounts(new.blocks@);
            law_append_keeps_sound(tables, new.transfers());
        },
        Notification::ChainReorged { old, new } => {
            law_rollback_makes_sound(tables, old.fork_block());
            law_extraction_gives_amounts(new.blocks@);
            law_append_keeps_sound(rolled_back(tables, old.fork_block()), new.transfers());
        },
        Notification::ChainReverted { old } => {
            law_rollback_makes_sound(tables, old.fork_block());
        },
    }
}

/// A reorganization is a reversal of the old chain followed by a commit of the new one.
pub proof fn law_reorg_is_revert_and_commit(tables: Tables, old: Chain, new: Chain)
    requires
        new.tip() is Some,
    ensures
        reorged(tables, old, new) == committed(reverted(tables, old), new),
{
}

/// A reversal undoes a commit: the log is again what it was before the chain, and the tables are
/// those that a rollback without it would have left.
pub proof fn law_revert_undoes_commit(tables: Tables, chain: Chain)
    requires
        chain.blocks@.len() > 0,
        chain.blocks@[0].number > 0,
        ascending(chain.blocks@),
        all_up_to(tables.transfers, chain.fork_block()),
    ensures
        reverted(committed(tables, chain), chain).transfers == tables.transfers,
        reverted(committed(tables, chain), chain).balances == rolled_back(
            tables,
            chain.fork_block(),
        ).balances,
        reverted(committed(tables, chain), chain).last_block == Some(chain.fork_block()),
{
    law_extraction_keeps_block_order(chain.blocks@);
    law_rollback_forgets(tables, chain.transfers(), chain.fork_block());
    lemma_all_survive(tables.transfers, chain.fork_block());
    assert(survivors(committed(tables, chain).transfers, chain.fork_block()) == survivors(
        appended(tables, chain.transfers()).transfers,
        chain.fork_block(),
    ));
}

/// A reorganization counts nothing twice and loses nothing: after the old chain was committed and
/// then replaced, the log is what it would be had only the new chain been committed, and so is the
/// balance of each address that this log backs.
pub proof fn law_reorg_forgets_old_chain(tables: Tables, old: Chain, new: Chain, key: Seq<char>)
    requires
        sound(tables),
        old.blocks@.len() > 0,
        old.blocks@[0].number > 0,
        ascending(old.blocks@),
        all_up_to(tables.transfers, old.fork_block()),
        !overflows(tables.transfers),
    ensures
        ({
            let after = reorged(committed(tables, old), old, new);
            let direct = committed(tables, new);
            &&& sound(after)
            &&& after.transfers == direct.transfers
            &&& backed(direct.transfers, key) ==> balance(after.balances, key) == balance(
                direct.balances,
                key,
            )
            &&& backed(direct.transfers, key) ==> balance(after.balances, key) == held(
                direct.transfers,
                key,
            )
        }),
{
    let fork_block = old.fork_block();
    law_revert_undoes_commit(tables, old);
    let back = rolled_back(committed(tables, old), fork_block);
    lemma_all_survive(tables.transfers, fork_block);
    assert(back.transfers == tables.transfers);
    law_rollback_makes_sound(committed(tables, old), fork_block);
    law_extraction_gives_amounts(new.blocks@);
    law_append_keeps_sound(back, new.transfers());
    law_append_keeps_sound(tables, new.transfers());
    assert(faithful(appended(back, new.transfers())));
    assert(faithful(appended(tables, new.transfers())));
    let after = reorged(committed(tables, old), old, new);
    let direct = committed(tables, new);
    assert(after.balances == appended(back, new.transfers()).balances);
    assert(direct.balances == appended(tables, new.transfers()).balances);
    assert(sound(after));
}

/// The canonical blocks before those of `old`.
pub open spec fn blocks_before(blocks: Seq<Block>, old: Chain) -> Seq<Block> {
    blocks.filter(|b: Block| b.number < old.blocks@[0].number)
}

/// The canonical blocks after a notification.
pub open spec fn canonical_after(blocks: Seq<Block>, notification: Notification) -> Seq<Block> {
    match notification {
        Notification::ChainCommitted { new } => blocks + new.blocks@,
        Notification::ChainReorged { old, new } => blocks_before(blocks, old) + new.blocks@,
        Notification::ChainReverted { old } => blocks_before(blocks, old),
    }
}

/// Whether what a notification takes away has a first block, and that is not the genesis block.
pub open spec fn takes_blocks(notification: Notification) -> bool {
    match notification {
        Notification::ChainCommitted { new } => true,
        Notification::ChainReorged { old, new } => old.blocks@.len() > 0 && old.blocks@[0].number
            > 0,
        Notification::ChainReverted { old } => old.blocks@.len() > 0 && old.blocks@[0].number > 0,
    }
}

proof fn lemma_block_transfers_concat(x: Seq<Block>, y: Seq<Block>)
    ensures
        block_transfers(x + y) == block_transfers(x) + block_transfers(y),
    decreases y.len(),
{
    if y.len() == 0 {
        assert(x + y =~= x);
        assert(block_transfers(x) + block_transfers(y) =~= block_transfers(x));
    } else {
        assert((x + y).drop_last() =~= x + y.drop_last());
        assert((x + y).last() == y.last());
        lemma_block_transfers_concat(x, y.drop_last());
        assert(block_transfers(x + y) =~= block_transfers(x) + block_transfers(y));
    }
}

/// The rows that survive a rollback to the block before `old` are those of the blocks before it.
proof fn lemma_survivors_of_blocks(blocks: Seq<Block>, old: Chain)
    requires
        old.blocks@.len() > 0,
        old.blocks@[0].number > 0,
    ensures
        survivors(logged_all(block_transfers(blocks)), old.fork_block()) == logged_all(
            block_transfers(blocks_before(blocks, old)),
        ),
    decreases blocks.len(),
{
    reveal(Seq::filter);
    let fork_block = old.fork_block();
    if blocks.len() == 0 {
        assert(blocks_before(blocks, old) =~= Seq::empty());
        lemma_none_survives(logged_all(block_transfers(blocks)), fork_block);
        assert(logged_all(block_transfers(blocks)) =~= Seq::empty());
    } else {
        let shorter = blocks.drop_last();
        let block = blocks.last();
        lemma_survivors_of_blocks(shorter, old);
        let x = logged_all(block_transfers(shorter));
        let added = receipt_transfers(paired_receipts(block), block.number);
        let y = logged_all(added);
        assert(logged_all(block_transfers(blocks)) =~= x + y);
        lemma_survivors_concat(x, y, fork_block);
        lemma_receipt_transfers(paired_receipts(block), block.number);
        assert forall|i: int| 0 <= i < y.len() implies (#[trigger] y[i]).block == block.number by {
            assert(added[i].block == block.number);
        }
        let kept = blocks_before(shorter, old);
        if block.number < old.blocks@[0].number {
            lemma_all_survive(y, fork_block);
            assert(kept.push(block).drop_last() =~= kept);
            assert(logged_all(block_transfers(kept.push(block))) =~= logged_all(
                block_transfers(kept),
            ) + y);
        } else {
            lemma_none_survives(y, fork_block);
            assert(survivors(x, fork_block) + survivors(y, fork_block) =~= survivors(
                x,
                fork_block,
            ));
        }
    }
}

/// The event log follows the canonical chain: where it holds the transfers of the canonical blocks,
/// it does so after each notification that is handled without an error.
pub proof fn law_log_follows_chain(
    tables: Tables,
    blocks: Seq<Block>,
    notification: Notification,
)
    requires
        tables.transfers == logged_all(block_transfers(blocks)),
        takes_blocks(notification),
    ensures
        notification.applied(tables).transfers == logged_all(
            block_transfers(canonical_after(blocks, notification)),
        ),
{
    match notification {
        Notification::ChainCommitted { new } => {
            lemma_block_transfers_concat(blocks, new.blocks@);
            assert(logged_all(block_transfers(blocks) + new.transfers()) =~= tables.transfers
                + logged_all(new.transfers()));
        },
        Notification::ChainReorged { old, new } => {
            lemma_survivors_of_blocks(blocks, old);
            let kept = blocks_before(blocks, old);
            lemma_block_transfers_concat(kept, new.blocks@);
            assert(logged_all(block_transfers(kept) + new.transfers()) =~= logged_all(
                block_transfers(kept),
            ) + logged_all(new.transfers()));
        },
        Notification::ChainReverted { old } => {
            lemma_survivors_of_blocks(blocks, old);
        },
    }
}

/// The empty tables, from which an index starts.
pub open spec fn no_tables() -> Tables {
    Tables { transfers: Seq::empty(), balances: Map::empty(), last_block: None }
}

/// The tables after a run of notifications from empty tables.
pub open spec fn followed(run: Seq<Notification>) -> Tables
    decreases run.len(),
{
    if run.len() == 0 {
        no_tables()
    } else {
        run.last().applied(followed(run.drop_last()))
    }
}

/// The canonical blocks after a run of notifications.
pub open spec fn canonical(run: Seq<Notification>) -> Seq<Block>
    decreases run.len(),
{
    if run.len() == 0 {
        Seq::empty()
    } else {
        canonical_after(canonical(run.drop_last()), run.last())
    }
}

/// Whether no notification of a run fails, each has a tip, and each takes away what it can.
pub open spec fn proper(run: Seq<Notification>) -> bool
    decreases run.len(),
{
    if run.len() == 0 {
        true
    } else {
        &&& proper(run.drop_last())
        &&& run.last().has_tip()
        &&& takes_blocks(run.last())
        &&& !run.last().fails(followed(run.drop_last()))
    }
}

/// The index stays correct across reorganizations. After any run of notifications the event log
/// holds the transfers of the canonical blocks, in order; each balance of an address that this log
/// backs is what the log leaves it; every stored balance can be read; and the last block is the
/// finished height.
pub proof fn law_index_stays_correct(run: Seq<Notification>, key: Seq<char>)
    requires
        proper(run),
    ensures
        ({
            let tables = followed(run);
            &&& sound(tables)
            &&& tables.transfers == logged_all(block_transfers(canonical(run)))
            &&& backed(tables.transfers, key) ==> balance(tables.balances, key) == held(
                tables.transfers,
                key,
            )
            &&& answer(tables.balances, key) is Ok
            &&& run.len() > 0 ==> tables.last_block == Some(run.last().finished_height())
        }),
    decreases run.len(),
{
    if run.len() == 0 {
        law_empty_is_sound(None);
        assert(logged_all(block_transfers(Seq::empty())) =~= Seq::empty());
    } else {
        law_index_stays_correct(run.drop_last(), key);
        let tables = followed(run.drop_last());
        law_notification_keeps_sound(tables, run.last());
        law_log_follows_chain(tables, canonical(run.drop_last()), run.last());
    }
}

} // verus!
