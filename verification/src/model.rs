//! The store as a mathematical value: a map from keys to sequences of values,
//! what each command does to it, and what it answers.

use crate::codec::{Command, ReplyView, STATUS_NOT_FOUND, STATUS_OK};
use vstd::prelude::*;

verus! {

/// The store that holds no key.
pub open spec fn empty_store() -> Map<u8, Seq<u32>> {
    Map::empty()
}

/// No key is kept with an empty sequence: a key is present exactly while it
/// holds at least one value.
pub open spec fn well_formed(m: Map<u8, Seq<u32>>) -> bool {
    forall|k: u8| #[trigger] m.contains_key(k) ==> m[k].len() > 0
}

/// The values held under `key`, the empty sequence where the key is absent.
pub open spec fn values_of(m: Map<u8, Seq<u32>>, key: u8) -> Seq<u32> {
    if m.contains_key(key) {
        m[key]
    } else {
        Seq::empty()
    }
}

/// What a `Get` of `key` sees: the key's sequence, or nothing.
pub open spec fn lookup(m: Map<u8, Seq<u32>>, key: u8) -> Option<Seq<u32>> {
    if m.contains_key(key) {
        Some(m[key])
    } else {
        None
    }
}

/// The store after `value` was appended under `key`.
pub open spec fn after_set(m: Map<u8, Seq<u32>>, key: u8, value: u32) -> Map<u8, Seq<u32>> {
    m.insert(key, values_of(m, key).push(value))
}

/// `entries` lists `m`: every entry is a key of `m` with that key's sequence,
/// no key is listed twice, and every key of `m` is listed. Nothing is said of
/// the order of the entries.
pub open spec fn is_listing_of(entries: Seq<(u8, Seq<u32>)>, m: Map<u8, Seq<u32>>) -> bool {
    &&& forall|i: int|
        0 <= i < entries.len() ==> m.contains_key((#[trigger] entries[i]).0) && m[entries[i].0]
            == entries[i].1
    &&& forall|i: int, j: int|
        0 <= i < j < entries.len() ==> (#[trigger] entries[i]).0 != (#[trigger] entries[j]).0
    &&& forall|k: u8| #[trigger]
        m.contains_key(k) ==> exists|i: int| 0 <= i < entries.len() && (#[trigger] entries[i]).0 == k
}

/// The store after one command.
pub open spec fn next_state(m: Map<u8, Seq<u32>>, command: Command) -> Map<u8, Seq<u32>> {
    match command {
        Command::SetValue { key, value } => after_set(m, key, value),
        Command::Get { key } => m,
        Command::DeleteByKey { key } => m.remove(key),
        Command::DeleteAll => empty_store(),
        Command::ListAll => m,
    }
}

/// `reply` is an answer that the store in state `m` gives to `command`. Every
/// command but `ListAll` has exactly one answer; a `ListAll` may be answered
/// with the entries in any order.
pub open spec fn is_reply_to(m: Map<u8, Seq<u32>>, command: Command, reply: ReplyView) -> bool {
    match command {
        Command::SetValue { key, value } => reply == ReplyView::Status(STATUS_OK),
        Command::Get { key } => reply == ReplyView::Get(lookup(m, key)),
        Command::DeleteByKey { key } => reply == ReplyView::Status(
            if m.contains_key(key) {
                STATUS_OK
            } else {
                STATUS_NOT_FOUND
            },
        ),
        Command::DeleteAll => reply == ReplyView::Status(STATUS_OK),
        Command::ListAll => reply matches ReplyView::ListAll(entries) && is_listing_of(entries, m),
    }
}

/// The store after the commands of `commands` were applied to `m` one at a
/// time, in order.
pub open spec fn run(m: Map<u8, Seq<u32>>, commands: Seq<Command>) -> Map<u8, Seq<u32>>
    decreases commands.len(),
{
    if commands.len() == 0 {
        m
    } else {
        next_state(run(m, commands.drop_last()), commands.last())
    }
}

/// Every command keeps the store well formed, and the empty store is well
/// formed.
pub proof fn lemma_well_formed_is_kept(m: Map<u8, Seq<u32>>, command: Command)
    requires
        well_formed(m),
    ensures
        well_formed(next_state(m, command)),
        well_formed(empty_store()),
{
}

/// A store reached from a well-formed store by any commands is well formed.
pub proof fn lemma_run_is_well_formed(m: Map<u8, Seq<u32>>, commands: Seq<Command>)
    requires
        well_formed(m),
    ensures
        well_formed(run(m, commands)),
    decreases commands.len(),
{
    if commands.len() > 0 {
        lemma_run_is_well_formed(m, commands.drop_last());
        lemma_well_formed_is_kept(run(m, commands.drop_last()), commands.last());
    }
}

/// After a value is set under a key, a `Get` of that key finds a sequence that
/// ends in that value and is one longer than what the key held before; the
/// values that were there stay in front, in their order. No other key changes.
pub proof fn lemma_set_then_get(m: Map<u8, Seq<u32>>, key: u8, value: u32)
    ensures
        lookup(after_set(m, key, value), key) == Some(values_of(m, key).push(value)),
        values_of(after_set(m, key, value), key).last() == value,
        values_of(after_set(m, key, value), key).len() == values_of(m, key).len() + 1,
        values_of(after_set(m, key, value), key).drop_last() == values_of(m, key),
        forall|other: u8| other != key ==> lookup(after_set(m, key, value), other) == lookup(m, other),
{
    assert(values_of(m, key).push(value).drop_last() =~= values_of(m, key));
}

/// `key` is not set by any command of `commands`.
pub open spec fn never_sets(commands: Seq<Command>, key: u8) -> bool {
    forall|i: int|
        0 <= i < commands.len() ==> !(#[trigger] commands[i] matches Command::SetValue {
            key: k,
            ..
        } && k == key)
}

/// A key that is absent stays absent while no command sets it.
pub proof fn lemma_absent_until_set(m: Map<u8, Seq<u32>>, commands: Seq<Command>, key: u8)
    requires
        !m.contains_key(key),
        never_sets(commands, key),
    ensures
        lookup(run(m, commands), key) is None,
    decreases commands.len(),
{
    if commands.len() > 0 {
        let front = commands.drop_last();
        assert forall|i: int| 0 <= i < front.len() implies !(#[trigger] front[i] matches Command::SetValue {
            key: k,
            ..
        } && k == key) by {
            assert(front[i] == commands[i]);
        }
        lemma_absent_until_set(m, front, key);
        assert(commands[commands.len() - 1] == commands.last());
    }
}

/// A `Get` finds nothing for a key that was never set, for a key that was
/// removed by `DeleteByKey` and for any key after `DeleteAll`, whatever
/// commands follow that do not set the key again.
pub proof fn lemma_get_not_found(m: Map<u8, Seq<u32>>, commands: Seq<Command>, key: u8)
    requires
        never_sets(commands, key),
    ensures
        lookup(run(empty_store(), commands), key) is None,
        lookup(run(next_state(m, Command::DeleteByKey { key }), commands), key) is None,
        lookup(run(next_state(m, Command::DeleteAll), commands), key) is None,
{
    lemma_absent_until_set(empty_store(), commands, key);
    lemma_absent_until_set(next_state(m, Command::DeleteByKey { key }), commands, key);
    lemma_absent_until_set(next_state(m, Command::DeleteAll), commands, key);
}

/// `DeleteByKey` of an absent key is answered with `STATUS_NOT_FOUND` and
/// leaves the store as it was.
pub proof fn lemma_delete_absent_key(m: Map<u8, Seq<u32>>, key: u8, reply: ReplyView)
    requires
        !m.contains_key(key),
        is_reply_to(m, Command::DeleteByKey { key }, reply),
    ensures
        reply == ReplyView::Status(STATUS_NOT_FOUND),
        next_state(m, Command::DeleteByKey { key }) == m,
{
    assert(m.remove(key) =~= m);
}

/// `DeleteAll` empties any store and is answered with `STATUS_OK`, also on
/// an empty store; applying it once more changes nothing.
pub proof fn lemma_delete_all_is_idempotent(m: Map<u8, Seq<u32>>, reply: ReplyView)
    requires
        is_reply_to(empty_store(), Command::DeleteAll, reply),
    ensures
        reply == ReplyView::Status(STATUS_OK),
        next_state(empty_store(), Command::DeleteAll) == empty_store(),
        next_state(next_state(m, Command::DeleteAll), Command::DeleteAll) == next_state(
            m,
            Command::DeleteAll,
        ),
{
}

/// A listing of the empty store has no entries.
pub proof fn lemma_listing_of_empty(entries: Seq<(u8, Seq<u32>)>)
    requires
        is_listing_of(entries, empty_store()),
    ensures
        entries.len() == 0,
{
    if entries.len() > 0 {
        assert(empty_store().contains_key(entries[0].0));
    }
}

/// The number of entries of a listing is the number of keys in the store, and
/// a store that has a listing has finitely many keys.
pub proof fn lemma_listing_len(entries: Seq<(u8, Seq<u32>)>, m: Map<u8, Seq<u32>>)
    requires
        is_listing_of(entries, m),
    ensures
        m.dom().finite(),
        m.dom().len() == entries.len(),
    decreases entries.len(),
{
    if entries.len() == 0 {
        assert(m.dom() =~= Set::<u8>::empty()) by {
            assert forall|k: u8| !m.dom().contains(k) by {
                if m.contains_key(k) {
                    let i = choose|i: int| 0 <= i < entries.len() && (#[trigger] entries[i]).0 == k;
                }
            }
        }
    } else {
        let key = entries.last().0;
        lemma_listing_drop_last(entries, m);
        lemma_listing_len(entries.drop_last(), m.remove(key));
        assert(m.contains_key(entries[entries.len() - 1].0));
        assert(m.dom() =~= m.remove(key).dom().insert(key));
    }
}

/// A listing without its last entry lists the store without that entry's key.
pub proof fn lemma_listing_drop_last(entries: Seq<(u8, Seq<u32>)>, m: Map<u8, Seq<u32>>)
    requires
        is_listing_of(entries, m),
        entries.len() > 0,
    ensures
        is_listing_of(entries.drop_last(), m.remove(entries.last().0)),
{
    let n = entries.len() - 1;
    let key = entries[n].0;
    let front = entries.drop_last();
    let rest = m.remove(key);
    assert forall|i: int| 0 <= i < front.len() implies rest.contains_key((#[trigger] front[i]).0)
        && rest[front[i].0] == front[i].1 by {
        assert(front[i] == entries[i]);
        assert(entries[i].0 != entries[n].0);
    }
    assert forall|i: int, j: int| 0 <= i < j < front.len() implies (#[trigger] front[i]).0 != (
    #[trigger] front[j]).0 by {
        assert(front[i] == entries[i]);
        assert(front[j] == entries[j]);
    }
    assert forall|k: u8| #[trigger] rest.contains_key(k) implies exists|i: int|
        0 <= i < front.len() && (#[trigger] front[i]).0 == k by {
        assert(m.contains_key(k));
        let i = choose|i: int| 0 <= i < entries.len() && (#[trigger] entries[i]).0 == k;
        assert(i != n);
        assert(front[i] == entries[i]);
    }
}

/// Entries with pairwise distinct keys that all lie below `bound` are at most
/// `bound` in number.
proof fn lemma_distinct_keys_below(entries: Seq<(u8, Seq<u32>)>, bound: int)
    requires
        0 <= bound,
        forall|i: int| 0 <= i < entries.len() ==> (#[trigger] entries[i]).0 < bound,
        forall|i: int, j: int|
            0 <= i < j < entries.len() ==> (#[trigger] entries[i]).0 != (#[trigger] entries[j]).0,
    ensures
        entries.len() <= bound,
    decreases bound,
{
    if entries.len() > 0 {
        assert(entries[0].0 < bound);
        if exists|i: int| 0 <= i < entries.len() && (#[trigger] entries[i]).0 == bound - 1 {
            let at = choose|i: int| 0 <= i < entries.len() && (#[trigger] entries[i]).0 == bound - 1;
            let others = entries.remove(at);
            assert forall|i: int| 0 <= i < others.len() implies (#[trigger] others[i]).0 < bound
                - 1 by {
                let from = if i < at {
                    i
                } else {
                    i + 1
                };
                assert(others[i] == entries[from]);
                assert(entries[from].0 != entries[at].0);
            }
            assert forall|i: int, j: int| 0 <= i < j < others.len() implies (
            #[trigger] others[i]).0 != (#[trigger] others[j]).0 by {
                let from_i = if i < at {
                    i
                } else {
                    i + 1
                };
                let from_j = if j < at {
                    j
                } else {
                    j + 1
                };
                assert(others[i] == entries[from_i]);
                assert(others[j] == entries[from_j]);
            }
            lemma_distinct_keys_below(others, bound - 1);
        } else {
            assert forall|i: int| 0 <= i < entries.len() implies (#[trigger] entries[i]).0 < bound
                - 1 by {
                assert(entries[i].0 < bound);
            }
            lemma_distinct_keys_below(entries, bound - 1);
        }
    }
}

/// A listing has at most 256 entries, one for each key there is.
pub proof fn lemma_listing_at_most_256(entries: Seq<(u8, Seq<u32>)>, m: Map<u8, Seq<u32>>)
    requires
        is_listing_of(entries, m),
    ensures
        entries.len() <= 256,
{
    lemma_distinct_keys_below(entries, 256);
}

/// The number of values held under the keys below `bound`.
pub open spec fn stored_below(m: Map<u8, Seq<u32>>, bound: nat) -> nat
    decreases bound,
{
    if bound == 0 {
        0
    } else {
        stored_below(m, (bound - 1) as nat) + values_of(m, (bound - 1) as u8).len()
    }
}

/// The number of values in the store, over all keys.
pub open spec fn stored_values(m: Map<u8, Seq<u32>>) -> nat {
    stored_below(m, 256)
}

/// The number of values that a listing reports, over all its entries.
pub open spec fn reported_values(entries: Seq<(u8, Seq<u32>)>) -> nat
    decreases entries.len(),
{
    if entries.len() == 0 {
        0
    } else {
        reported_values(entries.drop_last()) + entries.last().1.len()
    }
}

/// The number of `SetValue` commands in `commands`.
pub open spec fn sets_applied(commands: Seq<Command>) -> nat
    decreases commands.len(),
{
    if commands.len() == 0 {
        0
    } else {
        sets_applied(commands.drop_last()) + if commands.last() is SetValue {
            1nat
        } else {
            0nat
        }
    }
}

/// The number of values that the deletions in `commands` removed when the
/// commands were applied to `m` in order: a `DeleteByKey` removes what its
/// key held at that moment, a `DeleteAll` what the whole store held.
pub open spec fn values_removed(m: Map<u8, Seq<u32>>, commands: Seq<Command>) -> nat
    decreases commands.len(),
{
    if commands.len() == 0 {
        0
    } else {
        let before = run(m, commands.drop_last());
        values_removed(m, commands.drop_last()) + match commands.last() {
            Command::DeleteByKey { key } => values_of(before, key).len(),
            Command::DeleteAll => stored_values(before),
            _ => 0nat,
        }
    }
}

/// Giving `key` the sequence `values` changes the count below `bound` by the
/// change in that key's length, if the key is below `bound`.
pub proof fn lemma_stored_below_insert(
    m: Map<u8, Seq<u32>>,
    key: u8,
    values: Seq<u32>,
    bound: nat,
)
    requires
        bound <= 256,
    ensures
        stored_below(m.insert(key, values), bound) == stored_below(m, bound) + if key < bound {
            values.len() - values_of(m, key).len()
        } else {
            0
        },
    decreases bound,
{
    if bound > 0 {
        lemma_stored_below_insert(m, key, values, (bound - 1) as nat);
    }
}

/// Removing `key` lowers the count below `bound` by what the key held, if the
/// key is below `bound`.
pub proof fn lemma_stored_below_remove(m: Map<u8, Seq<u32>>, key: u8, bound: nat)
    requires
        bound <= 256,
    ensures
        stored_below(m.remove(key), bound) == stored_below(m, bound) - if key < bound {
            values_of(m, key).len() as int
        } else {
            0
        },
    decreases bound,
{
    if bound > 0 {
        lemma_stored_below_remove(m, key, (bound - 1) as nat);
    }
}

/// The empty store holds no value.
pub proof fn lemma_stored_below_empty(bound: nat)
    ensures
        stored_below(empty_store(), bound) == 0,
    decreases bound,
{
    if bound > 0 {
        lemma_stored_below_empty((bound - 1) as nat);
    }
}

/// What a listing reports in total is what the store holds in total.
pub proof fn lemma_listing_reports_stored(entries: Seq<(u8, Seq<u32>)>, m: Map<u8, Seq<u32>>)
    requires
        is_listing_of(entries, m),
    ensures
        reported_values(entries) == stored_values(m),
    decreases entries.len(),
{
    if entries.len() == 0 {
        lemma_listing_len(entries, m);
        assert(m =~= empty_store()) by {
            assert forall|k: u8| !m.dom().contains(k) by {
                if m.dom().contains(k) {
                    assert(m.dom().len() > 0);
                }
            }
        }
        lemma_stored_below_empty(256);
    } else {
        let last = entries[entries.len() - 1];
        lemma_listing_drop_last(entries, m);
        lemma_listing_reports_stored(entries.drop_last(), m.remove(last.0));
        lemma_stored_below_remove(m, last.0, 256);
    }
}

/// One command changes the number of stored values by what it adds or
/// removes: a `SetValue` adds one, a `DeleteByKey` removes what its key held,
/// a `DeleteAll` removes everything, a `Get` or `ListAll` changes nothing.
pub proof fn lemma_stored_values_step(m: Map<u8, Seq<u32>>, command: Command)
    ensures
        stored_values(next_state(m, command)) == match command {
            Command::SetValue { key, value } => stored_values(m) + 1int,
            Command::Get { key } => stored_values(m) + 0int,
            Command::DeleteByKey { key } => stored_values(m) - values_of(m, key).len(),
            Command::DeleteAll => 0int,
            Command::ListAll => stored_values(m) + 0int,
        },
{
    match command {
        Command::SetValue { key, value } => {
            lemma_stored_below_insert(m, key, values_of(m, key).push(value), 256);
        },
        Command::DeleteByKey { key } => {
            lemma_stored_below_remove(m, key, 256);
        },
        Command::DeleteAll => {
            lemma_stored_below_empty(256);
        },
        _ => {},
    }
}

/// After any commands, the store holds what it held at the start, plus one
/// value for each `SetValue` applied, minus the values that deletions removed.
pub proof fn lemma_stored_values_balance(m: Map<u8, Seq<u32>>, commands: Seq<Command>)
    ensures
        stored_values(run(m, commands)) == stored_values(m) + sets_applied(commands)
            - values_removed(m, commands),
    decreases commands.len(),
{
    if commands.len() > 0 {
        lemma_stored_values_balance(m, commands.drop_last());
        lemma_stored_values_step(run(m, commands.drop_last()), commands.last());
    }
}

/// A `ListAll` that follows the commands `commands` on a store that started
/// empty reports, over all its entries, as many values as there were
/// `SetValue` commands, minus the values that deletions removed.
pub proof fn lemma_listing_counts_sets(commands: Seq<Command>, entries: Seq<(u8, Seq<u32>)>)
    requires
        is_listing_of(entries, run(empty_store(), commands)),
    ensures
        reported_values(entries) == sets_applied(commands) - values_removed(
            empty_store(),
            commands,
        ),
{
    lemma_listing_reports_stored(entries, run(empty_store(), commands));
    lemma_stored_values_balance(empty_store(), commands);
    lemma_stored_below_empty(256);
}

/// Every command of `commands` is a `SetValue`, and no two of them set the
/// same key.
pub open spec fn sets_distinct_keys(commands: Seq<Command>) -> bool {
    &&& forall|i: int| 0 <= i < commands.len() ==> #[trigger] commands[i] is SetValue
    &&& forall|i: int, j: int|
        0 <= i < j < commands.len() ==> (#[trigger] commands[i])->SetValue_key != (
        #[trigger] commands[j])->SetValue_key
}

/// Commands that set other keys leave a key as it was.
pub proof fn lemma_other_sets_keep_key(m: Map<u8, Seq<u32>>, commands: Seq<Command>, key: u8)
    requires
        forall|i: int|
            0 <= i < commands.len() ==> (#[trigger] commands[i]) is SetValue
                && commands[i]->SetValue_key != key,
    ensures
        lookup(run(m, commands), key) == lookup(m, key),
    decreases commands.len(),
{
    if commands.len() > 0 {
        let front = commands.drop_last();
        assert forall|i: int| 0 <= i < front.len() implies (#[trigger] front[i]) is SetValue
            && front[i]->SetValue_key != key by {
            assert(front[i] == commands[i]);
        }
        lemma_other_sets_keep_key(m, front, key);
        assert(commands[commands.len() - 1] is SetValue);
    }
}

/// When `SetValue` commands on pairwise distinct keys are applied one at a
/// time, in whatever order they arrived, each is answered with `STATUS_OK` and
/// none is lost or mixed with another: afterwards each key holds what it held
/// before, followed by the one value set under it. A key that was absent
/// holds exactly that value.
pub proof fn lemma_sets_on_distinct_keys(m: Map<u8, Seq<u32>>, commands: Seq<Command>, i: int)
    requires
        sets_distinct_keys(commands),
        0 <= i < commands.len(),
    ensures
        forall|reply: ReplyView|
            is_reply_to(run(m, commands.take(i)), commands[i], reply) ==> reply
                == ReplyView::Status(STATUS_OK),
        lookup(run(m, commands), commands[i]->SetValue_key) == Some(
            values_of(m, commands[i]->SetValue_key).push(commands[i]->SetValue_value),
        ),
        !m.contains_key(commands[i]->SetValue_key) ==> lookup(
            run(m, commands),
            commands[i]->SetValue_key,
        ) == Some(seq![commands[i]->SetValue_value]),
    decreases commands.len(),
{
    let key = commands[i]->SetValue_key;
    let value = commands[i]->SetValue_value;
    let front = commands.drop_last();
    let n = commands.len() - 1;
    assert(commands[n] is SetValue);
    if i == n {
        assert forall|j: int| 0 <= j < front.len() implies (#[trigger] front[j]) is SetValue
            && front[j]->SetValue_key != key by {
            assert(front[j] == commands[j]);
        }
        lemma_other_sets_keep_key(m, front, key);
    } else {
        assert(front[i] == commands[i]);
        assert(sets_distinct_keys(front)) by {
            assert forall|j: int| 0 <= j < front.len() implies #[trigger] front[j] is SetValue by {
                assert(front[j] == commands[j]);
            }
            assert forall|j: int, k: int| 0 <= j < k < front.len() implies (
            #[trigger] front[j])->SetValue_key != (#[trigger] front[k])->SetValue_key by {
                assert(front[j] == commands[j]);
                assert(front[k] == commands[k]);
            }
        }
        lemma_sets_on_distinct_keys(m, front, i);
        assert(commands[i]->SetValue_key != commands[n]->SetValue_key);
    }
    assert(seq![value] =~= Seq::<u32>::empty().push(value));
}

} // verus!
