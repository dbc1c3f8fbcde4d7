//! Sequences of entries under keys: the mathematical form of the tables of
//! this crate, which keep the order in which their keys came. The key is
//! most often a link.
use vstd::prelude::*;

verus! {

/// No link keys two entries.
pub open spec fn distinct_links<K, V>(table: Seq<(K, V)>) -> bool {
    forall|i: int, j: int|
        #![trigger table[i], table[j]]
        0 <= i < j < table.len() ==> table[i].0 != table[j].0
}

/// Whether the link keys an entry.
pub open spec fn registered<K, V>(table: Seq<(K, V)>, link: K) -> bool {
    exists|i: int| 0 <= i < table.len() && (#[trigger] table[i]).0 == link
}

/// The place of the entry that a link keys.
pub open spec fn position_of<K, V>(table: Seq<(K, V)>, link: K) -> int {
    choose|i: int| 0 <= i < table.len() && (#[trigger] table[i]).0 == link
}

/// What a link keys.
pub open spec fn state_of<K, V>(table: Seq<(K, V)>, link: K) -> V {
    table[position_of(table, link)].1
}

/// The table in which a link keys another value, at its old place.
pub open spec fn with_state<K, V>(table: Seq<(K, V)>, link: K, state: V) -> Seq<
    (K, V),
> {
    table.update(position_of(table, link), (link, state))
}

/// In a table without repeated links, a link stands at one place only.
pub proof fn lemma_position_unique<K, V>(table: Seq<(K, V)>, at: int)
    requires
        distinct_links(table),
        0 <= at < table.len(),
    ensures
        registered(table, table[at].0),
        position_of(table, table[at].0) == at,
        state_of(table, table[at].0) == table[at].1,
{
    let link = table[at].0;
    let found = position_of(table, link);
    assert(0 <= found < table.len() && table[found].0 == link);
    if found != at {
        if found < at {
            assert(table[found].0 != table[at].0);
        } else {
            assert(table[at].0 != table[found].0);
        }
    }
}

/// The place of a link that keys an entry is a place of the table, and the
/// link stands there.
pub proof fn lemma_position_of<K, V>(table: Seq<(K, V)>, link: K)
    requires
        registered(table, link),
    ensures
        0 <= position_of(table, link) < table.len(),
        table[position_of(table, link)].0 == link,
{
}

/// Replacing what a link keys keeps the links and their order.
pub proof fn lemma_with_state_keeps_links<K, V>(table: Seq<(K, V)>, link: K, state: V)
    requires
        registered(table, link),
    ensures
        with_state(table, link, state).len() == table.len(),
        forall|i: int|
            0 <= i < table.len() ==> (#[trigger] with_state(table, link, state)[i]).0
                == table[i].0,
        distinct_links(table) ==> distinct_links(with_state(table, link, state)),
        forall|other: K|
            registered(table, other) <==> registered(with_state(table, link, state), other),
{
    let after = with_state(table, link, state);
    let at = position_of(table, link);
    assert(0 <= at < table.len() && table[at].0 == link);
    assert forall|i: int| 0 <= i < table.len() implies (#[trigger] after[i]).0 == table[i].0 by {}
    if distinct_links(table) {
        assert forall|i: int, j: int|
            #![trigger after[i], after[j]]
            0 <= i < j < after.len() implies after[i].0 != after[j].0 by {
            assert(table[i].0 != table[j].0);
        }
    }
    assert forall|other: K| registered(table, other) <==> registered(after, other) by {
        if registered(table, other) {
            let i = position_of(table, other);
            assert(after[i].0 == other);
        }
        if registered(after, other) {
            let i = position_of(after, other);
            assert(table[i].0 == other);
        }
    }
}

/// In a table without repeated links, replacing what a link keys changes
/// what that link keys and nothing else.
pub proof fn lemma_with_state_reads<K, V>(
    table: Seq<(K, V)>,
    link: K,
    state: V,
    other: K,
)
    requires
        distinct_links(table),
        registered(table, link),
        registered(table, other),
    ensures
        position_of(with_state(table, link, state), other) == position_of(table, other),
        state_of(with_state(table, link, state), other) == if other == link {
            state
        } else {
            state_of(table, other)
        },
{
    let after = with_state(table, link, state);
    lemma_with_state_keeps_links(table, link, state);
    lemma_position_of(table, link);
    lemma_position_of(table, other);
    let at = position_of(table, other);
    assert(after[at].0 == other);
    lemma_position_unique(after, at);
}

/// Appending an entry under a link that keys none keeps the table free of
/// repeated links.
pub proof fn lemma_push_keeps_distinct<K, V>(table: Seq<(K, V)>, link: K, state: V)
    requires
        distinct_links(table),
        !registered(table, link),
    ensures
        distinct_links(table.push((link, state))),
{
    let after = table.push((link, state));
    assert forall|i: int, j: int|
        #![trigger after[i], after[j]]
        0 <= i < j < after.len() implies after[i].0 != after[j].0 by {
        if j < table.len() {
            assert(table[i].0 != table[j].0);
        } else {
            assert(table[i].0 != link);
        }
    }
}

/// Taking an entry out keeps the table free of repeated links.
pub proof fn lemma_remove_keeps_distinct<K, V>(table: Seq<(K, V)>, at: int)
    requires
        distinct_links(table),
        0 <= at < table.len(),
    ensures
        distinct_links(table.remove(at)),
{
    let after = table.remove(at);
    assert forall|i: int, j: int|
        #![trigger after[i], after[j]]
        0 <= i < j < after.len() implies after[i].0 != after[j].0 by {
        let oi = if i < at { i } else { i + 1 };
        let oj = if j < at { j } else { j + 1 };
        assert(table[oi].0 != table[oj].0);
    }
}

} // verus!
