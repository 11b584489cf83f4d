//! A table kept as a list of pairs, each over the ones before it: a later
//! pair for a key replaces an earlier one. What such a list means is a map.

use vstd::prelude::*;

verus! {

/// The map a list of pairs stands for.
pub open spec fn table<K, V>(entries: Seq<(K, V)>) -> Map<K, V>
    decreases entries.len(),
{
    if entries.len() == 0 {
        Map::empty()
    } else {
        table(entries.drop_last()).insert(entries.last().0, entries.last().1)
    }
}

/// The pairs of `entries` whose key is in `keep`, in order.
pub open spec fn kept<K, V>(entries: Seq<(K, V)>, keep: Set<K>) -> Seq<(K, V)>
    decreases entries.len(),
{
    if entries.len() == 0 {
        Seq::empty()
    } else {
        let before = kept(entries.drop_last(), keep);
        if keep.contains(entries.last().0) {
            before.push(entries.last())
        } else {
            before
        }
    }
}

/// Keeping the pairs whose key is in `keep` keeps those keys of the map.
pub proof fn lemma_kept<K, V>(entries: Seq<(K, V)>, keep: Set<K>)
    ensures
        table(kept(entries, keep)) == table(entries).restrict(keep),
    decreases entries.len(),
{
    if entries.len() > 0 {
        lemma_kept(entries.drop_last(), keep);
        let before = kept(entries.drop_last(), keep);
        if keep.contains(entries.last().0) {
            assert(before.push(entries.last()).drop_last() =~= before);
        }
        assert(table(kept(entries, keep)) =~= table(entries).restrict(keep));
    }
}

/// Pushing a pair files its value under its key.
pub proof fn lemma_table_push<K, V>(entries: Seq<(K, V)>, entry: (K, V))
    ensures
        table(entries.push(entry)) == table(entries).insert(entry.0, entry.1),
{
    assert(entries.push(entry).drop_last() =~= entries);
}

/// The last pair with a key is what the map files under it, and changing its
/// value changes only that key.
pub proof fn lemma_table_last<K, V>(entries: Seq<(K, V)>, i: int)
    requires
        0 <= i < entries.len(),
        forall|j: int| i < j < entries.len() ==> entries[j].0 != entries[i].0,
    ensures
        table(entries).contains_key(entries[i].0),
        table(entries)[entries[i].0] == entries[i].1,
        forall|value: V| #[trigger] table(entries.update(i, (entries[i].0, value))) == table(entries).insert(
            entries[i].0,
            value,
        ),
    decreases entries.len(),
{
    if i < entries.len() - 1 {
        lemma_table_last(entries.drop_last(), i);
        assert forall|value: V| #[trigger] table(entries.update(i, (entries[i].0, value))) == table(entries).insert(
            entries[i].0,
            value,
        ) by {
            let changed = entries.update(i, (entries[i].0, value));
            let shorter = entries.drop_last();
            assert(shorter[i].0 == entries[i].0);
            assert(table(shorter.update(i, (shorter[i].0, value))) == table(shorter).insert(shorter[i].0, value));
            assert(changed.drop_last() =~= shorter.update(i, (shorter[i].0, value)));
            assert(changed.last() == entries.last());
            assert(table(changed) =~= table(entries).insert(entries[i].0, value));
        }
    } else {
        assert forall|value: V| #[trigger] table(entries.update(i, (entries[i].0, value))) == table(entries).insert(
            entries[i].0,
            value,
        ) by {
            let changed = entries.update(i, (entries[i].0, value));
            assert(changed.drop_last() =~= entries.drop_last());
            assert(table(changed) =~= table(entries).insert(entries[i].0, value));
        }
    }
}

/// A key no pair has is not in the map.
pub proof fn lemma_table_absent<K, V>(entries: Seq<(K, V)>, key: K)
    requires
        forall|j: int| 0 <= j < entries.len() ==> entries[j].0 != key,
    ensures
        !table(entries).contains_key(key),
    decreases entries.len(),
{
    if entries.len() > 0 {
        lemma_table_absent(entries.drop_last(), key);
    }
}

} // verus!
