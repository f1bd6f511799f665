//! What the cache holds: entries by epoch, the most recently used first.

use solana_clock::Epoch;
use vstd::prelude::*;

use crate::net::SocketAddr;
use crate::time::Instant;

verus! {

/// What the cache holds for one epoch.
#[derive(Debug)]
pub struct StakedValidatorsCacheEntry {
    /// Alpenglow sockets associated with the staked validators
    pub alpenglow_sockets: Vec<SocketAddr>,
    /// The time at which this entry was created
    pub creation_time: Instant,
}

/// The contents of a [`StakedValidatorsCacheEntry`].
#[verifier::ext_equal]
pub struct EntryView {
    pub alpenglow_sockets: Seq<SocketAddr>,
    pub creation_time: Instant,
}

impl View for StakedValidatorsCacheEntry {
    type V = EntryView;

    open spec fn view(&self) -> EntryView {
        EntryView {
            alpenglow_sockets: self.alpenglow_sockets@,
            creation_time: self.creation_time,
        }
    }
}

/// The entry for `epoch`, where there is one.
pub open spec fn entry_of(entries: Seq<(Epoch, EntryView)>, epoch: Epoch) -> Option<EntryView>
    decreases entries.len(),
{
    if entries.len() == 0 {
        None
    } else if entries[0].0 == epoch {
        Some(entries[0].1)
    } else {
        entry_of(entries.drop_first(), epoch)
    }
}

/// The entries for the epochs other than `epoch`, in the same order.
pub open spec fn without(entries: Seq<(Epoch, EntryView)>, epoch: Epoch) -> Seq<(Epoch, EntryView)>
    decreases entries.len(),
{
    if entries.len() == 0 {
        Seq::empty()
    } else if entries[0].0 == epoch {
        without(entries.drop_first(), epoch)
    } else {
        seq![entries[0]] + without(entries.drop_first(), epoch)
    }
}

/// The entries after a use of `epoch`: its entry, where there is one, has moved to the front.
pub open spec fn used(entries: Seq<(Epoch, EntryView)>, epoch: Epoch) -> Seq<(Epoch, EntryView)> {
    match entry_of(entries, epoch) {
        Some(entry) => seq![(epoch, entry)] + without(entries, epoch),
        None => entries,
    }
}

/// The entries after `entry` was put in for `epoch`: it stands in front. It takes the place of the
/// entry for the same epoch, where there is one; else, of a full cache, the last entry is gone.
/// A cache with room for nothing stays as it is.
pub open spec fn stored(
    entries: Seq<(Epoch, EntryView)>,
    capacity: nat,
    epoch: Epoch,
    entry: EntryView,
) -> Seq<(Epoch, EntryView)> {
    if entry_of(entries, epoch) is Some {
        seq![(epoch, entry)] + without(entries, epoch)
    } else if capacity == 0 {
        entries
    } else if entries.len() == capacity {
        seq![(epoch, entry)] + entries.drop_last()
    } else {
        seq![(epoch, entry)] + entries
    }
}

/// Whether no two entries are for the same epoch.
pub open spec fn has_distinct_epochs(entries: Seq<(Epoch, EntryView)>) -> bool {
    forall|i: int, j: int|
        0 <= i < j < entries.len() ==> (#[trigger] entries[i]).0 != (#[trigger] entries[j]).0
}

/// An entry for an epoch is found exactly where one is held.
pub proof fn lemma_entry_of(entries: Seq<(Epoch, EntryView)>, epoch: Epoch)
    ensures
        entry_of(entries, epoch) is Some <==> exists|i: int|
            0 <= i < entries.len() && (#[trigger] entries[i]).0 == epoch,
    decreases entries.len(),
{
    if entries.len() > 0 {
        let rest = entries.drop_first();
        lemma_entry_of(rest, epoch);
        if entry_of(rest, epoch) is Some {
            let i = choose|i: int| 0 <= i < rest.len() && (#[trigger] rest[i]).0 == epoch;
            assert(entries[i + 1].0 == epoch);
        }
        if exists|i: int| 0 <= i < entries.len() && (#[trigger] entries[i]).0 == epoch {
            let i = choose|i: int| 0 <= i < entries.len() && (#[trigger] entries[i]).0 == epoch;
            if i > 0 {
                assert(rest[i - 1].0 == epoch);
            } else {
                assert(entries[0].0 == epoch);
            }
        }
    }
}

/// Of distinct epochs, the entry held at a place is the one found.
pub proof fn lemma_entry_at(entries: Seq<(Epoch, EntryView)>, i: int)
    requires
        has_distinct_epochs(entries),
        0 <= i < entries.len(),
    ensures
        entry_of(entries, entries[i].0) == Some(entries[i].1),
    decreases entries.len(),
{
    if i > 0 {
        let rest = entries.drop_first();
        assert(entries[0].0 != entries[i].0);
        assert(rest[i - 1] == entries[i]);
        assert forall|a: int, b: int| 0 <= a < b < rest.len() implies (#[trigger] rest[a]).0 != (
        #[trigger] rest[b]).0 by {
            assert(rest[a] == entries[a + 1] && rest[b] == entries[b + 1]);
        }
        lemma_entry_at(rest, i - 1);
    }
}

/// An entry in front hides nothing but those for its own epoch.
pub proof fn lemma_entry_of_front(
    front: (Epoch, EntryView),
    entries: Seq<(Epoch, EntryView)>,
    epoch: Epoch,
)
    ensures
        entry_of(seq![front] + entries, epoch) == if front.0 == epoch {
            Some(front.1)
        } else {
            entry_of(entries, epoch)
        },
{
    assert((seq![front] + entries).drop_first() =~= entries);
}

/// Taking one epoch out keeps the entries for the others, their order and that they are distinct.
pub proof fn lemma_without(entries: Seq<(Epoch, EntryView)>, epoch: Epoch)
    ensures
        forall|other: Epoch| #[trigger]
            entry_of(without(entries, epoch), other) == if other == epoch {
                None
            } else {
                entry_of(entries, other)
            },
        forall|i: int|
            0 <= i < without(entries, epoch).len() ==> (#[trigger] without(entries, epoch)[i]).0
                != epoch && entries.contains(without(entries, epoch)[i]),
        without(entries, epoch).len() <= entries.len(),
        entry_of(entries, epoch) is Some ==> without(entries, epoch).len() < entries.len(),
        entry_of(entries, epoch) is None ==> without(entries, epoch) == entries,
        has_distinct_epochs(entries) ==> has_distinct_epochs(without(entries, epoch)),
        has_distinct_epochs(entries) && entry_of(entries, epoch) is Some ==> without(
            entries,
            epoch,
        ).len() == entries.len() - 1,
    decreases entries.len(),
{
    if entries.len() > 0 {
        let first = entries[0];
        let rest = entries.drop_first();
        lemma_without(rest, epoch);
        let kept = without(rest, epoch);
        assert forall|i: int| 0 <= i < rest.len() implies entries.contains(#[trigger] rest[i]) by {
            assert(rest[i] == entries[i + 1]);
        }
        if has_distinct_epochs(entries) {
            assert forall|a: int, b: int| 0 <= a < b < rest.len() implies (#[trigger] rest[a]).0
                != (#[trigger] rest[b]).0 by {
                assert(rest[a] == entries[a + 1] && rest[b] == entries[b + 1]);
            }
        }
        if first.0 == epoch {
            if has_distinct_epochs(entries) {
                lemma_entry_of(rest, epoch);
                if entry_of(rest, epoch) is Some {
                    let i = choose|i: int| 0 <= i < rest.len() && (#[trigger] rest[i]).0 == epoch;
                    assert(entries[i + 1].0 == epoch);
                }
            }
        } else {
            let result = seq![first] + kept;
            assert(without(entries, epoch) == result);
            assert forall|other: Epoch| #[trigger]
                entry_of(result, other) == if other == epoch {
                    None
                } else {
                    entry_of(entries, other)
                } by {
                lemma_entry_of_front(first, kept, other);
                assert(entry_of(kept, other) == if other == epoch {
                    None
                } else {
                    entry_of(rest, other)
                });
            }
            assert forall|i: int| 0 <= i < result.len() implies (#[trigger] result[i]).0 != epoch
                && entries.contains(result[i]) by {
                if i > 0 {
                    assert(result[i] == kept[i - 1]);
                    assert(rest.contains(kept[i - 1]));
                } else {
                    assert(result[0] == entries[0]);
                }
            }
            if entry_of(entries, epoch) is None {
                assert(result =~= entries);
            }
            if has_distinct_epochs(entries) {
                assert forall|a: int, b: int| 0 <= a < b < result.len() implies (
                #[trigger] result[a]).0 != (#[trigger] result[b]).0 by {
                    assert(result[b] == kept[b - 1]);
                    assert(rest.contains(kept[b - 1]));
                    let k = choose|k: int| 0 <= k < rest.len() && rest[k] == kept[b - 1];
                    assert(entries[k + 1] == kept[b - 1]);
                    if a == 0 {
                        assert(entries[0].0 != entries[k + 1].0);
                    } else {
                        assert(result[a] == kept[a - 1]);
                    }
                }
            }
        }
    }
}

/// Dropping the last of entries with distinct epochs keeps the entries for all other epochs.
pub proof fn lemma_drop_last(entries: Seq<(Epoch, EntryView)>, epoch: Epoch)
    requires
        entries.len() > 0,
        has_distinct_epochs(entries),
    ensures
        has_distinct_epochs(entries.drop_last()),
        entry_of(entries.drop_last(), epoch) == if epoch == entries.last().0 {
            None
        } else {
            entry_of(entries, epoch)
        },
{
    let kept = entries.drop_last();
    assert forall|a: int, b: int| 0 <= a < b < kept.len() implies (#[trigger] kept[a]).0 != (
    #[trigger] kept[b]).0 by {
        assert(kept[a] == entries[a] && kept[b] == entries[b]);
    }
    lemma_entry_of(kept, epoch);
    lemma_entry_of(entries, epoch);
    if entry_of(kept, epoch) is Some {
        let i = choose|i: int| 0 <= i < kept.len() && (#[trigger] kept[i]).0 == epoch;
        assert(entries[i] == kept[i]);
        lemma_entry_at(kept, i);
        lemma_entry_at(entries, i);
        assert(entries[i].0 != entries[entries.len() - 1].0);
    } else if entry_of(entries, epoch) is Some {
        let i = choose|i: int| 0 <= i < entries.len() && (#[trigger] entries[i]).0 == epoch;
        if i < entries.len() - 1 {
            assert(kept[i].0 == epoch);
        }
    }
}

/// A use of an epoch keeps every entry, and that the epochs are distinct.
pub proof fn lemma_used(entries: Seq<(Epoch, EntryView)>, epoch: Epoch)
    requires
        has_distinct_epochs(entries),
    ensures
        has_distinct_epochs(used(entries, epoch)),
        used(entries, epoch).len() == entries.len(),
        forall|other: Epoch| #[trigger]
            entry_of(used(entries, epoch), other) == entry_of(entries, other),
        used(used(entries, epoch), epoch) == used(entries, epoch),
{
    lemma_without(entries, epoch);
    let kept = without(entries, epoch);
    if entry_of(entries, epoch) is Some {
        let front = (epoch, entry_of(entries, epoch)->0);
        let result = seq![front] + kept;
        assert forall|other: Epoch| #[trigger]
            entry_of(result, other) == entry_of(entries, other) by {
            lemma_entry_of_front(front, kept, other);
            assert(entry_of(kept, other) == if other == epoch {
                None
            } else {
                entry_of(entries, other)
            });
        }
        lemma_front_is_distinct(front, kept);
        lemma_without_front(front, kept);
    }
}

/// An entry in front of others for other epochs keeps the epochs distinct.
pub proof fn lemma_front_is_distinct(front: (Epoch, EntryView), entries: Seq<(Epoch, EntryView)>)
    requires
        has_distinct_epochs(entries),
        entry_of(entries, front.0) is None,
    ensures
        has_distinct_epochs(seq![front] + entries),
{
    let result = seq![front] + entries;
    assert forall|a: int, b: int| 0 <= a < b < result.len() implies (#[trigger] result[a]).0 != (
    #[trigger] result[b]).0 by {
        assert(result[b] == entries[b - 1]);
        if a == 0 {
            lemma_entry_of(entries, front.0);
        } else {
            assert(result[a] == entries[a - 1]);
        }
    }
}

/// Taking the epoch of the front entry out leaves the others.
pub proof fn lemma_without_front(front: (Epoch, EntryView), entries: Seq<(Epoch, EntryView)>)
    requires
        entry_of(entries, front.0) is None,
    ensures
        without(seq![front] + entries, front.0) == entries,
{
    lemma_without(entries, front.0);
    assert((seq![front] + entries).drop_first() =~= entries);
}

/// Of a cache with room for something, an entry put in is the one found, and one put in after it
/// for the same epoch leaves no trace of it. Its use changes nothing.
pub proof fn lemma_stored(
    entries: Seq<(Epoch, EntryView)>,
    capacity: nat,
    epoch: Epoch,
    entry: EntryView,
)
    requires
        capacity > 0,
        entries.len() <= capacity,
        has_distinct_epochs(entries),
    ensures
        entry_of(stored(entries, capacity, epoch, entry), epoch) == Some(entry),
        used(stored(entries, capacity, epoch, entry), epoch) == stored(
            entries,
            capacity,
            epoch,
            entry,
        ),
        stored(used(entries, epoch), capacity, epoch, entry) == stored(
            entries,
            capacity,
            epoch,
            entry,
        ),
        forall|later: EntryView| #[trigger]
            stored(stored(entries, capacity, epoch, entry), capacity, epoch, later) == stored(
                entries,
                capacity,
                epoch,
                later,
            ),
        has_distinct_epochs(stored(entries, capacity, epoch, entry)),
        stored(entries, capacity, epoch, entry).len() <= capacity,
{
    let rest = if entry_of(entries, epoch) is Some {
        without(entries, epoch)
    } else if entries.len() == capacity {
        entries.drop_last()
    } else {
        entries
    };
    let front = (epoch, entry);
    lemma_without(entries, epoch);
    if entry_of(entries, epoch) is None && entries.len() == capacity {
        lemma_drop_last(entries, epoch);
    }
    assert(entry_of(rest, epoch) is None);
    assert(stored(entries, capacity, epoch, entry) == seq![front] + rest);
    lemma_entry_of_front(front, rest, epoch);
    lemma_front_is_distinct(front, rest);
    lemma_without_front(front, rest);
    if entry_of(entries, epoch) is Some {
        let found = (epoch, entry_of(entries, epoch)->0);
        lemma_without_front(found, rest);
        lemma_entry_of_front(found, rest, epoch);
    }
}

/// Of distinct epochs, taking one out removes its entry from its place.
pub proof fn lemma_without_is_removal(entries: Seq<(Epoch, EntryView)>, i: int)
    requires
        has_distinct_epochs(entries),
        0 <= i < entries.len(),
    ensures
        without(entries, entries[i].0) == entries.remove(i),
    decreases entries.len(),
{
    let rest = entries.drop_first();
    let epoch = entries[i].0;
    if i == 0 {
        lemma_entry_of(rest, epoch);
        if entry_of(rest, epoch) is Some {
            let k = choose|k: int| 0 <= k < rest.len() && (#[trigger] rest[k]).0 == epoch;
            assert(entries[k + 1].0 == epoch);
        }
        lemma_without(rest, epoch);
        assert(entries.remove(0) =~= rest);
    } else {
        assert(entries[0].0 != entries[i].0);
        assert(rest[i - 1] == entries[i]);
        assert forall|a: int, b: int| 0 <= a < b < rest.len() implies (#[trigger] rest[a]).0 != (
        #[trigger] rest[b]).0 by {
            assert(rest[a] == entries[a + 1] && rest[b] == entries[b + 1]);
        }
        lemma_without_is_removal(rest, i - 1);
        assert(entries.remove(i) =~= seq![entries[0]] + rest.remove(i - 1));
    }
}

} // verus!
