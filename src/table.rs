use vstd::prelude::*;

verus! {

/// What a pinned table answered during a snapshot.
pub enum SnapshotEvent<K, V> {
    /// The snapshot begins.
    Start,
    /// The key that follows the one asked about, if there is one.
    NextKey(Option<K>),
    /// The value stored under a key, if the lookup succeeded.
    Looked(K, Option<V>),
}

/// What to ask the pinned table next during a snapshot.
pub enum SnapshotAction<K> {
    /// Ask for the key after this one; `None` asks for the first key.
    AskNextKey(Option<K>),
    /// Look up the value stored under this key.
    Lookup(K),
    /// There is no further key: the snapshot is complete.
    Finished,
}

/// One step of taking a snapshot of a pinned table. The walk starts from no
/// key, asks for the key after the last one seen, looks each key up, and
/// keeps the pairs whose lookup succeeded, in the order the table gave
/// them; it ends when the table has no further key.
pub fn snapshot_step<K: Copy, V>(items: &mut Vec<(K, V)>, event: SnapshotEvent<K, V>) -> (r:
    SnapshotAction<K>)
    ensures
        match event {
            SnapshotEvent::Start => final(items)@ == old(items)@ && r == SnapshotAction::<
                K,
            >::AskNextKey(None),
            SnapshotEvent::NextKey(Some(k)) => final(items)@ == old(items)@ && r
                == SnapshotAction::<K>::Lookup(k),
            SnapshotEvent::NextKey(None) => final(items)@ == old(items)@ && r is Finished,
            SnapshotEvent::Looked(k, Some(v)) => final(items)@ == old(items)@.push((k, v)) && r
                == SnapshotAction::<K>::AskNextKey(Some(k)),
            SnapshotEvent::Looked(k, None) => final(items)@ == old(items)@ && r
                == SnapshotAction::<K>::AskNextKey(Some(k)),
        },
{
    match event {
        SnapshotEvent::Start => SnapshotAction::AskNextKey(None),
        SnapshotEvent::NextKey(Some(k)) => SnapshotAction::Lookup(k),
        SnapshotEvent::NextKey(None) => SnapshotAction::Finished,
        SnapshotEvent::Looked(k, Some(v)) => {
            items.push((k, v));
            SnapshotAction::AskNextKey(Some(k))
        },
        SnapshotEvent::Looked(k, None) => SnapshotAction::AskNextKey(Some(k)),
    }
}

/// The number of per-CPU value slots to read for each key of a per-CPU
/// table, given the possible-CPU count the runtime reported: at least one.
pub fn cpu_slots(n: i32) -> (r: usize)
    ensures
        r == if n < 1 {
            1
        } else {
            n as int
        },
{
    if n < 1 {
        1
    } else {
        n as usize
    }
}

} // verus!
