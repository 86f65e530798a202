//! The items that the scheduler takes from outside crates, each with the
//! contract that the crate's source shows; these contracts are assumed, not
//! proved.
use std::collections::HashMap;
use vstd::prelude::*;

verus! {

// ---------------------------------------------------------------------
// boxcar: the append-only vector that holds the critical-path children
// ---------------------------------------------------------------------

/// `boxcar::Vec<T>`, an append-only vector, held as an opaque value: what
/// it holds is read only through `boxcar_items`.
#[verifier::external_type_specification]
#[verifier::external_body]
#[verifier::reject_recursive_types(T)]
pub struct ExBoxcarVec<T>(boxcar::Vec<T>);

/// The elements of a `boxcar::Vec<usize>`, in the order they were pushed.
pub uninterp spec fn boxcar_items(v: boxcar::Vec<usize>) -> Seq<usize>;

/// The number of elements a `boxcar::Vec` can hold: its push panics with
/// "capacity overflow" once `2^(usize::BITS - 1) - 32` elements are in.
pub open spec fn boxcar_capacity() -> nat {
    (usize::MAX / 2 - 31) as nat
}

/// `boxcar::Vec::new`: an empty vector.
#[verifier::external_body]
pub(crate) fn boxcar_new() -> (v: boxcar::Vec<usize>)
    ensures
        boxcar_items(v) == Seq::<usize>::empty(),
{
    boxcar::Vec::new()
}

/// `boxcar::Vec::push`: appends `x` and returns the index it was stored at.
/// The crate's push takes `&self` so that threads can share the vector; the
/// wrapper takes `&mut` so that no other push can run at the same time,
/// which is what makes the new contents the old ones with `x` appended.
#[verifier::external_body]
pub(crate) fn boxcar_push(v: &mut boxcar::Vec<usize>, x: usize) -> (idx: usize)
    requires
        boxcar_items(*old(v)).len() < boxcar_capacity(),
    ensures
        boxcar_items(*final(v)) == boxcar_items(*old(v)).push(x),
        idx == boxcar_items(*old(v)).len(),
{
    v.push(x)
}

/// `boxcar::Vec::count`: the number of elements.
#[verifier::external_body]
pub(crate) fn boxcar_count(v: &boxcar::Vec<usize>) -> (n: usize)
    ensures
        n == boxcar_items(*v).len(),
{
    v.count()
}

/// Indexing a `boxcar::Vec` (`Index::index`): the element at `i`, which
/// must be in range (else the crate panics).
#[verifier::external_body]
pub(crate) fn boxcar_index(v: &boxcar::Vec<usize>, i: usize) -> (x: usize)
    requires
        i < boxcar_items(*v).len(),
    ensures
        x == boxcar_items(*v)[i as int],
{
    v[i]
}

// ---------------------------------------------------------------------
// flume: the two task queues
// ---------------------------------------------------------------------

/// Both ends of one unbounded `flume` channel of transaction indices.
/// The two ends are kept together, and never cloned or handed out, so
/// that the values in flight are exactly what was sent and not yet
/// received; that sequence is `queued`.
#[verifier::external_body]
pub struct TaskChannel {
    sender: flume::Sender<usize>,
    receiver: flume::Receiver<usize>,
}

/// The values sent on the channel and not yet received, oldest first.
pub uninterp spec fn queued(q: TaskChannel) -> Seq<usize>;

/// `flume::unbounded`: a new, empty channel.
#[verifier::external_body]
pub(crate) fn channel_unbounded() -> (q: TaskChannel)
    ensures
        queued(q) == Seq::<usize>::empty(),
{
    let (sender, receiver) = flume::unbounded();
    TaskChannel { sender, receiver }
}

/// `flume::Sender::send` on an unbounded channel whose receiver is alive:
/// the value joins the back of the queue (the call's `Result` is always
/// `Ok` here and is dropped).
#[verifier::external_body]
pub(crate) fn channel_send(q: &mut TaskChannel, tx: usize)
    ensures
        queued(*final(q)) == queued(*old(q)).push(tx),
{
    let _ = q.sender.send(tx);
}

/// `flume::Receiver::try_recv`: the oldest queued value, removed from the
/// queue, or `None` when the queue is empty (its senders are alive, so the
/// error is always `Empty`).
#[verifier::external_body]
pub(crate) fn channel_try_recv(q: &mut TaskChannel) -> (r: Option<usize>)
    ensures
        queued(*old(q)).len() == 0 ==> r is None && queued(*final(q)) == queued(*old(q)),
        queued(*old(q)).len() > 0 ==> r == Some(queued(*old(q))[0]) && queued(*final(q))
            == queued(*old(q)).drop_first(),
{
    q.receiver.try_recv().ok()
}

// ---------------------------------------------------------------------
// rustc_hash: the hasher of the resource map
// ---------------------------------------------------------------------

/// `rustc_hash::FxBuildHasher`, a unit struct that builds `FxHasher`s.
#[verifier::external_type_specification]
#[verifier::external_body]
pub struct ExFxBuildHasher(rustc_hash::FxBuildHasher);

/// The map from an access-list key to the last transaction that named it
/// and the cost of the critical path that ends in that transaction.
pub type ResourceMap = HashMap<u64, (usize, u32), rustc_hash::FxBuildHasher>;

/// `FxBuildHasher::default()`.
#[verifier::external_body]
pub(crate) fn fx_build_hasher() -> rustc_hash::FxBuildHasher {
    rustc_hash::FxBuildHasher::default()
}

/// `HashMap::with_capacity_and_hasher`: an empty map that hashes with the
/// given builder.
#[verifier::external_body]
pub(crate) fn fx_map_with_capacity(capacity: usize, hasher: rustc_hash::FxBuildHasher) -> (m: ResourceMap)
    ensures
        m@.dom() == Set::<u64>::empty(),
{
    HashMap::with_capacity_and_hasher(capacity, hasher)
}

/// `HashMap::get` on a map hashed by `FxBuildHasher`: the value stored for
/// `key`, if any. vstd states this of a map only for hash builders it knows
/// to be deterministic; `FxBuildHasher` is one (every hasher it builds
/// starts from the same state), so the std contract applies.
#[verifier::external_body]
pub(crate) fn fx_map_get(m: &ResourceMap, key: u64) -> (r: Option<(usize, u32)>)
    ensures
        r == (if m@.contains_key(key) {
            Some(m@[key])
        } else {
            None
        }),
{
    m.get(&key).copied()
}

/// `HashMap::insert` on a map hashed by `FxBuildHasher`: `key` now maps to
/// `value` (see `fx_map_get` for why the std contract applies).
#[verifier::external_body]
pub(crate) fn fx_map_insert(m: &mut ResourceMap, key: u64, value: (usize, u32))
    ensures
        final(m)@ == old(m)@.insert(key, value),
{
    m.insert(key, value);
}

} // verus!
