//! Per-frame reconciliation of render instance buffers.
//!
//! Each frame, drawable objects request instance data under a stable group
//! key (a texture identity for sprites, a panel identity for menu text).
//! The pool diffs the request against the buffers that exist: a key present
//! last frame is updated in place while its data still fits the buffer's
//! capacity, reallocated to a grown buffer when it does not, created when
//! the key is new, and destroyed when the key is gone. The caller applies
//! the emitted operations to the actual device resources, keyed by buffer
//! identifiers that are never reused.

use vstd::prelude::*;

use crate::keymap::{assoc_map, keys_unique, lemma_assoc_map_at, lemma_assoc_map_dom};

verus! {

/// One logical instance buffer: a stable identifier for the device-side
/// resource, its capacity in instances, and this frame's contents.
#[derive(Debug, Clone)]
pub struct InstanceBuffer<T> {
    pub buffer_id: u64,
    pub capacity: usize,
    pub contents: Vec<T>,
}

/// One device-resource operation the reconciliation decided on.
#[derive(Debug, Clone, Copy, PartialEq, Eq, Structural)]
pub enum PoolOp {
    /// A new buffer for a new key.
    Created { key: u64, buffer_id: u64 },
    /// The data fit: the existing buffer is overwritten in place.
    Updated { key: u64, buffer_id: u64 },
    /// The data outgrew the buffer: a new one replaces the old.
    Reallocated { key: u64, old_buffer_id: u64, buffer_id: u64 },
    /// The key was not requested this frame: its buffer is released.
    Destroyed { key: u64, buffer_id: u64 },
}

/// Copies a vector of plain instance records.
fn copy_vec<T: Copy>(src: &Vec<T>) -> (r: Vec<T>)
    ensures
        r@ == src@,
{
    let mut out: Vec<T> = Vec::new();
    let mut i: usize = 0;
    while i < src.len()
        invariant
            i <= src@.len(),
            out@ == src@.take(i as int),
        decreases src@.len() - i,
    {
        out.push(src[i]);
        proof {
            assert(src@.take(i + 1) =~= src@.take(i as int).push(src@[i as int]));
        }
        i += 1;
    }
    proof {
        assert(src@.take(src@.len() as int) =~= src@);
    }
    out
}

/// Linear scan for a request key.
fn find_key<T>(groups: &Vec<(u64, InstanceBuffer<T>)>, key: u64) -> (r: Option<usize>)
    ensures
        match r {
            Some(i) => i < groups@.len() && groups@[i as int].0 == key,
            None => forall|j: int| 0 <= j < groups@.len() ==> (#[trigger] groups@[j]).0 != key,
        },
{
    let mut i: usize = 0;
    while i < groups.len()
        invariant
            i <= groups@.len(),
            forall|j: int| 0 <= j < i ==> (#[trigger] groups@[j]).0 != key,
        decreases groups@.len() - i,
    {
        if groups[i].0 == key {
            return Some(i);
        }
        i += 1;
    }
    None
}

/// Whether a request list names a key.
fn requests_contain<T>(requests: &Vec<(u64, Vec<T>)>, key: u64) -> (r: bool)
    ensures
        r == exists|i: int| 0 <= i < requests@.len() && (#[trigger] requests@[i]).0 == key,
{
    let mut i: usize = 0;
    while i < requests.len()
        invariant
            i <= requests@.len(),
            forall|j: int| 0 <= j < i ==> (#[trigger] requests@[j]).0 != key,
        decreases requests@.len() - i,
    {
        if requests[i].0 == key {
            assert(requests@[i as int].0 == key);
            return true;
        }
        i += 1;
    }
    false
}

/// The operation reconciliation owes for one requested key, given the old
/// buffer map and the buffer the key ends up with.
pub open spec fn spec_request_op<T>(
    k: u64,
    data_len: int,
    old_map: Map<u64, InstanceBuffer<T>>,
    new_buf: InstanceBuffer<T>,
) -> PoolOp {
    if old_map.dom().contains(k) {
        if data_len <= old_map[k].capacity {
            PoolOp::Updated { key: k, buffer_id: old_map[k].buffer_id }
        } else {
            PoolOp::Reallocated {
                key: k,
                old_buffer_id: old_map[k].buffer_id,
                buffer_id: new_buf.buffer_id,
            }
        }
    } else {
        PoolOp::Created { key: k, buffer_id: new_buf.buffer_id }
    }
}

/// The pool of device-side instance buffers, keyed by group identity.
pub struct InstancePool<T> {
    next_buffer_id: u64,
    groups: Vec<(u64, InstanceBuffer<T>)>,
}

impl<T: Copy> View for InstancePool<T> {
    type V = Map<u64, InstanceBuffer<T>>;

    closed spec fn view(&self) -> Map<u64, InstanceBuffer<T>> {
        assoc_map(self.groups@)
    }
}

impl<T: Copy> InstancePool<T> {
    pub closed spec fn spec_next_buffer_id(&self) -> u64 {
        self.next_buffer_id
    }

    /// Group keys are unique, buffer identifiers are unique and below the
    /// id counter, and contents always fit their buffer's capacity.
    pub closed spec fn wf(&self) -> bool {
        &&& keys_unique(self.groups@)
        &&& forall|i: int|
            0 <= i < self.groups@.len() ==> (#[trigger] self.groups@[i]).1.buffer_id
                < self.next_buffer_id
        &&& forall|i: int, j: int|
            0 <= i < j < self.groups@.len() ==> (#[trigger] self.groups@[i]).1.buffer_id != (
            #[trigger] self.groups@[j]).1.buffer_id
        &&& forall|i: int|
            0 <= i < self.groups@.len() ==> (#[trigger] self.groups@[i]).1.contents@.len() <= self.groups@[
                i].1.capacity
    }

    pub fn new() -> (r: Self)
        ensures
            r.wf(),
            r@ == Map::<u64, InstanceBuffer<T>>::empty(),
            r.spec_next_buffer_id() == 0,
    {
        Self { next_buffer_id: 0, groups: Vec::new() }
    }

    /// Reads one group's buffer.
    pub fn get(&self, key: u64) -> (r: Option<&InstanceBuffer<T>>)
        requires
            self.wf(),
        ensures
            match r {
                Some(b) => self@.dom().contains(key) && *b == self@[key],
                None => !self@.dom().contains(key),
            },
    {
        proof {
            lemma_assoc_map_dom(self.groups@);
        }
        match find_key(&self.groups, key) {
            Some(i) => {
                proof {
                    lemma_assoc_map_at(self.groups@, i as int);
                }
                Some(&self.groups[i].1)
            },
            None => None,
        }
    }

    /// Reconciles one frame's requests against the live buffers.
    ///
    /// Every requested key ends up with a buffer holding exactly its data:
    /// in place when it fits the existing capacity, in a fresh grown buffer
    /// when it does not, in a fresh buffer when the key is new. Every key
    /// not requested this frame is released, and a `Destroyed` operation
    /// reports its buffer. The returned operations describe precisely what
    /// the caller must do to the device resources.
    pub fn reconcile(&mut self, requests: &Vec<(u64, Vec<T>)>) -> (ops: Vec<PoolOp>)
        requires
            old(self).wf(),
            keys_unique_req(requests@),
            old(self).spec_next_buffer_id() + requests@.len() <= u64::MAX,
        ensures
            final(self).wf(),
            // the live keys are exactly this frame's requests
            forall|i: int|
                0 <= i < requests@.len() ==> final(self)@.dom().contains(
                    (#[trigger] requests@[i]).0,
                ),
            forall|k: u64|
                #[trigger] final(self)@.dom().contains(k) ==> exists|i: int|
                    0 <= i < requests@.len() && (#[trigger] requests@[i]).0 == k,
            // per-key create/update/grow semantics
            forall|i: int|
                0 <= i < requests@.len() ==> {
                    let k = (#[trigger] requests@[i]).0;
                    let data = requests@[i].1;
                    let buf = final(self)@[k];
                    &&& buf.contents@ == data@
                    &&& (old(self)@.dom().contains(k) && data@.len() <= old(self)@[k].capacity
                        ==> buf.buffer_id == old(self)@[k].buffer_id && buf.capacity == old(
                        self,
                    )@[k].capacity)
                    &&& (old(self)@.dom().contains(k) && data@.len() > old(self)@[k].capacity
                        ==> buf.buffer_id >= old(self).spec_next_buffer_id() && buf.capacity
                        == data@.len())
                    &&& (!old(self)@.dom().contains(k) ==> buf.buffer_id >= old(
                        self,
                    ).spec_next_buffer_id() && buf.capacity == data@.len())
                },
            // the operations report every decision: one op per requested
            // key, in request order, then one Destroyed op per abandoned key
            ops@.len() >= requests@.len(),
            forall|i: int|
                0 <= i < requests@.len() ==> ops@[i] == spec_request_op(
                    (#[trigger] requests@[i]).0,
                    requests@[i].1@.len() as int,
                    old(self)@,
                    final(self)@[requests@[i].0],
                ),
            forall|j: int|
                requests@.len() <= j < ops@.len() ==> match #[trigger] ops@[j] {
                    PoolOp::Destroyed { key, buffer_id } => {
                        &&& old(self)@.dom().contains(key)
                        &&& !(exists|q: int|
                            0 <= q < requests@.len() && (#[trigger] requests@[q]).0 == key)
                        &&& buffer_id == old(self)@[key].buffer_id
                    },
                    _ => false,
                },
            // every abandoned key is reported destroyed
            forall|k: u64|
                #[trigger] old(self)@.dom().contains(k) && !(exists|i: int|
                    0 <= i < requests@.len() && (#[trigger] requests@[i]).0 == k) ==> ops@.contains(
                    PoolOp::Destroyed { key: k, buffer_id: old(self)@[k].buffer_id },
                ),
    {
        proof {
            lemma_assoc_map_dom(old(self).groups@);
        }
        let mut ops: Vec<PoolOp> = Vec::new();
        let mut new_groups: Vec<(u64, InstanceBuffer<T>)> = Vec::new();

        let mut i: usize = 0;
        while i < requests.len()
            invariant
                old(self).wf(),
                self.groups@ == old(self).groups@,
                self.next_buffer_id >= old(self).next_buffer_id,
                self.next_buffer_id + (requests@.len() - i) <= u64::MAX,
                keys_unique_req(requests@),
                old(self).spec_next_buffer_id() + requests@.len() <= u64::MAX,
                i <= requests@.len(),
                new_groups@.len() == i,
                ops@.len() == i,
                forall|j: int|
                    0 <= j < i ==> #[trigger] ops@[j] == spec_request_op(
                        requests@[j].0,
                        requests@[j].1@.len() as int,
                        old(self)@,
                        new_groups@[j].1,
                    ),
                forall|j: int| 0 <= j < i ==> (#[trigger] new_groups@[j]).0 == requests@[j].0,
                forall|j: int|
                    0 <= j < i ==> (#[trigger] new_groups@[j]).1.contents@ == requests@[j].1@,
                forall|j: int|
                    0 <= j < i ==> (#[trigger] new_groups@[j]).1.contents@.len()
                        <= new_groups@[j].1.capacity,
                forall|j: int|
                    0 <= j < i ==> (#[trigger] new_groups@[j]).1.buffer_id < self.next_buffer_id,
                forall|j: int, j2: int|
                    0 <= j < j2 < i ==> (#[trigger] new_groups@[j]).1.buffer_id != (
                    #[trigger] new_groups@[j2]).1.buffer_id,
                forall|j: int|
                    0 <= j < i ==> (#[trigger] new_groups@[j]).1.buffer_id >= old(
                        self,
                    ).spec_next_buffer_id() || (old(self)@.dom().contains(requests@[j].0)
                        && new_groups@[j].1.buffer_id == old(self)@[requests@[j].0].buffer_id),
                forall|j: int|
                    0 <= j < i ==> {
                        let k = (#[trigger] requests@[j]).0;
                        let data = requests@[j].1;
                        let buf = new_groups@[j].1;
                        &&& (old(self)@.dom().contains(k) && data@.len() <= old(
                            self,
                        )@[k].capacity ==> buf.buffer_id == old(self)@[k].buffer_id && buf.capacity
                            == old(self)@[k].capacity)
                        &&& (old(self)@.dom().contains(k) && data@.len() > old(self)@[k].capacity
                            ==> buf.buffer_id >= old(self).spec_next_buffer_id() && buf.capacity
                            == data@.len())
                        &&& (!old(self)@.dom().contains(k) ==> buf.buffer_id >= old(
                            self,
                        ).spec_next_buffer_id() && buf.capacity == data@.len())
                    },
                forall|j: int, j2: int|
                    0 <= j < i && 0 <= j2 < self.groups@.len() && !(exists|q: int|
                        0 <= q < requests@.len() && (#[trigger] requests@[q]).0
                            == self.groups@[j2].0) ==> (#[trigger] new_groups@[j]).1.buffer_id != (
                    #[trigger] self.groups@[j2]).1.buffer_id,
            decreases requests@.len() - i,
        {
            let key = requests[i].0;
            let data = &requests[i].1;

            let buf: InstanceBuffer<T> = match find_key(&self.groups, key) {
                Some(g) => {
                    proof {
                        lemma_assoc_map_at(self.groups@, g as int);
                    }
                    let existing_id = self.groups[g].1.buffer_id;
                    let existing_cap = self.groups[g].1.capacity;
                    proof {
                        assert(old(self)@[key] == old(self).groups@[g as int].1);
                        assert(existing_id < old(self).spec_next_buffer_id());
                        assert forall|j: int|
                            0 <= j < new_groups@.len() implies (#[trigger] new_groups@[j]).1.buffer_id
                            != existing_id by {
                            if new_groups@[j].1.buffer_id < old(self).spec_next_buffer_id() {
                                assert(requests@[j].0 != key);
                                lemma_pool_ids_distinct(*old(self), requests@[j].0, key);
                            }
                        }
                    }
                    if data.len() <= existing_cap {
                        ops.push(PoolOp::Updated { key, buffer_id: existing_id });
                        InstanceBuffer {
                            buffer_id: existing_id,
                            capacity: existing_cap,
                            contents: copy_vec(data),
                        }
                    } else {
                        let id = self.next_buffer_id;
                        self.next_buffer_id = self.next_buffer_id + 1;
                        ops.push(PoolOp::Reallocated {
                            key,
                            old_buffer_id: existing_id,
                            buffer_id: id,
                        });
                        InstanceBuffer { buffer_id: id, capacity: data.len(), contents: copy_vec(data) }
                    }
                },
                None => {
                    proof {
                        lemma_assoc_map_dom(self.groups@);
                        assert(!old(self)@.dom().contains(key));
                    }
                    let id = self.next_buffer_id;
                    self.next_buffer_id = self.next_buffer_id + 1;
                    ops.push(PoolOp::Created { key, buffer_id: id });
                    InstanceBuffer { buffer_id: id, capacity: data.len(), contents: copy_vec(data) }
                },
            };
            new_groups.push((key, buf));
            proof {
                assert(ops@[i as int] == spec_request_op(
                    requests@[i as int].0,
                    requests@[i as int].1@.len() as int,
                    old(self)@,
                    new_groups@[i as int].1,
                ));
            }
            i += 1;
        }

        let ghost old_groups = self.groups@;
        let mut j: usize = 0;
        while j < self.groups.len()
            invariant
                old(self).wf(),
                self.groups@ == old(self).groups@,
                j <= self.groups@.len(),
                ops@.len() >= requests@.len(),
                forall|j2: int|
                    0 <= j2 < requests@.len() ==> #[trigger] ops@[j2] == spec_request_op(
                        requests@[j2].0,
                        requests@[j2].1@.len() as int,
                        old(self)@,
                        new_groups@[j2].1,
                    ),
                forall|j2: int|
                    requests@.len() <= j2 < ops@.len() ==> match #[trigger] ops@[j2] {
                        PoolOp::Destroyed { key, buffer_id } => {
                            &&& old(self)@.dom().contains(key)
                            &&& !(exists|q: int|
                                0 <= q < requests@.len() && (#[trigger] requests@[q]).0 == key)
                            &&& buffer_id == old(self)@[key].buffer_id
                        },
                        _ => false,
                    },
                forall|k2: int|
                    0 <= k2 < j && !(exists|q: int|
                        0 <= q < requests@.len() && (#[trigger] requests@[q]).0
                            == self.groups@[k2].0) ==> ops@.contains(
                        (PoolOp::Destroyed {
                            key: (#[trigger] self.groups@[k2]).0,
                            buffer_id: self.groups@[k2].1.buffer_id,
                        }),
                    ),
            decreases self.groups@.len() - j,
        {
            let key = self.groups[j].0;
            if !requests_contain(requests, key) {
                let ghost pre_ops = ops@;
                ops.push(PoolOp::Destroyed { key, buffer_id: self.groups[j].1.buffer_id });
                proof {
                    assert(keys_unique(self.groups@));
                    lemma_assoc_map_dom(self.groups@);
                    lemma_assoc_map_at(self.groups@, j as int);
                    assert(old(self)@.dom().contains(key));
                    assert(old(self)@[key].buffer_id == self.groups@[j as int].1.buffer_id);
                    assert(ops@[pre_ops.len() as int] == (PoolOp::Destroyed {
                        key: self.groups@[j as int].0,
                        buffer_id: self.groups@[j as int].1.buffer_id,
                    }));
                    assert forall|k2: int|
                        0 <= k2 < j + 1 && !(exists|q: int|
                            0 <= q < requests@.len() && (#[trigger] requests@[q]).0
                                == self.groups@[k2].0) implies ops@.contains(
                        (PoolOp::Destroyed {
                            key: (#[trigger] self.groups@[k2]).0,
                            buffer_id: self.groups@[k2].1.buffer_id,
                        }),
                    ) by {
                        if k2 < j {
                            assert(pre_ops.contains(
                                (PoolOp::Destroyed {
                                    key: self.groups@[k2].0,
                                    buffer_id: self.groups@[k2].1.buffer_id,
                                }),
                            ));
                            let oi = choose|oi: int|
                                0 <= oi < pre_ops.len() && pre_ops[oi] == (PoolOp::Destroyed {
                                    key: self.groups@[k2].0,
                                    buffer_id: self.groups@[k2].1.buffer_id,
                                });
                            assert(ops@[oi] == pre_ops[oi]);
                        }
                    }
                }
            }
            j += 1;
        }

        self.groups = new_groups;
        proof {
            lemma_assoc_map_dom(self.groups@);
            lemma_assoc_map_dom(old_groups);
            assert forall|k: u64|
                #[trigger] old(self)@.dom().contains(k) && !(exists|i2: int|
                    0 <= i2 < requests@.len() && (#[trigger] requests@[i2]).0 == k) implies ops@.contains(
                (PoolOp::Destroyed { key: k, buffer_id: old(self)@[k].buffer_id }),
            ) by {
                let k2 = choose|k2: int|
                    0 <= k2 < old_groups.len() && (#[trigger] old_groups[k2]).0 == k;
                lemma_assoc_map_at(old_groups, k2);
            }
            assert forall|i2: int|
                0 <= i2 < requests@.len() implies final(self)@.dom().contains(
                (#[trigger] requests@[i2]).0,
            ) by {
                assert(self.groups@[i2].0 == requests@[i2].0);
            }
            assert forall|i2: int| 0 <= i2 < requests@.len() implies {
                let k = (#[trigger] requests@[i2]).0;
                self@[k] == self.groups@[i2].1
            } by {
                assert(keys_unique(self.groups@)) by {
                    assert forall|a: int, b: int|
                        0 <= a < b < self.groups@.len() implies (#[trigger] self.groups@[a]).0 != (
                        #[trigger] self.groups@[b]).0 by {
                        assert(self.groups@[a].0 == requests@[a].0);
                        assert(self.groups@[b].0 == requests@[b].0);
                    }
                }
                lemma_assoc_map_at(self.groups@, i2);
            }
            assert forall|i2: int| 0 <= i2 < requests@.len() implies ops@[i2]
                == spec_request_op(
                (#[trigger] requests@[i2]).0,
                requests@[i2].1@.len() as int,
                old(self)@,
                self@[requests@[i2].0],
            ) by {
                assert(ops@[i2] == spec_request_op(
                    requests@[i2].0,
                    requests@[i2].1@.len() as int,
                    old(self)@,
                    new_groups@[i2].1,
                ));
                assert(self@[requests@[i2].0] == self.groups@[i2].1);
                assert(self.groups@[i2].1 == new_groups@[i2].1);
            }
        }
        ops
    }
}

/// Distinct live keys own distinct buffer identifiers.
proof fn lemma_pool_ids_distinct<T: Copy>(p: InstancePool<T>, k1: u64, k2: u64)
    requires
        p.wf(),
        p@.dom().contains(k1),
        p@.dom().contains(k2),
        k1 != k2,
    ensures
        p@[k1].buffer_id != p@[k2].buffer_id,
{
    lemma_assoc_map_dom(p.groups@);
    let i1 = choose|i: int| 0 <= i < p.groups@.len() && (#[trigger] p.groups@[i]).0 == k1;
    let i2 = choose|i: int| 0 <= i < p.groups@.len() && (#[trigger] p.groups@[i]).0 == k2;
    lemma_assoc_map_at(p.groups@, i1);
    lemma_assoc_map_at(p.groups@, i2);
}

/// No two requests share a key.
pub open spec fn keys_unique_req<T>(s: Seq<(u64, Vec<T>)>) -> bool {
    forall|i: int, j: int| 0 <= i < j < s.len() ==> (#[trigger] s[i]).0 != (#[trigger] s[j]).0
}

/// The values carried by one key, in appearance order.
pub open spec fn values_for<T>(s: Seq<(u64, T)>, key: u64) -> Seq<T>
    decreases s.len(),
{
    if s.len() == 0 {
        Seq::empty()
    } else {
        let p = values_for(s.drop_last(), key);
        if s.last().0 == key {
            p.push(s.last().1)
        } else {
            p
        }
    }
}

proof fn lemma_values_for_take_step<T>(s: Seq<(u64, T)>, i: int, key: u64)
    requires
        0 <= i < s.len(),
    ensures
        values_for(s.take(i + 1), key) == if s[i].0 == key {
            values_for(s.take(i), key).push(s[i].1)
        } else {
            values_for(s.take(i), key)
        },
{
    assert(s.take(i + 1).drop_last() =~= s.take(i));
    assert(s.take(i + 1).last() == s[i]);
}

/// Some entry among the first `n` carries `key`.
pub open spec fn key_appears<T>(items: Seq<(u64, T)>, n: int, key: u64) -> bool {
    exists|i: int| 0 <= i < n && (#[trigger] items[i]).0 == key
}

/// Some group carries `key`.
pub open spec fn has_group<T>(groups: Seq<(u64, Vec<T>)>, key: u64) -> bool {
    exists|g: int| 0 <= g < groups.len() && (#[trigger] groups[g]).0 == key
}

/// The distinct keys of a request list, in first-appearance order.
fn distinct_keys<T>(items: &Vec<(u64, T)>) -> (r: Vec<u64>)
    ensures
        r@.no_duplicates(),
        forall|g: int|
            0 <= g < r@.len() ==> key_appears(items@, items@.len() as int, #[trigger] r@[g]),
        forall|i: int|
            0 <= i < items@.len() ==> r@.contains((#[trigger] items@[i]).0),
{
    let mut keys: Vec<u64> = Vec::new();
    let mut i: usize = 0;
    while i < items.len()
        invariant
            i <= items@.len(),
            keys@.no_duplicates(),
            forall|g: int|
                0 <= g < keys@.len() ==> key_appears(items@, i as int, #[trigger] keys@[g]),
            forall|i2: int| 0 <= i2 < i ==> keys@.contains((#[trigger] items@[i2]).0),
        decreases items@.len() - i,
    {
        let key = items[i].0;
        if !contains_u64(&keys, key) {
            let ghost pre = keys@;
            keys.push(key);
            proof {
                assert(keys@[pre.len() as int] == key);
                assert(key_appears(items@, i + 1, key)) by {
                    assert(0 <= i < i + 1 && items@[i as int].0 == key);
                }
                assert forall|g: int| 0 <= g < keys@.len() implies key_appears(
                    items@,
                    i + 1,
                    #[trigger] keys@[g],
                ) by {
                    if g < pre.len() {
                        assert(keys@[g] == pre[g]);
                        lemma_key_appears_mono(items@, i as int, i + 1, pre[g]);
                    }
                }
                assert forall|i2: int| 0 <= i2 < i + 1 implies keys@.contains(
                    (#[trigger] items@[i2]).0,
                ) by {
                    if i2 < i {
                        let gw = choose|gw: int| 0 <= gw < pre.len() && pre[gw] == items@[i2].0;
                        assert(keys@[gw] == items@[i2].0);
                    } else {
                        assert(keys@[pre.len() as int] == items@[i2].0);
                    }
                }
            }
        } else {
            proof {
                assert(keys@.contains(items@[i as int].0));
                assert forall|g: int| 0 <= g < keys@.len() implies key_appears(
                    items@,
                    i + 1,
                    #[trigger] keys@[g],
                ) by {
                    lemma_key_appears_mono(items@, i as int, i + 1, keys@[g]);
                }
            }
        }
        i += 1;
    }
    keys
}

/// A key seen among the first `n` entries is seen among the first `m >= n`.
proof fn lemma_key_appears_mono<T>(items: Seq<(u64, T)>, n: int, m: int, key: u64)
    requires
        n <= m,
        key_appears(items, n, key),
    ensures
        key_appears(items, m, key),
{
    let iw = choose|iw: int| 0 <= iw < n && (#[trigger] items[iw]).0 == key;
    assert(0 <= iw < m && items[iw].0 == key);
}

/// Linear membership scan over plain keys.
fn contains_u64(v: &Vec<u64>, x: u64) -> (r: bool)
    ensures
        r == v@.contains(x),
{
    let mut i: usize = 0;
    while i < v.len()
        invariant
            i <= v@.len(),
            forall|j: int| 0 <= j < i ==> v@[j] != x,
        decreases v@.len() - i,
    {
        if v[i] == x {
            assert(v@[i as int] == x);
            return true;
        }
        i += 1;
    }
    false
}

/// The values one key carries, in appearance order.
fn collect_values<T: Copy>(items: &Vec<(u64, T)>, key: u64) -> (r: Vec<T>)
    ensures
        r@ == values_for(items@, key),
{
    let mut out: Vec<T> = Vec::new();
    let mut i: usize = 0;
    while i < items.len()
        invariant
            i <= items@.len(),
            out@ == values_for(items@.take(i as int), key),
        decreases items@.len() - i,
    {
        proof {
            lemma_values_for_take_step(items@, i as int, key);
        }
        if items[i].0 == key {
            out.push(items[i].1);
        }
        i += 1;
    }
    proof {
        assert(items@.take(items@.len() as int) =~= items@);
    }
    out
}

/// Groups keyed draw requests for reconciliation: one group per distinct
/// key, in first-appearance order, each holding its key's values in
/// appearance order.
pub fn group_by_key<T: Copy>(items: &Vec<(u64, T)>) -> (r: Vec<(u64, Vec<T>)>)
    ensures
        keys_unique_req(r@),
        forall|g: int| 0 <= g < r@.len() ==> (#[trigger] r@[g]).1@ == values_for(items@, r@[g].0),
        forall|g: int|
            0 <= g < r@.len() ==> key_appears(items@, items@.len() as int, (#[trigger] r@[g]).0),
        forall|i: int| 0 <= i < items@.len() ==> has_group(r@, (#[trigger] items@[i]).0),
{
    let keys = distinct_keys(items);
    let mut groups: Vec<(u64, Vec<T>)> = Vec::new();
    let mut g: usize = 0;
    while g < keys.len()
        invariant
            g <= keys@.len(),
            keys@.no_duplicates(),
            groups@.len() == g,
            forall|g2: int| 0 <= g2 < g ==> (#[trigger] groups@[g2]).0 == keys@[g2],
            forall|g2: int|
                0 <= g2 < g ==> (#[trigger] groups@[g2]).1@ == values_for(items@, groups@[g2].0),
        decreases keys@.len() - g,
    {
        let key = keys[g];
        groups.push((key, collect_values(items, key)));
        g += 1;
    }
    proof {
        assert forall|g2: int, g3: int|
            0 <= g2 < g3 < groups@.len() implies (#[trigger] groups@[g2]).0 != (
            #[trigger] groups@[g3]).0 by {
            assert(groups@[g2].0 == keys@[g2]);
            assert(groups@[g3].0 == keys@[g3]);
        }
        assert forall|g2: int| 0 <= g2 < groups@.len() implies key_appears(
            items@,
            items@.len() as int,
            (#[trigger] groups@[g2]).0,
        ) by {
            assert(groups@[g2].0 == keys@[g2]);
        }
        assert forall|i: int| 0 <= i < items@.len() implies has_group(
            groups@,
            (#[trigger] items@[i]).0,
        ) by {
            assert(keys@.contains(items@[i].0));
            let gw = choose|gw: int| 0 <= gw < keys@.len() && keys@[gw] == items@[i].0;
            assert(groups@[gw].0 == items@[i].0);
        }
    }
    groups
}

} // verus!
