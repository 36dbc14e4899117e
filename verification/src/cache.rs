//! Sharded LRU block cache keyed by `(file_id, block_offset)`.

use std::collections::HashMap;
use std::sync::Arc;

use vstd::prelude::*;

use crate::shape::share;

verus! {

use crate::counts::sat_add;

/// No node.
pub const NIL: usize = usize::MAX;

pub const SHARDS: usize = 16;

/// One number for a block's place.
pub open spec fn block_key(file: u64, off: u64) -> u128 {
    (file as u128 * 0x1_0000_0000_0000_0000 + off as u128) as u128
}

fn key_of(file: u64, off: u64) -> (k: u128)
    ensures
        k == block_key(file, off),
{
    file as u128 * 0x1_0000_0000_0000_0000 + off as u128
}

/// Different places have different numbers.
pub proof fn lemma_block_key_injective(f: u64, o: u64, g: u64, p: u64)
    requires
        block_key(f, o) == block_key(g, p),
    ensures
        f == g && o == p,
{
}

pub type Item = (u128, Arc<Vec<u8>>);

struct Node {
    key: u128,
    val: Arc<Vec<u8>>,
    prev: usize,
    next: usize,
}

/// Bytes of all items.
pub open spec fn items_bytes(items: Seq<Item>) -> nat
    decreases items.len(),
{
    if items.len() == 0 {
        0
    } else {
        items_bytes(items.drop_last()) + items.last().1@.len()
    }
}

/// Where the key stands.
pub open spec fn holds_key(items: Seq<Item>, key: u128) -> bool {
    exists|k: int| 0 <= k < items.len() && (#[trigger] items[k]).0 == key
}

pub open spec fn place(items: Seq<Item>, key: u128) -> int {
    choose|k: int| 0 <= k < items.len() && (#[trigger] items[k]).0 == key
}

/// The items without that of the key.
pub open spec fn without(items: Seq<Item>, key: u128) -> Seq<Item> {
    if holds_key(items, key) {
        items.remove(place(items, key))
    } else {
        items
    }
}

/// What stays of the items under a byte limit: the least recent leave first,
/// but never the most recent.
pub open spec fn fitting(items: Seq<Item>, cap: nat) -> Seq<Item>
    decreases items.len(),
{
    if items.len() > 1 && items_bytes(items) > cap {
        fitting(items.drop_last(), cap)
    } else {
        items
    }
}

proof fn lemma_bytes_add(a: Seq<Item>, b: Seq<Item>)
    ensures
        items_bytes(a + b) == items_bytes(a) + items_bytes(b),
    decreases b.len(),
{
    if b.len() == 0 {
        assert(a + b =~= a);
    } else {
        assert((a + b).drop_last() =~= a + b.drop_last());
        lemma_bytes_add(a, b.drop_last());
    }
}

proof fn lemma_bytes_remove(items: Seq<Item>, k: int)
    requires
        0 <= k < items.len(),
    ensures
        items_bytes(items.remove(k)) + items[k].1@.len() == items_bytes(items),
{
    let a = items.take(k);
    let b = items.skip(k + 1);
    let one = seq![items[k]];
    assert(items =~= a + one + b);
    assert(items.remove(k) =~= a + b);
    lemma_bytes_add(a + one, b);
    lemma_bytes_add(a, one);
    lemma_bytes_add(a, b);
    assert(one.drop_last() =~= Seq::<Item>::empty());
    assert(items_bytes(one) == items_bytes(one.drop_last()) + one.last().1@.len());
}

pub struct Shard {
    map: HashMap<u128, usize>,
    nodes: Vec<Node>,
    free: Vec<usize>,
    /// Most recently used.
    head: usize,
    /// Least recently used.
    tail: usize,
    bytes: usize,
    cap: usize,
    /// The nodes in use, most recent first.
    order: Ghost<Seq<usize>>,
}

/// The list runs through these nodes in this order.
spec fn linked(nodes: Seq<Node>, order: Seq<usize>, head: usize, tail: usize) -> bool {
    &&& forall|k: int| 0 <= k < order.len() ==> (#[trigger] order[k]) < nodes.len()
    &&& forall|k: int, l: int| 0 <= k < l < order.len() ==> #[trigger] order[k] != #[trigger] order[l]
    &&& head == (if order.len() == 0 {
        NIL
    } else {
        order[0]
    })
    &&& tail == (if order.len() == 0 {
        NIL
    } else {
        order[order.len() - 1]
    })
    &&& forall|k: int|
        0 <= k < order.len() ==> (#[trigger] nodes[order[k] as int]).prev == (if k == 0 {
            NIL
        } else {
            order[k - 1]
        }) && nodes[order[k] as int].next == (if k == order.len() - 1 {
            NIL
        } else {
            order[k + 1]
        })
}

spec fn items_of(nodes: Seq<Node>, order: Seq<usize>) -> Seq<Item> {
    Seq::new(
        order.len(),
        |k: int| (nodes[order[k] as int].key, nodes[order[k] as int].val),
    )
}

/// The map leads to exactly the nodes in use.
spec fn mapped(map: Map<u128, usize>, nodes: Seq<Node>, order: Seq<usize>) -> bool {
    &&& forall|k: int|
        0 <= k < order.len() ==> map.contains_key(#[trigger] nodes[order[k] as int].key)
            && map[nodes[order[k] as int].key] == order[k]
    &&& forall|x: u128| #[trigger]
        map.contains_key(x) ==> exists|k: int| 0 <= k < order.len() && #[trigger] order[k] == map[x]
            && nodes[order[k] as int].key == x
}

spec fn spare(free: Seq<usize>, n: nat, order: Seq<usize>) -> bool {
    &&& forall|k: int| 0 <= k < free.len() ==> (#[trigger] free[k]) < n
    &&& forall|k: int, l: int| 0 <= k < l < free.len() ==> #[trigger] free[k] != #[trigger] free[l]
    &&& forall|k: int, l: int|
        0 <= k < free.len() && 0 <= l < order.len() ==> #[trigger] free[k] != #[trigger] order[l]
}

impl Shard {
    /// The items, most recently used first.
    pub closed spec fn items(self) -> Seq<Item> {
        items_of(self.nodes@, self.order@)
    }

    pub closed spec fn limit(self) -> nat {
        self.cap as nat
    }

    spec fn inv_but_bytes(self) -> bool {
        &&& linked(self.nodes@, self.order@, self.head, self.tail)
        &&& mapped(self.map@, self.nodes@, self.order@)
        &&& spare(self.free@, self.nodes@.len(), self.order@)
    }

    /// The list, the map and the byte count agree.
    pub closed spec fn inv(self) -> bool {
        self.inv_but_bytes() && self.bytes == items_bytes(self.items())
    }

    /// Each key has one item.
    pub proof fn lemma_one_item_per_key(&self, k: int, l: int)
        requires
            self.inv(),
            0 <= k < self.items().len(),
            0 <= l < self.items().len(),
            self.items()[k].0 == self.items()[l].0,
        ensures
            k == l,
    {
        let o = self.order@;
        assert(self.map@[self.nodes@[o[k] as int].key] == o[k]);
        assert(self.map@[self.nodes@[o[l] as int].key] == o[l]);
        if k < l {
            assert(o[k] != o[l]);
        } else if l < k {
            assert(o[l] != o[k]);
        }
    }

    pub fn new(cap: usize) -> (s: Self)
        ensures
            s.inv(),
            s.items() == Seq::<Item>::empty(),
            s.limit() == cap,
    {
        broadcast use vstd::std_specs::hash::group_hash_axioms;

        let s = Shard {
            map: HashMap::new(),
            nodes: Vec::new(),
            free: Vec::new(),
            head: NIL,
            tail: NIL,
            bytes: 0,
            cap,
            order: Ghost(Seq::empty()),
        };
        assert(s.items() =~= Seq::<Item>::empty());
        s
    }

    /// Take node `i`, the `k`-th of the list, out of it.
    fn unlink(&mut self, i: usize, Ghost(k): Ghost<int>)
        requires
            linked(old(self).nodes@, old(self).order@, old(self).head, old(self).tail),
            0 <= k < old(self).order@.len(),
            old(self).order@[k] == i,
        ensures
            linked(final(self).nodes@, final(self).order@, final(self).head, final(self).tail),
            final(self).order@ == old(self).order@.remove(k),
            final(self).nodes@.len() == old(self).nodes@.len(),
            forall|x: int|
                0 <= x < old(self).nodes@.len() ==> (#[trigger] final(self).nodes@[x]).key == old(
                    self,
                ).nodes@[x].key && final(self).nodes@[x].val == old(self).nodes@[x].val,
            final(self).map == old(self).map,
            final(self).free == old(self).free,
            final(self).bytes == old(self).bytes,
            final(self).cap == old(self).cap,
    {
        let ghost o = self.order@;
        let ghost n0 = self.nodes@;
        proof {
            assert(n0[o[k] as int].prev == (if k == 0 {
                NIL
            } else {
                o[k - 1]
            }));
            if k > 0 {
                assert(o[k - 1] < n0.len());
            }
            if k < o.len() - 1 {
                assert(o[k + 1] < n0.len());
            }
        }
        let p: usize = self.nodes[i].prev;
        let n: usize = self.nodes[i].next;
        proof {
            assert(self.nodes.len() == n0.len());
            assert(k > 0 ==> p != NIL);
            assert(k < o.len() - 1 ==> n != NIL);
        }
        if p != NIL {
            self.nodes[p].next = n;
        } else {
            self.head = n;
        }
        if n != NIL {
            self.nodes[n].prev = p;
        } else {
            self.tail = p;
        }
        self.nodes[i].prev = NIL;
        self.nodes[i].next = NIL;
        self.order = Ghost(o.remove(k));
        proof {
            let o2 = o.remove(k);
            let n2 = self.nodes@;
            assert forall|x: int| 0 <= x < o2.len() implies (#[trigger] o2[x]) < n2.len() by {
                let a = if x < k {
                    x
                } else {
                    x + 1
                };
                assert(o[a] < n0.len());
            }
            assert forall|x: int, y: int| 0 <= x < y < o2.len() implies #[trigger] o2[x]
                != #[trigger] o2[y] by {
                let a = if x < k {
                    x
                } else {
                    x + 1
                };
                let b = if y < k {
                    y
                } else {
                    y + 1
                };
                assert(o[a] != o[b]);
            }
            assert forall|x: int| 0 <= x < o2.len() implies (#[trigger] n2[o2[x] as int]).prev == (if x
                == 0 {
                NIL
            } else {
                o2[x - 1]
            }) && n2[o2[x] as int].next == (if x == o2.len() - 1 {
                NIL
            } else {
                o2[x + 1]
            }) by {
                let a = if x < k {
                    x
                } else {
                    x + 1
                };
                assert(o2[x] == o[a]);
                assert(n0[o[a] as int].prev == (if a == 0 {
                    NIL
                } else {
                    o[a - 1]
                }));
                if a < k {
                    assert(o[a] != o[k]);
                } else {
                    assert(o[k] != o[a]);
                }
                if k > 0 {
                    if a < k - 1 {
                        assert(o[a] != o[k - 1]);
                    } else if a > k - 1 {
                        assert(o[k - 1] != o[a]);
                    }
                }
                if k < o.len() - 1 {
                    if a < k + 1 {
                        assert(o[a] != o[k + 1]);
                    } else if a > k + 1 {
                        assert(o[k + 1] != o[a]);
                    }
                }
            }
        }
    }

    /// Put node `i`, which is not in the list, at its front.
    fn push_front(&mut self, i: usize)
        requires
            linked(old(self).nodes@, old(self).order@, old(self).head, old(self).tail),
            i < old(self).nodes@.len(),
            forall|k: int| 0 <= k < old(self).order@.len() ==> #[trigger] old(self).order@[k] != i,
        ensures
            linked(final(self).nodes@, final(self).order@, final(self).head, final(self).tail),
            final(self).order@ == seq![i] + old(self).order@,
            final(self).nodes@.len() == old(self).nodes@.len(),
            forall|x: int|
                0 <= x < old(self).nodes@.len() ==> (#[trigger] final(self).nodes@[x]).key == old(
                    self,
                ).nodes@[x].key && final(self).nodes@[x].val == old(self).nodes@[x].val,
            final(self).map == old(self).map,
            final(self).free == old(self).free,
            final(self).bytes == old(self).bytes,
            final(self).cap == old(self).cap,
    {
        let ghost o = self.order@;
        let ghost n0 = self.nodes@;
        proof {
            assert(self.nodes.len() == n0.len());
            if o.len() > 0 {
                assert(o[0] < n0.len());
                assert(o[o.len() - 1] < n0.len());
            }
        }
        let h: usize = self.head;
        self.nodes[i].prev = NIL;
        self.nodes[i].next = h;
        if h != NIL {
            self.nodes[h].prev = i;
        }
        self.head = i;
        if self.tail == NIL {
            self.tail = i;
        }
        self.order = Ghost(seq![i] + o);
        proof {
            let o2 = seq![i] + o;
            let n2 = self.nodes@;
            assert forall|x: int| 0 <= x < o2.len() implies (#[trigger] o2[x]) < n2.len() by {
                if x > 0 {
                    assert(o[x - 1] < n0.len());
                }
            }
            assert forall|x: int, y: int| 0 <= x < y < o2.len() implies #[trigger] o2[x]
                != #[trigger] o2[y] by {
                if x == 0 {
                    assert(o[y - 1] != i);
                } else {
                    assert(o[x - 1] != o[y - 1]);
                }
            }
            assert forall|x: int| 0 <= x < o2.len() implies (#[trigger] n2[o2[x] as int]).prev == (if x
                == 0 {
                NIL
            } else {
                o2[x - 1]
            }) && n2[o2[x] as int].next == (if x == o2.len() - 1 {
                NIL
            } else {
                o2[x + 1]
            }) by {
                if x > 0 {
                    assert(o2[x] == o[x - 1]);
                    assert(o[x - 1] != i);
                    assert(n0[o[x - 1] as int].prev == (if x - 1 == 0 {
                        NIL
                    } else {
                        o[x - 2]
                    }));
                    if x - 1 > 0 {
                        assert(o[0] != o[x - 1]);
                    }
                }
            }
        }
    }

    /// Move node `i`, the `k`-th of the list, to its front.
    fn refresh(&mut self, i: usize, Ghost(k): Ghost<int>)
        requires
            old(self).inv_but_bytes(),
            0 <= k < old(self).order@.len(),
            old(self).order@[k] == i,
        ensures
            final(self).inv_but_bytes(),
            final(self).order@ == seq![i] + old(self).order@.remove(k),
            final(self).items() == seq![old(self).items()[k]] + old(self).items().remove(k),
            final(self).map == old(self).map,
            final(self).bytes == old(self).bytes,
            final(self).cap == old(self).cap,
    {
        let ghost o = self.order@;
        let ghost n0 = self.nodes@;
        let ghost m = self.map@;
        let ghost it0 = self.items();
        self.unlink(i, Ghost(k));
        let ghost o1 = self.order@;
        proof {
            assert forall|x: int| 0 <= x < o1.len() implies #[trigger] o1[x] != i by {
                let a = if x < k {
                    x
                } else {
                    x + 1
                };
                assert(o1[x] == o[a]);
                if a < k {
                    assert(o[a] != o[k]);
                } else {
                    assert(o[k] != o[a]);
                }
            }
            assert(o[k] < n0.len());
        }
        self.push_front(i);
        proof {
            let o2 = self.order@;
            let n2 = self.nodes@;
            assert forall|x: int| 0 <= x < o2.len() implies m.contains_key(
                #[trigger] n2[o2[x] as int].key,
            ) && m[n2[o2[x] as int].key] == o2[x] by {
                let a = if x == 0 {
                    k
                } else if x - 1 < k {
                    x - 1
                } else {
                    x
                };
                assert(o2[x] == o[a]);
                assert(o[a] < n0.len());
                assert(n2[o[a] as int].key == n0[o[a] as int].key);
                assert(m.contains_key(n0[o[a] as int].key));
            }
            assert forall|y: u128| #[trigger] m.contains_key(y) implies exists|x: int|
                0 <= x < o2.len() && #[trigger] o2[x] == m[y] && n2[o2[x] as int].key == y by {
                let a = choose|a: int|
                    0 <= a < o.len() && #[trigger] o[a] == m[y] && n0[o[a] as int].key == y;
                let x = if a == k {
                    0
                } else if a < k {
                    a + 1
                } else {
                    a
                };
                assert(o2[x] == o[a]);
                assert(o[a] < n0.len());
                assert(n2[o[a] as int].key == n0[o[a] as int].key);
            }
            assert forall|a: int, x: int| 0 <= a < self.free@.len() && 0 <= x < o2.len() implies
                #[trigger] self.free@[a] != #[trigger] o2[x] by {
                let b = if x == 0 {
                    k
                } else if x - 1 < k {
                    x - 1
                } else {
                    x
                };
                assert(o2[x] == o[b]);
            }
            let want = seq![it0[k]] + it0.remove(k);
            assert forall|x: int| 0 <= x < o2.len() implies self.items()[x] == want[x] by {
                let a = if x == 0 {
                    k
                } else if x - 1 < k {
                    x - 1
                } else {
                    x
                };
                assert(o2[x] == o[a]);
                assert(o[a] < n0.len());
                assert(n2[o[a] as int].key == n0[o[a] as int].key);
                assert(want[x] == it0[a]);
            }
            assert(self.items() =~= want);
        }
    }

    /// Where the node of a key stands in the list.
    proof fn lemma_found(&self, key: u128) -> (k: int)
        requires
            self.inv_but_bytes(),
            self.map@.contains_key(key),
        ensures
            0 <= k < self.order@.len(),
            self.order@[k] == self.map@[key],
            self.items()[k].0 == key,
            holds_key(self.items(), key),
            place(self.items(), key) == k,
    {
        let o = self.order@;
        let k = choose|k: int|
            0 <= k < o.len() && #[trigger] o[k] == self.map@[key] && self.nodes@[o[k] as int].key
                == key;
        assert(self.items()[k].0 == key);
        let l = place(self.items(), key);
        assert(self.items()[l].0 == key);
        assert(self.map@[self.nodes@[o[l] as int].key] == o[l]);
        if k < l {
            assert(o[k] != o[l]);
        } else if l < k {
            assert(o[l] != o[k]);
        }
        k
    }

    proof fn lemma_not_found(&self, key: u128)
        requires
            self.inv_but_bytes(),
            !self.map@.contains_key(key),
        ensures
            !holds_key(self.items(), key),
    {
        if holds_key(self.items(), key) {
            let k = place(self.items(), key);
            assert(self.items()[k].0 == key);
            assert(self.map@.contains_key(self.nodes@[self.order@[k] as int].key));
        }
    }

    /// The value of the key, which is then the most recently used.
    pub fn get(&mut self, key: u128) -> (r: Option<Arc<Vec<u8>>>)
        requires
            old(self).inv(),
        ensures
            final(self).inv(),
            final(self).limit() == old(self).limit(),
            match r {
                Some(v) => holds_key(old(self).items(), key) && (key, v) == old(self).items()[place(
                    old(self).items(),
                    key,
                )] && final(self).items() == seq![(key, v)] + without(old(self).items(), key),
                None => !holds_key(old(self).items(), key) && final(self).items() == old(
                    self,
                ).items(),
            },
    {
        broadcast use vstd::std_specs::hash::group_hash_axioms;

        let i: usize = match self.map.get(&key) {
            Some(i) => *i,
            None => {
                proof {
                    self.lemma_not_found(key);
                }
                return None;
            },
        };
        let ghost it0 = self.items();
        let ghost k = 0int;
        proof {
            k = self.lemma_found(key);
        }
        self.refresh(i, Ghost(k));
        proof {
            lemma_bytes_remove(it0, k);
            lemma_bytes_add(seq![it0[k]], it0.remove(k));
            assert(seq![it0[k]].drop_last() =~= Seq::<Item>::empty());
            assert(items_bytes(seq![it0[k]]) == items_bytes(seq![it0[k]].drop_last())
                + it0[k].1@.len());
            assert(self.order@[0] == i);
            assert(self.order@[0] < self.nodes@.len());
            assert(self.items()[0] == it0[k]);
        }
        Some(share(&self.nodes[i].val))
    }

    /// Put a new node for the key at the front.
    fn add_front(&mut self, key: u128, val: Arc<Vec<u8>>)
        requires
            old(self).inv_but_bytes(),
            !old(self).map@.contains_key(key),
        ensures
            final(self).inv_but_bytes(),
            final(self).items() == seq![(key, val)] + old(self).items(),
            final(self).bytes == old(self).bytes,
            final(self).cap == old(self).cap,
    {
        broadcast use vstd::std_specs::hash::group_hash_axioms;

        let ghost o = self.order@;
        let ghost n0 = self.nodes@;
        let ghost m0 = self.map@;
        let ghost it0 = self.items();
        let ghost f0 = self.free@;
        let node = Node { key, val, prev: NIL, next: NIL };
        let i: usize = match self.free.pop() {
            Some(i) => {
                assert(f0[f0.len() - 1] == i);
                self.nodes.set(i, node);
                i
            },
            None => {
                self.nodes.push(node);
                self.nodes.len() - 1
            },
        };
        proof {
            assert forall|k: int| 0 <= k < o.len() implies #[trigger] o[k] != i
                && self.nodes@[o[k] as int] == n0[o[k] as int] by {
                assert(o[k] < n0.len());
                if f0.len() > 0 {
                    assert(f0[f0.len() - 1] != o[k]);
                }
            }
            assert(linked(self.nodes@, o, self.head, self.tail));
        }
        let ghost n1 = self.nodes@;
        self.map.insert(key, i);
        self.push_front(i);
        proof {
            let o2 = self.order@;
            let n2 = self.nodes@;
            let m2 = self.map@;
            assert(n1[i as int].key == key);
            assert forall|x: int| 0 <= x < o2.len() implies m2.contains_key(
                #[trigger] n2[o2[x] as int].key,
            ) && m2[n2[o2[x] as int].key] == o2[x] by {
                if x > 0 {
                    assert(o2[x] == o[x - 1]);
                    assert(o[x - 1] < n0.len());
                    assert(n1[o[x - 1] as int] == n0[o[x - 1] as int]);
                    assert(n2[o[x - 1] as int].key == n1[o[x - 1] as int].key);
                    assert(m0.contains_key(n0[o[x - 1] as int].key));
                } else {
                    assert(n2[i as int].key == n1[i as int].key);
                }
            }
            assert forall|y: u128| #[trigger] m2.contains_key(y) implies exists|x: int|
                0 <= x < o2.len() && #[trigger] o2[x] == m2[y] && n2[o2[x] as int].key == y by {
                if y == key {
                    assert(o2[0] == i);
                    assert(n2[i as int].key == n1[i as int].key);
                } else {
                    assert(m0.contains_key(y));
                    let a = choose|a: int|
                        0 <= a < o.len() && #[trigger] o[a] == m0[y] && n0[o[a] as int].key == y;
                    assert(o2[a + 1] == o[a]);
                    assert(o[a] < n0.len());
                    assert(n1[o[a] as int] == n0[o[a] as int]);
                    assert(n2[o[a] as int].key == n1[o[a] as int].key);
                }
            }
            assert(spare(self.free@, n2.len(), o2)) by {
                let f = self.free@;
                assert forall|a: int| 0 <= a < f.len() implies (#[trigger] f[a]) < n2.len() by {
                    assert(f0[a] < n0.len());
                }
                assert forall|a: int, b: int| 0 <= a < b < f.len() implies #[trigger] f[a]
                    != #[trigger] f[b] by {
                    assert(f0[a] != f0[b]);
                }
                assert forall|a: int, x: int| 0 <= a < f.len() && 0 <= x < o2.len() implies
                    #[trigger] f[a] != #[trigger] o2[x] by {
                    if x > 0 {
                        assert(f0[a] != o[x - 1]);
                    } else if f0.len() > 0 {
                        assert(f0[a] != f0[f0.len() - 1]);
                    }
                }
            }
            let want = seq![(key, val)] + it0;
            assert forall|x: int| 0 <= x < o2.len() implies self.items()[x] == want[x] by {
                if x > 0 {
                    assert(o2[x] == o[x - 1]);
                    assert(o[x - 1] < n0.len());
                    assert(n1[o[x - 1] as int] == n0[o[x - 1] as int]);
                    assert(n2[o[x - 1] as int].key == n1[o[x - 1] as int].key);
                } else {
                    assert(n2[i as int].key == n1[i as int].key);
                }
            }
            assert(self.items() =~= want);
        }
    }

    /// Replace the value of node `i`, the first of the list.
    fn replace_front(&mut self, i: usize, val: Arc<Vec<u8>>)
        requires
            old(self).inv_but_bytes(),
            old(self).order@.len() > 0,
            old(self).order@[0] == i,
        ensures
            final(self).inv_but_bytes(),
            final(self).items() == seq![(old(self).items()[0].0, val)] + old(self).items().skip(1),
            final(self).bytes == old(self).bytes,
            final(self).cap == old(self).cap,
    {
        let ghost o = self.order@;
        let ghost n0 = self.nodes@;
        let ghost it0 = self.items();
        assert(o[0] < n0.len());
        self.nodes[i].val = val;
        proof {
            let n2 = self.nodes@;
            assert forall|x: int| 0 <= x < n2.len() implies (#[trigger] n2[x]).key == n0[x].key
                && n2[x].prev == n0[x].prev && n2[x].next == n0[x].next by {}
            assert forall|x: int| 0 <= x < o.len() implies self.map@.contains_key(
                #[trigger] n2[o[x] as int].key,
            ) && self.map@[n2[o[x] as int].key] == o[x] by {
                assert(o[x] < n0.len());
                assert(self.map@.contains_key(n0[o[x] as int].key));
            }
            assert forall|x: int| 0 <= x < o.len() implies (#[trigger] n2[o[x] as int]).prev == (if x
                == 0 {
                NIL
            } else {
                o[x - 1]
            }) && n2[o[x] as int].next == (if x == o.len() - 1 {
                NIL
            } else {
                o[x + 1]
            }) by {
                assert(o[x] < n0.len());
                assert(n0[o[x] as int].prev == (if x == 0 {
                    NIL
                } else {
                    o[x - 1]
                }));
            }
            assert forall|y: u128| #[trigger] self.map@.contains_key(y) implies exists|x: int|
                0 <= x < o.len() && #[trigger] o[x] == self.map@[y] && n2[o[x] as int].key == y by {
                let a = choose|a: int|
                    0 <= a < o.len() && #[trigger] o[a] == self.map@[y] && n0[o[a] as int].key
                        == y;
                assert(o[a] < n0.len());
                assert(n2[o[a] as int].key == n0[o[a] as int].key);
            }
            let want = seq![(it0[0].0, val)] + it0.skip(1);
            assert forall|x: int| 0 <= x < o.len() implies self.items()[x] == want[x] by {
                assert(o[x] < n0.len());
                if x > 0 {
                    assert(o[0] != o[x]);
                    assert(n2[o[x] as int] == n0[o[x] as int]);
                    assert(want[x] == it0[x]);
                }
            }
            assert(self.items() =~= want);
        }
    }

    /// Drop the least recently used item.
    fn drop_tail(&mut self)
        requires
            old(self).inv(),
            old(self).items().len() > 0,
        ensures
            final(self).inv(),
            final(self).items() == old(self).items().drop_last(),
            final(self).cap == old(self).cap,
    {
        broadcast use vstd::std_specs::hash::group_hash_axioms;

        let ghost o = self.order@;
        let ghost n0 = self.nodes@;
        let ghost m0 = self.map@;
        let ghost it0 = self.items();
        let ghost f0 = self.free@;
        let ghost last = o.len() - 1;
        let victim: usize = self.tail;
        proof {
            assert(o[last] == victim);
            assert(o[last] < n0.len());
            assert(it0[last] == (n0[victim as int].key, n0[victim as int].val));
            lemma_bytes_remove(it0, last);
            assert(it0.remove(last) =~= it0.drop_last());
        }
        let len: usize = self.nodes[victim].val.len();
        self.bytes = self.bytes - len;
        let vkey: u128 = self.nodes[victim].key;
        self.map.remove(&vkey);
        self.unlink(victim, Ghost(last));
        let empty: Vec<u8> = Vec::new();
        let ghost n1 = self.nodes@;
        self.nodes[victim].val = Arc::new(empty);
        self.free.push(victim);
        proof {
            let o2 = self.order@;
            let n2 = self.nodes@;
            let m2 = self.map@;
            assert(o2 =~= o.drop_last());
            assert forall|x: int| 0 <= x < o2.len() implies o2[x] == o[x] && (#[trigger] o2[x])
                != victim && n2[o2[x] as int] == n1[o2[x] as int] && n2[o2[x] as int].key
                == n0[o2[x] as int].key && n2[o2[x] as int].val == n0[o2[x] as int].val by {
                assert(o[x] != o[last]);
                assert(o[x] < n0.len());
            }
            assert(linked(n2, o2, self.head, self.tail)) by {
                assert forall|x: int| 0 <= x < o2.len() implies (#[trigger] n2[o2[x] as int]).prev
                    == (if x == 0 {
                    NIL
                } else {
                    o2[x - 1]
                }) && n2[o2[x] as int].next == (if x == o2.len() - 1 {
                    NIL
                } else {
                    o2[x + 1]
                }) by {
                    assert(n2[o2[x] as int] == n1[o2[x] as int]);
                    assert(n1[o2[x] as int].prev == (if x == 0 {
                        NIL
                    } else {
                        o2[x - 1]
                    }));
                }
            }
            assert forall|x: int| 0 <= x < o2.len() implies m2.contains_key(
                #[trigger] n2[o2[x] as int].key,
            ) && m2[n2[o2[x] as int].key] == o2[x] by {
                assert(o2[x] == o[x]);
                assert(m0.contains_key(n0[o[x] as int].key));
                assert(m0[n0[o[last] as int].key] == o[last]);
            }
            assert forall|y: u128| #[trigger] m2.contains_key(y) implies exists|x: int|
                0 <= x < o2.len() && #[trigger] o2[x] == m2[y] && n2[o2[x] as int].key == y by {
                assert(m0.contains_key(y));
                let a = choose|a: int|
                    0 <= a < o.len() && #[trigger] o[a] == m0[y] && n0[o[a] as int].key == y;
                assert(a != last);
                assert(o2[a] == o[a]);
            }
            let f = self.free@;
            assert forall|a: int| 0 <= a < f.len() implies (#[trigger] f[a]) < n2.len() by {
                if a < f0.len() {
                    assert(f0[a] < n0.len());
                }
            }
            assert forall|a: int, b: int| 0 <= a < b < f.len() implies #[trigger] f[a]
                != #[trigger] f[b] by {
                if b < f0.len() {
                    assert(f0[a] != f0[b]);
                } else {
                    assert(f0[a] != o[last]);
                }
            }
            assert forall|a: int, x: int| 0 <= a < f.len() && 0 <= x < o2.len() implies
                #[trigger] f[a] != #[trigger] o2[x] by {
                if a < f0.len() {
                    assert(f0[a] != o[x]);
                }
            }
            assert(self.items() =~= it0.drop_last());
        }
    }

    /// Insert or replace the value of a key, which is then the most recently
    /// used; the least recently used items leave while the bytes pass the limit,
    /// but never the one just touched.
    pub fn insert(&mut self, key: u128, val: Arc<Vec<u8>>)
        requires
            old(self).inv(),
            items_bytes(old(self).items()) + val@.len() <= usize::MAX,
        ensures
            final(self).inv(),
            final(self).limit() == old(self).limit(),
            final(self).items() == fitting(
                seq![(key, val)] + without(old(self).items(), key),
                old(self).limit(),
            ),
    {
        broadcast use vstd::std_specs::hash::group_hash_axioms;

        let ghost it0 = self.items();
        let ghost want = seq![(key, val)] + without(it0, key);
        let len: usize = val.len();
        proof {
            assert(seq![(key, val)].drop_last() =~= Seq::<Item>::empty());
            assert(items_bytes(seq![(key, val)]) == items_bytes(seq![(key, val)].drop_last())
                + val@.len());
        }
        let found: Option<usize> = match self.map.get(&key) {
            Some(i) => Some(*i),
            None => None,
        };
        match found {
            Some(i) => {
                let ghost k = 0int;
                proof {
                    k = self.lemma_found(key);
                    lemma_bytes_remove(it0, k);
                    lemma_bytes_add(seq![(key, val)], it0.remove(k));
                    assert(self.order@[k] < self.nodes@.len());
                }
                let gone: usize = self.nodes[i].val.len();
                self.bytes = self.bytes - gone + len;
                self.refresh(i, Ghost(k));
                proof {
                    assert((seq![it0[k]] + it0.remove(k)).skip(1) =~= it0.remove(k));
                }
                self.replace_front(i, val);
                assert(self.items() =~= want);
            },
            None => {
                proof {
                    self.lemma_not_found(key);
                    lemma_bytes_add(seq![(key, val)], it0);
                }
                self.bytes = self.bytes + len;
                self.add_front(key, val);
                assert(self.items() =~= want);
            },
        }
        while self.bytes > self.cap && self.tail != NIL && self.tail != self.head
            invariant
                self.inv(),
                self.limit() == old(self).limit(),
                fitting(self.items(), self.limit()) == fitting(want, self.limit()),
                self.items().len() > 0,
            decreases self.items().len(),
        {
            proof {
                let o = self.order@;
                assert(self.items().len() == o.len());
                assert(o.len() > 1);
            }
            self.drop_tail();
        }
        proof {
            let o = self.order@;
            assert(self.items().len() == o.len());
            assert(o[0] < self.nodes@.len());
            assert(self.nodes.len() == self.nodes@.len());
            if o.len() > 1 {
                assert(o[0] != o[o.len() - 1]);
                assert(o[o.len() - 1] < self.nodes@.len());
            }
        }
    }
}

/// The shard that a block belongs to.
pub open spec fn shard_of(file: u64, off: u64) -> int {
    (file.wrapping_mul(0x9e3779b97f4a7c15) ^ off) as int % 16
}

pub struct BlockCache {
    pub shards: Vec<Shard>,
    pub hits: u64,
    pub misses: u64,
}

impl BlockCache {
    pub open spec fn inv(self) -> bool {
        &&& self.shards@.len() == SHARDS
        &&& forall|i: int| 0 <= i < SHARDS ==> (#[trigger] self.shards@[i]).inv()
    }

    /// The items of the shard that the block belongs to.
    pub open spec fn items_for(self, file: u64, off: u64) -> Seq<Item> {
        self.shards@[shard_of(file, off)].items()
    }

    /// A cache of about this capacity, each shard at least 1 KiB.
    pub fn new(capacity: usize) -> (c: Self)
        ensures
            c.inv(),
            c.hits == 0,
            c.misses == 0,
            forall|i: int|
                0 <= i < SHARDS ==> (#[trigger] c.shards@[i]).items() == Seq::<Item>::empty()
                    && c.shards@[i].limit() == (if capacity / 16 > 1024 {
                    capacity as int / 16
                } else {
                    1024
                }),
    {
        let per: usize = if capacity / SHARDS > 1024 {
            capacity / SHARDS
        } else {
            1024
        };
        let mut shards: Vec<Shard> = Vec::new();
        let mut i: usize = 0;
        while i < SHARDS
            invariant
                i <= SHARDS,
                shards@.len() == i,
                forall|k: int|
                    0 <= k < i ==> (#[trigger] shards@[k]).inv() && shards@[k].items() == Seq::<
                        Item,
                    >::empty() && shards@[k].limit() == per,
            decreases SHARDS - i,
        {
            shards.push(Shard::new(per));
            i += 1;
        }
        BlockCache { shards, hits: 0, misses: 0 }
    }

    fn shard(file: u64, off: u64) -> (i: usize)
        ensures
            i == shard_of(file, off),
            i < SHARDS,
    {
        let h: u64 = file.wrapping_mul(0x9e3779b97f4a7c15) ^ off;
        (h % 16) as usize
    }

    /// The cached block, which is then the most recently used of its shard.
    pub fn get(&mut self, file: u64, off: u64) -> (r: Option<Arc<Vec<u8>>>)
        requires
            old(self).inv(),
        ensures
            final(self).inv(),
            ({
                let key = block_key(file, off);
                let items = old(self).items_for(file, off);
                match r {
                    Some(v) => holds_key(items, key) && items[place(items, key)] == (key, v)
                        && final(self).items_for(file, off) == seq![(key, v)] + without(items, key)
                        && final(self).hits == sat_add(old(self).hits, 1) && final(self).misses
                        == old(self).misses,
                    None => !holds_key(items, key) && final(self).items_for(file, off) == items
                        && final(self).misses == sat_add(old(self).misses, 1) && final(self).hits
                        == old(self).hits,
                }
            }),
            final(self).shards@[shard_of(file, off)].limit() == old(self).shards@[shard_of(
                file,
                off,
            )].limit(),
            forall|i: int|
                0 <= i < SHARDS && i != shard_of(file, off) ==> #[trigger] final(self).shards@[i]
                    == old(self).shards@[i],
    {
        let s: usize = BlockCache::shard(file, off);
        assert(self.shards@[s as int].inv());
        let r = self.shards[s].get(key_of(file, off));
        if r.is_some() {
            self.hits = self.hits.saturating_add(1);
        } else {
            self.misses = self.misses.saturating_add(1);
        }
        r
    }

    /// Keep a block.
    pub fn insert(&mut self, file: u64, off: u64, val: Arc<Vec<u8>>)
        requires
            old(self).inv(),
            items_bytes(old(self).items_for(file, off)) + val@.len() <= usize::MAX,
        ensures
            final(self).inv(),
            final(self).hits == old(self).hits,
            final(self).misses == old(self).misses,
            final(self).items_for(file, off) == fitting(
                seq![(block_key(file, off), val)] + without(
                    old(self).items_for(file, off),
                    block_key(file, off),
                ),
                old(self).shards@[shard_of(file, off)].limit(),
            ),
            final(self).shards@[shard_of(file, off)].limit() == old(self).shards@[shard_of(
                file,
                off,
            )].limit(),
            forall|i: int|
                0 <= i < SHARDS && i != shard_of(file, off) ==> #[trigger] final(self).shards@[i]
                    == old(self).shards@[i],
    {
        let s: usize = BlockCache::shard(file, off);
        assert(self.shards@[s as int].inv());
        self.shards[s].insert(key_of(file, off), val);
    }

    /// Hits and misses so far.
    pub fn hit_rate(&self) -> (r: (u64, u64))
        ensures
            r == (self.hits, self.misses),
    {
        (self.hits, self.misses)
    }
}

/// What stays of a cache that is to fit: the most recent items, all of them where
/// they fit, and always the first.
pub proof fn lemma_recent_items_stay(items: Seq<Item>, cap: nat)
    ensures
        fitting(items, cap).is_prefix_of(items),
        items.len() > 0 ==> fitting(items, cap).len() > 0,
        items_bytes(items) <= cap ==> fitting(items, cap) == items,
        items_bytes(fitting(items, cap)) <= cap || fitting(items, cap).len() <= 1,
        fitting(items, cap).len() < items.len() ==> items_bytes(
            items.take(fitting(items, cap).len() as int + 1),
        ) > cap,
    decreases items.len(),
{
    let f = fitting(items, cap);
    if items.len() > 1 && items_bytes(items) > cap {
        let init = items.drop_last();
        lemma_recent_items_stay(init, cap);
        assert(f == fitting(init, cap));
        assert(f.is_prefix_of(items)) by {
            assert(f =~= init.take(f.len() as int));
            assert(init.take(f.len() as int) =~= items.take(f.len() as int));
        }
        if f.len() < init.len() {
            assert(init.take(f.len() as int + 1) =~= items.take(f.len() as int + 1));
        } else {
            assert(items.take(f.len() as int + 1) =~= items);
        }
    } else {
        assert(items.take(items.len() as int) =~= items);
    }
}

/// A block that was put into the cache is found there, with the bytes that were
/// put, until something else is put.
pub proof fn lemma_inserted_is_found(before: Seq<Item>, key: u128, val: Arc<Vec<u8>>, cap: nat)
    requires
        forall|k: int, l: int|
            0 <= k < before.len() && 0 <= l < before.len() && (#[trigger] before[k]).0 == (
            #[trigger] before[l]).0 ==> k == l,
    ensures
        ({
            let after = fitting(seq![(key, val)] + without(before, key), cap);
            &&& holds_key(after, key)
            &&& after[place(after, key)] == (key, val)
            &&& forall|k: int|
                0 <= k < after.len() && (#[trigger] after[k]).0 != key ==> before.contains(after[k])
        }),
{
    let rest = without(before, key);
    let all = seq![(key, val)] + rest;
    let after = fitting(all, cap);
    lemma_recent_items_stay(all, cap);
    assert(after =~= all.take(after.len() as int));
    assert(after[0] == (key, val));
    assert(holds_key(after, key));
    assert forall|k: int| 0 <= k < rest.len() implies (#[trigger] rest[k]).0 != key
        && before.contains(rest[k]) by {
        if holds_key(before, key) {
            let p = place(before, key);
            let m = if k < p {
                k
            } else {
                k + 1
            };
            assert(rest[k] == before[m]);
            assert(before[p].0 == key);
            assert(before[m].0 == key ==> m == p);
        } else {
            assert(before[k].0 != key);
        }
    }
    let x = place(after, key);
    assert(after[x].0 == key);
    if x > 0 {
        assert(after[x] == rest[x - 1]);
    }
    assert forall|k: int| 0 <= k < after.len() && (#[trigger] after[k]).0 != key implies before.contains(
    after[k]) by {
        assert(k > 0);
        assert(after[k] == rest[k - 1]);
    }
}

} // verus!
