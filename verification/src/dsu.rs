//! Disjoint-set union over a fixed universe of elements, with lazy
//! union by size and path compression.  Every public operation checks
//! its element indices and reports an out-of-range index as an absent
//! result instead of failing.

use vstd::pervasive::unreached;
use vstd::prelude::*;
use vstd::set_lib::lemma_int_range;
use vstd::set_lib::lemma_len_subset;
use vstd::set_lib::lemma_set_disjoint_lens;
use vstd::set_lib::set_int_range;

verus! {

/// Index of an element in a disjoint-set union.
pub type DSUIdx = usize;

/// One element's slot: a root stores its group's size, any other
/// element stores its parent.
#[derive(Debug, Clone, Copy)]
enum Slot {
    Root { size: usize },
    Child { parent: usize },
}

/// The group size recorded in a slot: roots carry their group's size,
/// children carry nothing.
spec fn slot_size(s: Slot) -> int {
    match s {
        Slot::Root { size } => size as int,
        Slot::Child { .. } => 0,
    }
}

/// The sum of the recorded group sizes over the slots `0 .. k`.
spec fn sum_sizes(s: Seq<Slot>, k: int) -> int
    decreases k,
{
    if k <= 0 {
        0
    } else {
        sum_sizes(s, k - 1) + slot_size(s[k - 1])
    }
}

/// Changing one slot changes a prefix sum by exactly the difference of
/// the recorded sizes, and only where the prefix covers the slot.
proof fn lemma_sum_sizes_update(s: Seq<Slot>, j: int, v: Slot, k: int)
    requires
        0 <= j < s.len(),
        0 <= k <= s.len(),
    ensures
        sum_sizes(s.update(j, v), k) == sum_sizes(s, k) + if j < k {
            slot_size(v) - slot_size(s[j])
        } else {
            0
        },
    decreases k,
{
    if k > 0 {
        lemma_sum_sizes_update(s, j, v, k - 1);
    }
}

/// In an all-singleton table every prefix sums to its own length.
proof fn lemma_sum_sizes_all_singletons(s: Seq<Slot>, k: int)
    requires
        0 <= k <= s.len(),
        forall|j: int| 0 <= j < s.len() ==> #[trigger] slot_size(s[j]) == 1,
    ensures
        sum_sizes(s, k) == k,
    decreases k,
{
    if k > 0 {
        lemma_sum_sizes_all_singletons(s, k - 1);
    }
}

/// Disjoint sets union: a partition of `0 .. n` into groups, each
/// represented by one of its elements, with the group's size kept at
/// the representative.
#[derive(Clone)]
pub struct DSU {
    slots: Vec<Slot>,
    rep: Ghost<Seq<int>>,
    depth: Ghost<Seq<nat>>,
}

/// The sum, over the elements `0 .. k`, of the group size recorded by
/// each element that represents its group.
pub open spec fn rep_size_sum_upto(d: DSU, k: int) -> int
    decreases k,
{
    if k <= 0 {
        0
    } else {
        rep_size_sum_upto(d, k - 1) + if d.is_root(k - 1) {
            d.size_of(k - 1)
        } else {
            0
        }
    }
}

/// The elements of `0 .. k` whose representative is `r`, in ascending
/// order.
pub open spec fn members_upto(d: DSU, r: int, k: int) -> Seq<DSUIdx>
    decreases k,
{
    if k <= 0 {
        Seq::empty()
    } else {
        members_upto(d, r, k - 1) + if d.rep_of(k - 1) == r {
            seq![(k - 1) as DSUIdx]
        } else {
            Seq::empty()
        }
    }
}

/// The groups of the representatives among `0 .. k`, in ascending
/// order of representative.
pub open spec fn groups_upto(d: DSU, k: int) -> Seq<Seq<DSUIdx>>
    decreases k,
{
    if k <= 0 {
        Seq::empty()
    } else {
        groups_upto(d, k - 1) + if d.is_root(k - 1) {
            seq![members_upto(d, k - 1, d.n())]
        } else {
            Seq::empty()
        }
    }
}

impl DSU {
    /// The number of elements of the universe.
    pub closed spec fn n(self) -> int {
        self.slots@.len() as int
    }

    /// The representative of element `i`'s group.
    pub closed spec fn rep_of(self, i: int) -> int {
        self.rep@[i]
    }

    /// Whether element `i` currently represents its group.
    pub closed spec fn is_root(self, i: int) -> bool {
        self.slots@[i] is Root
    }

    /// The size recorded at slot `i`.
    closed spec fn size_at(self, i: int) -> int {
        slot_size(self.slots@[i])
    }

    /// The size of element `i`'s group.
    pub closed spec fn size_of(self, i: int) -> int {
        self.size_at(self.rep_of(i))
    }

    /// The group of element `i`: every element with the same
    /// representative.
    pub open spec fn group_of(self, i: int) -> Set<int> {
        Set::new(|j: int| 0 <= j < self.n() && self.rep_of(j) == self.rep_of(i))
    }

    /// The groups of element `i`'s representative, in ascending order.
    pub open spec fn members(self, r: int) -> Seq<DSUIdx> {
        members_upto(self, r, self.n())
    }

    /// All groups: for each representative in ascending order, its
    /// elements in ascending order.
    pub open spec fn groups_model(self) -> Seq<Seq<DSUIdx>> {
        groups_upto(self, self.n())
    }

    /// Two disjoint-set unions cannot be told apart by any operation:
    /// same universe, same representatives, same sizes.
    pub open spec fn same_model(self, other: DSU) -> bool {
        &&& self.n() == other.n()
        &&& forall|i: int| 0 <= i < self.n() ==> self.rep_of(i) == other.rep_of(i)
        &&& forall|i: int| 0 <= i < self.n() ==> self.is_root(i) == other.is_root(i)
        &&& forall|i: int| 0 <= i < self.n() ==> self.size_of(i) == other.size_of(i)
    }

    /// The structure's invariant.  Parent pointers stay in range and
    /// strictly descend a ghost depth, so every parent chain ends at
    /// the element's representative; each representative is a root and
    /// records exactly its group's cardinality; and the recorded sizes
    /// sum to the universe's size.
    pub closed spec fn wf(self) -> bool {
        &&& self.rep@.len() == self.n()
        &&& self.depth@.len() == self.n()
        &&& forall|i: int|
            0 <= i < self.n() ==> match #[trigger] self.slots@[i] {
                Slot::Child { parent } => {
                    &&& 0 <= parent < self.n()
                    &&& self.rep@[i] == self.rep@[parent as int]
                    &&& self.depth@[parent as int] < self.depth@[i]
                },
                Slot::Root { size } => {
                    &&& self.rep@[i] == i
                    &&& size as int == self.group_of(i).len()
                },
            }
        &&& forall|i: int|
            0 <= i < self.n() ==> 0 <= #[trigger] self.rep@[i] < self.n()
                && self.slots@[self.rep@[i]] is Root
        &&& forall|i: int|
            0 <= i < self.n() && i != self.rep@[i] ==> #[trigger] self.depth@[self.rep@[i]]
                < self.depth@[i]
        &&& sum_sizes(self.slots@, self.n()) == self.n()
    }

    /// A representative is in range, is a root, and represents itself;
    /// and a root represents itself.
    pub proof fn lemma_rep_props(self, i: int)
        requires
            self.wf(),
            0 <= i < self.n(),
        ensures
            0 <= self.rep_of(i) < self.n(),
            self.is_root(self.rep_of(i)),
            self.rep_of(self.rep_of(i)) == self.rep_of(i),
            self.is_root(i) ==> self.rep_of(i) == i,
            self.size_of(self.rep_of(i)) == self.size_of(i),
    {
    }

    /// A group is a finite set of at most `n` elements, and the size
    /// recorded for it is exactly its cardinality.
    pub proof fn lemma_size_is_group_len(self, i: int)
        requires
            self.wf(),
            0 <= i < self.n(),
        ensures
            self.group_of(i).finite(),
            self.size_of(i) == self.group_of(i).len(),
            1 <= self.size_of(i) <= self.n(),
    {
        let r = self.rep_of(i);
        assert(self.group_of(r) =~= self.group_of(i));
        lemma_int_range(0, self.n());
        lemma_len_subset(self.group_of(i), set_int_range(0, self.n()));
        assert(self.group_of(i).contains(i));
        lemma_len_subset(Set::<int>::empty().insert(i), self.group_of(i));
        assert(Set::<int>::empty().insert(i).len() == 1);
    }

    /// Create an empty disjoint-set union.
    pub fn new() -> (r: DSU)
        ensures
            r.wf(),
            r.n() == 0,
    {
        DSU::with_capacity(0)
    }

    /// Create a disjoint-set union of `n` singleton groups, each of
    /// size 1 and represented by its own element.
    pub fn with_capacity(n: usize) -> (r: DSU)
        ensures
            r.wf(),
            r.n() == n,
            forall|i: int| 0 <= i < n ==> #[trigger] r.rep_of(i) == i,
            forall|i: int| 0 <= i < n ==> #[trigger] r.size_of(i) == 1,
            forall|i: int| 0 <= i < n ==> #[trigger] r.is_root(i),
    {
        let mut slots: Vec<Slot> = Vec::new();
        let mut i: usize = 0;
        while i < n
            invariant
                i <= n,
                slots@.len() == i,
                forall|j: int| 0 <= j < i ==> (#[trigger] slots@[j]) == (Slot::Root { size: 1usize }),
            decreases n - i,
        {
            slots.push(Slot::Root { size: 1 });
            i = i + 1;
        }
        let r = DSU {
            slots,
            rep: Ghost(Seq::new(n as nat, |j: int| j)),
            depth: Ghost(Seq::new(n as nat, |j: int| 0nat)),
        };
        proof {
            assert forall|j: int| 0 <= j < n implies #[trigger] slot_size(r.slots@[j])
                == r.group_of(j).len() && slot_size(r.slots@[j]) == 1 by {
                assert(r.group_of(j) =~= Set::<int>::empty().insert(j));
                assert(Set::<int>::empty().insert(j).len() == 1);
            }
            lemma_sum_sizes_all_singletons(r.slots@, n as int);
        }
        r
    }

    /// Return the representative of the group that contains `a`, or
    /// nothing when `a` is out of bounds.  Performs no path
    /// compression, so a shared reference suffices.
    pub fn root(&self, a: DSUIdx) -> (r: Option<DSUIdx>)
        requires
            self.wf(),
        ensures
            match r {
                Some(root) => a < self.n() && root as int == self.rep_of(a as int) && self.is_root(
                    root as int,
                ),
                None => a >= self.n(),
            },
    {
        if a >= self.slots.len() {
            return None;
        }
        let mut cur: usize = a;
        loop
            invariant
                self.wf(),
                a < self.n(),
                cur < self.n(),
                self.rep_of(cur as int) == self.rep_of(a as int),
            decreases self.depth@[cur as int],
        {
            match self.slots[cur] {
                Slot::Root { .. } => {
                    proof {
                        assert(self.slots@[cur as int] is Root);
                        assert(self.rep@[cur as int] == cur as int);
                    }
                    return Some(cur);
                },
                Slot::Child { parent } => {
                    proof {
                        assert(self.slots@[cur as int] is Child);
                    }
                    cur = parent;
                },
            }
        }
    }

    /// Return the representative of the group that contains `a`, or
    /// nothing when `a` is out of bounds.  Compresses the walked path:
    /// every element on it is re-pointed directly at the
    /// representative, which changes no group, no representative and
    /// no size.
    pub fn root_mut(&mut self, a: DSUIdx) -> (r: Option<DSUIdx>)
        requires
            old(self).wf(),
        ensures
            final(self).wf(),
            final(self).same_model(*old(self)),
            match r {
                Some(root) => a < old(self).n() && root as int == old(self).rep_of(a as int)
                    && old(self).is_root(root as int),
                None => a >= old(self).n(),
            },
    {
        let r = self.root(a);
        let root: usize = match r {
            Some(root) => root,
            None => {
                return None;
            },
        };
        proof {
            self.lemma_rep_props(a as int);
        }
        let ghost orig = *self;
        let mut cur: usize = a;
        while cur != root
            invariant
                self.wf(),
                self.same_model(orig),
                self.rep@ == orig.rep@,
                self.depth@ == orig.depth@,
                cur < self.n(),
                root < self.n(),
                self.rep_of(cur as int) == root as int,
                self.is_root(root as int),
            decreases self.depth@[cur as int],
        {
            let parent: usize = match self.slots[cur] {
                Slot::Child { parent } => parent,
                Slot::Root { .. } => unreached(),
            };
            let ghost before = *self;
            self.slots[cur] = Slot::Child { parent: root };
            proof {
                lemma_sum_sizes_update(
                    before.slots@,
                    cur as int,
                    Slot::Child { parent: root },
                    before.n(),
                );
                assert forall|i: int| 0 <= i < self.n() implies self.group_of(i)
                    =~= before.group_of(i) by {}
                assert forall|i: int|
                    0 <= i < self.n() implies match #[trigger] self.slots@[i] {
                    Slot::Child { parent: p } => {
                        &&& 0 <= p < self.n()
                        &&& self.rep@[i] == self.rep@[p as int]
                        &&& self.depth@[p as int] < self.depth@[i]
                    },
                    Slot::Root { size } => {
                        &&& self.rep@[i] == i
                        &&& size as int == self.group_of(i).len()
                    },
                } by {
                    if i == cur as int {
                        assert(self.rep@[root as int] == root as int);
                    } else {
                        assert(self.slots@[i] == before.slots@[i]);
                        assert(self.group_of(i) =~= before.group_of(i));
                    }
                }
            }
            cur = parent;
        }
        Some(root)
    }

    /// Merge `a`'s group and `b`'s group.  Nothing happens and nothing
    /// is returned when an index is out of bounds or when the two
    /// elements already share a representative; so a merge that did
    /// unite the pair cannot do anything when repeated.  Otherwise the
    /// smaller group's representative is attached below the larger
    /// group's (the second argument's representative wins a size tie),
    /// the sizes are accumulated at the surviving representative, and
    /// that representative is returned.
    pub fn merge(&mut self, a: DSUIdx, b: DSUIdx) -> (r: Option<DSUIdx>)
        requires
            old(self).wf(),
        ensures
            final(self).wf(),
            final(self).n() == old(self).n(),
            (a >= old(self).n() || b >= old(self).n()) ==> r is None && final(self).same_model(
                *old(self),
            ),
            a < old(self).n() && b < old(self).n() && old(self).rep_of(a as int) == old(self).rep_of(b as int) ==> r is None && final(self).same_model(*old(self)),
            a < old(self).n() && b < old(self).n() && old(self).rep_of(a as int) != old(self).rep_of(b as int) ==> ({
                let ra = old(self).rep_of(a as int);
                let rb = old(self).rep_of(b as int);
                let w = if old(self).size_of(a as int) > old(self).size_of(b as int) {
                    ra
                } else {
                    rb
                };
                &&& r == Some(w as DSUIdx)
                &&& forall|i: int|
                    0 <= i < old(self).n() ==> #[trigger] final(self).rep_of(i) == if old(self).rep_of(i) == ra || old(self).rep_of(i) == rb {
                        w
                    } else {
                        old(self).rep_of(i)
                    }
                &&& forall|i: int|
                    0 <= i < old(self).n() ==> #[trigger] final(self).size_of(i) == if old(self).rep_of(i) == ra || old(self).rep_of(i) == rb {
                        old(self).size_of(a as int) + old(self).size_of(b as int)
                    } else {
                        old(self).size_of(i)
                    }
                &&& forall|i: int|
                    0 <= i < old(self).n() ==> #[trigger] final(self).is_root(i) == (old(
                        self,
                    ).is_root(i) && i != (if w == ra {
                        rb
                    } else {
                        ra
                    }))
            }),
            a < old(self).n() && b < old(self).n() ==> final(self).rep_of(a as int) == final(self).rep_of(b as int),
    {
        let ra_opt = self.root(a);
        let rb_opt = self.root(b);
        let (ra, rb): (usize, usize) = match (ra_opt, rb_opt) {
            (Some(ra), Some(rb)) => (ra, rb),
            _ => {
                return None;
            },
        };
        if ra == rb {
            return None;
        }
        let sa: usize = match self.slots[ra] {
            Slot::Root { size } => size,
            Slot::Child { .. } => unreached(),
        };
        let sb: usize = match self.slots[rb] {
            Slot::Root { size } => size,
            Slot::Child { .. } => unreached(),
        };
        proof {
            self.lemma_size_is_group_len(a as int);
            self.lemma_size_is_group_len(b as int);
            assert(self.group_of(a as int).disjoint(self.group_of(b as int)));
            lemma_set_disjoint_lens(self.group_of(a as int), self.group_of(b as int));
            lemma_int_range(0, self.n());
            lemma_len_subset(
                self.group_of(a as int) + self.group_of(b as int),
                set_int_range(0, self.n()),
            );
            vstd::std_specs::vec::axiom_spec_len(&self.slots);
            assert(sa + sb <= self.n() <= usize::MAX);
        }
        let (win, lose) = if sa > sb {
            (ra, rb)
        } else {
            (rb, ra)
        };
        let new_size: usize = sa + sb;
        let ghost g0 = *self;
        self.slots[win] = Slot::Root { size: new_size };
        self.slots[lose] = Slot::Child { parent: win };
        let ghost rep0 = g0.rep@;
        let ghost depth0 = g0.depth@;
        proof {
            self.rep@ = Seq::new(
                rep0.len(),
                |i: int|
                    if rep0[i] == ra as int || rep0[i] == rb as int {
                        win as int
                    } else {
                        rep0[i]
                    },
            );
            self.depth@ = Seq::new(
                depth0.len(),
                |i: int|
                    if rep0[i] == lose as int {
                        (depth0[i] + depth0[win as int] + 1) as nat
                    } else {
                        depth0[i]
                    },
            );
            self.lemma_merge_wf(g0, a, b, ra, rb, win, lose, sa, sb);
        }
        Some(win)
    }

    /// The invariant and the merge contract hold of the state that
    /// `merge` builds when it unites two distinct groups.
    proof fn lemma_merge_wf(
        &self,
        g0: DSU,
        a: DSUIdx,
        b: DSUIdx,
        ra: usize,
        rb: usize,
        win: usize,
        lose: usize,
        sa: usize,
        sb: usize,
    )
        requires
            g0.wf(),
            a < g0.n(),
            b < g0.n(),
            ra as int == g0.rep_of(a as int),
            rb as int == g0.rep_of(b as int),
            ra != rb,
            sa as int == g0.size_of(a as int),
            sb as int == g0.size_of(b as int),
            sa + sb <= usize::MAX,
            (win == ra && lose == rb && sa > sb) || (win == rb && lose == ra && sa <= sb),
            self.slots@ == g0.slots@.update(win as int, Slot::Root { size: (sa + sb) as usize }
            ).update(lose as int, Slot::Child { parent: win }),
            self.rep@ == Seq::new(
                g0.rep@.len(),
                |i: int|
                    if g0.rep@[i] == ra as int || g0.rep@[i] == rb as int {
                        win as int
                    } else {
                        g0.rep@[i]
                    },
            ),
            self.depth@ == Seq::new(
                g0.depth@.len(),
                |i: int|
                    if g0.rep@[i] == lose as int {
                        (g0.depth@[i] + g0.depth@[win as int] + 1) as nat
                    } else {
                        g0.depth@[i]
                    },
            ),
        ensures
            self.wf(),
            self.n() == g0.n(),
            forall|i: int|
                0 <= i < g0.n() ==> #[trigger] self.rep_of(i) == if g0.rep_of(i) == ra as int
                    || g0.rep_of(i) == rb as int {
                    win as int
                } else {
                    g0.rep_of(i)
                },
            forall|i: int|
                0 <= i < g0.n() ==> #[trigger] self.size_of(i) == if g0.rep_of(i) == ra as int
                    || g0.rep_of(i) == rb as int {
                    sa + sb
                } else {
                    g0.size_of(i)
                },
            forall|i: int|
                0 <= i < g0.n() ==> #[trigger] self.is_root(i) == (g0.is_root(i) && i
                    != lose as int),
    {
        let n = g0.n();
        g0.lemma_rep_props(a as int);
        g0.lemma_rep_props(b as int);
        g0.lemma_size_is_group_len(a as int);
        g0.lemma_size_is_group_len(b as int);
        assert(g0.group_of(a as int).disjoint(g0.group_of(b as int)));
        lemma_set_disjoint_lens(g0.group_of(a as int), g0.group_of(b as int));

        // The partition after the merge: the two old groups united
        // under the winner, every other group untouched.
        assert forall|i: int| 0 <= i < n implies self.group_of(i) == if g0.rep_of(i) == ra as int
            || g0.rep_of(i) == rb as int {
            g0.group_of(a as int) + g0.group_of(b as int)
        } else {
            g0.group_of(i)
        } by {
            if g0.rep_of(i) == ra as int || g0.rep_of(i) == rb as int {
                assert(self.group_of(i) =~= g0.group_of(a as int) + g0.group_of(b as int));
            } else {
                assert(self.group_of(i) =~= g0.group_of(i));
            }
        }

        // Sizes: the winner now records the united cardinality.
        assert forall|i: int| 0 <= i < n implies #[trigger] self.size_of(i) == if g0.rep_of(i)
            == ra as int || g0.rep_of(i) == rb as int {
            sa + sb
        } else {
            g0.size_of(i)
        } by {
            if g0.rep_of(i) == ra as int || g0.rep_of(i) == rb as int {
                assert(self.rep_of(i) == win as int);
                assert(self.size_at(win as int) == sa + sb);
            } else {
                assert(self.rep_of(i) == g0.rep_of(i));
                assert(g0.rep_of(i) != win as int && g0.rep_of(i) != lose as int);
                assert(self.size_at(g0.rep_of(i)) == g0.size_at(g0.rep_of(i)));
            }
        }

        // The per-slot invariant.
        assert forall|i: int|
            0 <= i < n implies match #[trigger] self.slots@[i] {
            Slot::Child { parent } => {
                &&& 0 <= parent < n
                &&& self.rep@[i] == self.rep@[parent as int]
                &&& self.depth@[parent as int] < self.depth@[i]
            },
            Slot::Root { size } => {
                &&& self.rep@[i] == i
                &&& size as int == self.group_of(i).len()
            },
        } by {
            if i == lose as int {
                assert(g0.rep_of(lose as int) == lose as int);
                assert(self.depth@[win as int] == g0.depth@[win as int]);
            } else if i == win as int {
                assert(self.group_of(i) == g0.group_of(a as int) + g0.group_of(b as int));
            } else {
                assert(self.slots@[i] == g0.slots@[i]);
                match g0.slots@[i] {
                    Slot::Child { parent } => {
                        assert(g0.rep@[i] == g0.rep@[parent as int]);
                        if g0.rep@[i] == lose as int {
                            assert(self.depth@[i] == (g0.depth@[i] + g0.depth@[win as int]
                                + 1) as nat);
                            assert(self.depth@[parent as int] == (g0.depth@[parent as int]
                                + g0.depth@[win as int] + 1) as nat);
                        }
                    },
                    Slot::Root { size } => {
                        assert(g0.rep@[i] == i);
                        assert(i != ra as int && i != rb as int);
                        assert(self.group_of(i) == g0.group_of(i));
                    },
                }
            }
        }

        // Every element still points at a live root, above it in depth.
        assert forall|i: int| 0 <= i < n implies 0 <= #[trigger] self.rep@[i] < n
            && self.slots@[self.rep@[i]] is Root by {
            if g0.rep@[i] == ra as int || g0.rep@[i] == rb as int {
                assert(self.rep@[i] == win as int);
            } else {
                assert(self.rep@[i] == g0.rep@[i]);
                assert(g0.rep@[i] != lose as int && g0.rep@[i] != win as int);
            }
        }
        assert forall|i: int| 0 <= i < n && i != self.rep@[i] implies #[trigger] self.depth@[
            self.rep@[i]
        ] < self.depth@[i] by {
            if g0.rep@[i] == lose as int {
                assert(self.rep@[i] == win as int);
                assert(self.depth@[win as int] == g0.depth@[win as int]);
                assert(self.depth@[i] == (g0.depth@[i] + g0.depth@[win as int] + 1) as nat);
            } else if g0.rep@[i] == win as int {
                assert(self.rep@[i] == win as int);
                assert(self.depth@[i] == g0.depth@[i]);
                assert(i != g0.rep@[i]);
            } else {
                assert(self.rep@[i] == g0.rep@[i]);
                assert(self.depth@[i] == g0.depth@[i]);
                assert(self.depth@[self.rep@[i]] == g0.depth@[g0.rep@[i]]);
            }
        }

        // The recorded sizes still sum to the universe's size.
        let mid = g0.slots@.update(win as int, Slot::Root { size: (sa + sb) as usize });
        lemma_sum_sizes_update(g0.slots@, win as int, Slot::Root { size: (sa + sb) as usize }, n);
        lemma_sum_sizes_update(mid, lose as int, Slot::Child { parent: win }, n);
        assert(slot_size(g0.slots@[win as int]) == if win == ra {
            sa as int
        } else {
            sb as int
        });
        assert(slot_size(mid[lose as int]) == if lose == ra {
            sa as int
        } else {
            sb as int
        });
        assert(sum_sizes(self.slots@, n) == n);
    }

    /// Return whether `a` and `b` are in the same group, or nothing
    /// when an index is out of bounds.  Performs no path compression.
    pub fn same(&self, a: DSUIdx, b: DSUIdx) -> (r: Option<bool>)
        requires
            self.wf(),
        ensures
            match r {
                Some(s) => a < self.n() && b < self.n() && s == (self.rep_of(a as int)
                    == self.rep_of(b as int)),
                None => a >= self.n() || b >= self.n(),
            },
    {
        match (self.root(a), self.root(b)) {
            (Some(ra), Some(rb)) => Some(ra == rb),
            _ => None,
        }
    }

    /// Return whether `a` and `b` are in the same group, or nothing
    /// when an index is out of bounds.  Compresses the walked paths;
    /// the partition is unchanged.
    pub fn same_mut(&mut self, a: DSUIdx, b: DSUIdx) -> (r: Option<bool>)
        requires
            old(self).wf(),
        ensures
            final(self).wf(),
            final(self).same_model(*old(self)),
            match r {
                Some(s) => a < old(self).n() && b < old(self).n() && s == (old(self).rep_of(
                    a as int,
                ) == old(self).rep_of(b as int)),
                None => a >= old(self).n() || b >= old(self).n(),
            },
    {
        match (self.root_mut(a), self.root_mut(b)) {
            (Some(ra), Some(rb)) => Some(ra == rb),
            _ => None,
        }
    }

    /// Return the size of the group that contains `a`, or nothing when
    /// `a` is out of bounds.  Performs no path compression.
    pub fn size(&self, a: DSUIdx) -> (r: Option<usize>)
        requires
            self.wf(),
        ensures
            match r {
                Some(s) => a < self.n() && s as int == self.size_of(a as int) && s as int
                    == self.group_of(a as int).len(),
                None => a >= self.n(),
            },
    {
        match self.root(a) {
            Some(root) => {
                proof {
                    self.lemma_rep_props(a as int);
                    self.lemma_size_is_group_len(a as int);
                }
                match self.slots[root] {
                    Slot::Root { size } => Some(size),
                    Slot::Child { .. } => unreached(),
                }
            },
            None => None,
        }
    }

    /// Return the size of the group that contains `a`, or nothing when
    /// `a` is out of bounds.  Compresses the walked path; the
    /// partition is unchanged.
    pub fn size_mut(&mut self, a: DSUIdx) -> (r: Option<usize>)
        requires
            old(self).wf(),
        ensures
            final(self).wf(),
            final(self).same_model(*old(self)),
            match r {
                Some(s) => a < old(self).n() && s as int == old(self).size_of(a as int) && s as int
                    == old(self).group_of(a as int).len(),
                None => a >= old(self).n(),
            },
    {
        match self.root_mut(a) {
            Some(root) => {
                proof {
                    old(self).lemma_rep_props(a as int);
                    old(self).lemma_size_is_group_len(a as int);
                    self.lemma_rep_props(a as int);
                    assert(self.group_of(a as int) =~= old(self).group_of(a as int));
                }
                match self.slots[root] {
                    Slot::Root { size } => Some(size),
                    Slot::Child { .. } => unreached(),
                }
            },
            None => None,
        }
    }

    /// Return all groups: one entry per representative in ascending
    /// representative order, each listing its elements in ascending
    /// order.  Singleton groups are included; no entry is empty.
    pub fn groups(&self) -> (r: Vec<Vec<DSUIdx>>)
        requires
            self.wf(),
        ensures
            r@.len() == self.groups_model().len(),
            forall|j: int| 0 <= j < r@.len() ==> (#[trigger] r@[j])@ == self.groups_model()[j],
    {
        let n = self.slots.len();
        let mut out: Vec<Vec<DSUIdx>> = Vec::new();
        let mut rt: usize = 0;
        while rt < n
            invariant
                self.wf(),
                rt <= n,
                n == self.n(),
                out@.len() == groups_upto(*self, rt as int).len(),
                forall|j: int|
                    0 <= j < out@.len() ==> (#[trigger] out@[j])@ == groups_upto(*self, rt as int)[j],
            decreases n - rt,
        {
            let is_root_here = match self.slots[rt] {
                Slot::Root { .. } => true,
                Slot::Child { .. } => false,
            };
            if is_root_here {
                let mut row: Vec<DSUIdx> = Vec::new();
                let mut i: usize = 0;
                while i < n
                    invariant
                        self.wf(),
                        i <= n,
                        n == self.n(),
                        rt < n,
                        row@ == members_upto(*self, rt as int, i as int),
                    decreases n - i,
                {
                    match self.root(i) {
                        Some(x) => {
                            if x == rt {
                                row.push(i);
                                proof {
                                    assert(row@ =~= members_upto(*self, rt as int, i as int)
                                        + seq![i as DSUIdx]);
                                }
                            } else {
                                proof {
                                    assert(row@ =~= members_upto(*self, rt as int, i as int)
                                        + Seq::empty());
                                }
                            }
                        },
                        None => {},
                    }
                    i = i + 1;
                }
                out.push(row);
                proof {
                    assert(groups_upto(*self, rt as int + 1) == groups_upto(*self, rt as int)
                        + seq![self.members(rt as int)]);
                }
            } else {
                proof {
                    assert(groups_upto(*self, rt as int + 1) =~= groups_upto(*self, rt as int)
                        + Seq::empty());
                }
            }
            rt = rt + 1;
        }
        out
    }

    /// Return all groups, exactly as `groups` does.  Takes exclusive
    /// access like the other compressing variants; the partition is
    /// unchanged.
    pub fn groups_mut(&mut self) -> (r: Vec<Vec<DSUIdx>>)
        requires
            old(self).wf(),
        ensures
            final(self).wf(),
            final(self).same_model(*old(self)),
            r@.len() == old(self).groups_model().len(),
            forall|j: int|
                0 <= j < r@.len() ==> (#[trigger] r@[j])@ == old(self).groups_model()[j],
    {
        self.groups()
    }
}

/// Size conservation: in a well-formed disjoint-set union, the sum of
/// the recorded group sizes, taken once per representative, equals the
/// number of elements — no matter what sequence of merges built it.
pub proof fn lemma_size_conservation(d: DSU)
    requires
        d.wf(),
    ensures
        rep_size_sum_upto(d, d.n()) == d.n(),
{
    d.lemma_rep_sum_matches(d.n());
}

impl DSU {
    /// The open per-representative sum equals the internal per-slot
    /// sum on every prefix.
    proof fn lemma_rep_sum_matches(self, k: int)
        requires
            self.wf(),
            0 <= k <= self.n(),
        ensures
            rep_size_sum_upto(self, k) == sum_sizes(self.slots@, k),
        decreases k,
    {
        if k > 0 {
            self.lemma_rep_sum_matches(k - 1);
        }
    }
}

} // verus!
