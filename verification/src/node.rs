//! The partition tree, whatever the number of its dimensions.
//!
//! A tree is made of [`Node`]s. What it needs to know of space it has from
//! the bounding volumes of its nodes, through [`Region`].

use vstd::prelude::*;
use crate::seqs;

verus! {

/// The number of levels that a tree can grow below its root. A leaf on the
/// lowest level is not split.
pub const MAX_DEPTH: usize = 64;

/// A bounding volume of a node of a tree of items of type `P`.
///
/// A volume tells which items lie in it and which volumes it meets, and it
/// can be split into parts. The trees rely on two things: two volumes
/// that an item lies in meet, and an item that lies in a volume lies in one
/// of its parts.
pub trait Region<P>: Copy {
    /// The number of parts that a volume is split into.
    spec fn parts() -> nat;

    /// `item` lies in the volume.
    spec fn holds(self, item: P) -> bool;

    /// The volume and `other` meet.
    spec fn meets(self, other: Self) -> bool;

    /// The `k`-th of the parts that the volume is split into.
    spec fn part(self, k: int) -> Self;

    /// The number of parts that a volume is split into.
    fn count() -> (n: usize)
        ensures
            n == Self::parts(),
    ;

    /// Whether `item` lies in the volume.
    fn holds_item(&self, item: &P) -> (r: bool)
        ensures
            r == self.holds(*item),
    ;

    /// Whether the volume and `other` meet.
    fn meets_volume(&self, other: &Self) -> (r: bool)
        ensures
            r == self.meets(*other),
    ;

    /// The `k`-th of the parts that the volume is split into.
    fn cut(&self, k: usize) -> (r: Self)
        requires
            k < Self::parts(),
        ensures
            r == self.part(k as int),
    ;

    /// Two volumes that an item lies in meet.
    proof fn lemma_common_item(self, other: Self, item: P)
        requires
            self.holds(item),
            other.holds(item),
        ensures
            self.meets(other),
    ;

    /// An item that lies in a volume lies in one of its parts.
    proof fn lemma_parts_cover(self, item: P) -> (k: int)
        requires
            self.holds(item),
        ensures
            0 <= k < Self::parts(),
            self.part(k).holds(item),
    ;
}

/// The test that a box query makes of an item: it lies in `volume`.
pub open spec fn holding<V: Region<P>, P>(volume: V) -> spec_fn(P) -> bool {
    |item: P| volume.holds(item)
}

/// A node of a partition tree, and with it the tree below that node.
///
/// A node is a leaf until it is split. The children of a split node have the
/// parts of its volume. A leaf holds at most `capacity` items; it is split
/// when one more arrives, and its items go to the children. Each item goes
/// to the first child that accepts it. A split node itself holds only the
/// items that none of its children accepts.
pub struct Node<V: Region<P>, P> {
    /// Maximum number of items to store before subdivision.
    capacity: usize,
    /// Items in this node.
    items: Vec<P>,
    /// Bounding volume of this node.
    volume: V,
    /// The children of this node, in the order of the parts of its volume.
    children: Option<Vec<Node<V, P>>>,
    /// The number of levels that the tree can grow below this node.
    levels: usize,
}

impl<V: Region<P>, P> Node<V, P> {
    /// The bounding volume of the node.
    pub closed spec fn bounds(&self) -> V {
        self.volume
    }

    /// The number of items that a leaf of the tree holds at most.
    pub closed spec fn node_capacity(&self) -> usize {
        self.capacity
    }

    /// The node has not been split.
    pub closed spec fn is_leaf(&self) -> bool {
        self.children is None
    }

    /// The items that the node holds itself, oldest first.
    pub closed spec fn held(&self) -> Seq<P> {
        self.items@
    }

    /// The children of a split node; empty for a leaf.
    pub closed spec fn children(&self) -> Seq<Node<V, P>> {
        match self.children {
            Some(children) => children@,
            None => Seq::empty(),
        }
    }

    /// The number of levels that the tree can grow below the node.
    pub closed spec fn levels(&self) -> nat {
        self.levels as nat
    }

    /// The node is the root of a tree: the tree can grow to its full depth
    /// below it.
    pub open spec fn is_root(&self) -> bool {
        self.levels() == MAX_DEPTH
    }

    /// The node is a full leaf on the lowest level of a tree, which is never
    /// split.
    pub open spec fn sealed(&self) -> bool {
        &&& self.is_leaf()
        &&& self.held().len() >= self.node_capacity()
        &&& self.levels() == 0
    }

    /// Whether the node takes `item` into the tree below it: the item lies
    /// in its volume, and there is room for it.
    pub open spec fn accepts(&self, item: P) -> bool {
        self.bounds().holds(item) && !self.sealed()
    }

    /// The test of an item that `node` does not accept.
    pub open spec fn rejected_by(node: Node<V, P>) -> spec_fn(P) -> bool {
        |item: P| !node.accepts(item)
    }

    /// How `after` comes of the split node `self` when `item` is stored
    /// below it, where `k` is [`Self::first_taker`] of the item: the `k`-th
    /// child is the first that accepts the item and has taken it, or no
    /// child accepts it, `k` is the number of children, and the node holds
    /// the item itself. Nothing else has changed.
    pub open spec fn settled_at(&self, after: Node<V, P>, item: P, k: int) -> bool {
        &&& 0 <= k <= self.children().len()
        &&& forall|j: int| 0 <= j < k ==> !(#[trigger] self.children()[j]).accepts(item)
        &&& if k < self.children().len() {
            &&& self.children()[k].accepts(item)
            &&& after.held() == self.held()
            &&& after.children() == self.children().update(k, after.children()[k])
            &&& self.children()[k].took(after.children()[k], item)
        } else {
            &&& after.held() == self.held().push(item)
            &&& after.children() == self.children()
        }
    }

    /// The index of the first child of the node that accepts `item`; the
    /// number of the children where none does.
    pub closed spec fn first_taker(&self, item: P) -> int {
        Self::taker_from(self.children(), item, 0)
    }

    /// The index of the first of `nodes`, from the one at `from` on, that
    /// accepts `item`; the number of the nodes where none does.
    spec fn taker_from(nodes: Seq<Node<V, P>>, item: P, from: int) -> int
        decreases nodes.len() - from,
    {
        if from < 0 || from >= nodes.len() {
            nodes.len() as int
        } else if nodes[from].accepts(item) {
            from
        } else {
            Self::taker_from(nodes, item, from + 1)
        }
    }

    /// `after` is what the tree below the node `self` becomes when it takes
    /// `item`: see [`Self::lemma_took_unfolds`].
    pub closed spec fn took(&self, after: Node<V, P>, item: P) -> bool
        decreases self,
    {
        &&& self.volume.holds(item)
        &&& after.volume == self.volume
        &&& after.capacity == self.capacity
        &&& after.levels == self.levels
        &&& after@.to_multiset() == self@.to_multiset().insert(item)
        &&& match (self.children, after.children) {
            (None, None) => {
                &&& self.items@.len() < self.capacity
                &&& after.items@ == self.items@.push(item)
            },
            (None, Some(_)) => {
                &&& self.items@.len() >= self.capacity
                &&& self.levels > 0
            },
            (Some(children), Some(changed)) => {
                let k = Self::taker_from(children@, item, 0);
                if 0 <= k < children@.len() {
                    &&& after.items@ == self.items@
                    &&& changed@ == children@.update(k, changed@[k])
                    &&& children@[k].took(changed@[k], item)
                } else {
                    &&& after.items@ == self.items@.push(item)
                    &&& changed@ == children@
                }
            },
            (Some(_), None) => false,
        }
    }

    /// All items of the tree: those of the node itself, then those of each
    /// child in turn.
    pub closed spec fn view(&self) -> Seq<P>
        decreases self,
    {
        self.items@ + match self.children {
            Some(children) => Self::flat(children@, children@.len()),
            None => Seq::empty(),
        }
    }

    /// All items of the first `n` of `nodes`, node by node.
    pub open spec fn flat(nodes: Seq<Node<V, P>>, n: nat) -> Seq<P>
        decreases nodes, n,
    {
        if n == 0 || n > nodes.len() {
            Seq::empty()
        } else {
            Self::flat(nodes, (n - 1) as nat) + nodes[n - 1]@
        }
    }

    /// The invariant of a node but for the number of its items: see
    /// [`Self::wf`].
    spec fn shape(&self) -> bool
        decreases self, 0nat,
    {
        &&& self@.len() <= usize::MAX
        &&& self.levels <= MAX_DEPTH
        &&& seqs::every(self@, holding(self.volume))
        &&& match self.children {
            None => self.items@.len() <= self.capacity,
            Some(children) => {
                &&& self.levels > 0
                &&& children@.len() == V::parts()
                &&& forall|k: int|
                    0 <= k < V::parts() ==> {
                        &&& (#[trigger] children@[k]).wf()
                        &&& children@[k].volume == self.volume.part(k)
                        &&& children@[k].capacity == self.capacity
                        &&& children@[k].levels == self.levels - 1
                        &&& seqs::every(self.items@, Self::rejected_by(children@[k]))
                        &&& Self::passed_over(children@, k)
                    }
            },
        }
    }

    /// None of the nodes before the `k`-th accepts an item of the `k`-th.
    spec fn passed_over(nodes: Seq<Node<V, P>>, k: int) -> bool {
        forall|j: int| 0 <= j < k ==> seqs::every(nodes[k]@, Self::rejected_by(#[trigger] nodes[j]))
    }

    /// The invariant of a node and of the tree below it.
    ///
    /// Every item lies in the volume of each node that it is in or below. A
    /// leaf is not over its capacity. A split node has more items in and
    /// below it than a leaf may hold; its children have the parts of its
    /// volume, and its own capacity; an item below a child is one that
    /// no child before that one accepts; and an item in the node itself is
    /// one that none of the children accepts.
    pub closed spec fn wf(&self) -> bool
        decreases self, 1nat,
    {
        &&& self.shape()
        &&& self.children is Some ==> self@.len() > self.capacity
    }

    /// An empty tree with bounding volume `volume`, whose leaves hold at most
    /// `capacity` items.
    pub fn new(volume: V, capacity: usize) -> (r: Node<V, P>)
        ensures
            r.wf(),
            r.is_root(),
            r.is_leaf(),
            r@ == Seq::<P>::empty(),
            r.bounds() == volume,
            r.node_capacity() == capacity,
    {
        Node { capacity, items: Vec::new(), volume, children: None, levels: MAX_DEPTH }
    }

    /// An empty leaf with `levels` levels to grow.
    fn leaf(vol: V, capacity: usize, levels: usize) -> (r: Node<V, P>)
        requires
            levels <= MAX_DEPTH,
        ensures
            r.wf(),
            r@ == Seq::<P>::empty(),
            r.volume == vol,
            r.capacity == capacity,
            r.levels == levels,
    {
        Node { capacity, items: Vec::new(), volume: vol, children: None, levels }
    }

    /// The items of the first `n + 1` nodes are those of the first `n`
    /// followed by those of the next node.
    proof fn lemma_flat_step(nodes: Seq<Node<V, P>>, n: nat)
        requires
            n < nodes.len(),
        ensures
            Self::flat(nodes, n + 1) == Self::flat(nodes, n) + nodes[n as int]@,
    {
    }

    /// The items of fewer nodes are not more than the items of more nodes.
    proof fn lemma_flat_len_grows(nodes: Seq<Node<V, P>>, m: nat, n: nat)
        requires
            m <= n <= nodes.len(),
        ensures
            Self::flat(nodes, m).len() <= Self::flat(nodes, n).len(),
        decreases n,
    {
        if m < n {
            Self::lemma_flat_len_grows(nodes, m, (n - 1) as nat);
        }
    }

    /// The first `n` of `nodes` hold nothing where each of them holds nothing.
    proof fn lemma_flat_empty(nodes: Seq<Node<V, P>>, n: nat)
        requires
            n <= nodes.len(),
            forall|k: int| 0 <= k < n ==> (#[trigger] nodes[k])@ == Seq::<P>::empty(),
        ensures
            Self::flat(nodes, n) == Seq::<P>::empty(),
        decreases n,
    {
        if n > 0 {
            Self::lemma_flat_empty(nodes, (n - 1) as nat);
            assert(Self::flat(nodes, n) =~= Seq::<P>::empty());
        }
    }

    /// One node holds no more than the nodes together.
    proof fn lemma_flat_len_covers(nodes: Seq<Node<V, P>>, k: int, n: nat)
        requires
            0 <= k < n <= nodes.len(),
        ensures
            nodes[k]@.len() <= Self::flat(nodes, n).len(),
        decreases n,
    {
        if k < n - 1 {
            Self::lemma_flat_len_covers(nodes, k, (n - 1) as nat);
        }
    }

    /// Replacing a node leaves the items of the nodes before it as they were.
    proof fn lemma_flat_untouched(
        nodes: Seq<Node<V, P>>,
        k: int,
        node: Node<V, P>,
        n: nat,
    )
        requires
            0 <= k < nodes.len(),
            n <= k,
        ensures
            Self::flat(nodes.update(k, node), n) == Self::flat(nodes, n),
        decreases n,
    {
        if n > 0 {
            Self::lemma_flat_untouched(nodes, k, node, (n - 1) as nat);
        }
    }

    /// Replacing a node by one that holds one item more adds that item to
    /// the items of the nodes.
    proof fn lemma_flat_gains(
        nodes: Seq<Node<V, P>>,
        k: int,
        node: Node<V, P>,
        item: P,
        n: nat,
    )
        requires
            0 <= k < n <= nodes.len(),
            node@.to_multiset() == nodes[k]@.to_multiset().insert(item),
        ensures
            Self::flat(nodes.update(k, node), n).to_multiset() == Self::flat(
                nodes,
                n,
            ).to_multiset().insert(item),
        decreases n,
    {
        let changed = nodes.update(k, node);
        vstd::seq_lib::lemma_multiset_commutative(
            Self::flat(changed, (n - 1) as nat),
            changed[n - 1]@,
        );
        vstd::seq_lib::lemma_multiset_commutative(Self::flat(nodes, (n - 1) as nat), nodes[n - 1]@);
        if k < n - 1 {
            Self::lemma_flat_gains(nodes, k, node, item, (n - 1) as nat);
        } else {
            Self::lemma_flat_untouched(nodes, k, node, (n - 1) as nat);
        }
        assert(Self::flat(changed, n).to_multiset() =~= Self::flat(
            nodes,
            n,
        ).to_multiset().insert(item));
    }

    /// Returns the number of items in the tree.
    pub fn len(&self) -> (r: usize)
        requires
            self.wf(),
        ensures
            r == self@.len(),
        decreases self,
    {
        let mut len = self.items.len();
        match &self.children {
            Some(children) => {
                let mut k: usize = 0;
                while k < children.len()
                    invariant
                        self.wf(),
                        self.children == Some(*children),
                        k <= children@.len(),
                        len == self.items@.len() + Self::flat(children@, k as nat).len(),
                    decreases children@.len() - k,
                {
                    proof {
                        Self::lemma_flat_step(children@, k as nat);
                        Self::lemma_flat_len_grows(children@, k as nat + 1, children@.len());
                    }
                    len += children[k].len();
                    k += 1;
                }
            },
            None => {},
        }
        len
    }

    /// Creates the children of this node, one for each part of its volume.
    fn subdivide(&mut self)
        requires
            old(self).children is None,
            old(self).items@.len() == 0,
            0 < old(self).levels <= MAX_DEPTH,
        ensures
            final(self).shape(),
            final(self).children is Some,
            final(self).items@.len() == 0,
            final(self)@ == Seq::<P>::empty(),
            final(self).volume == old(self).volume,
            final(self).capacity == old(self).capacity,
            final(self).levels == old(self).levels,
    {
        let n = V::count();
        let mut children: Vec<Node<V, P>> = Vec::with_capacity(n);
        let mut k: usize = 0;
        while k < n
            invariant
                n == V::parts(),
                k <= n,
                children@.len() == k,
                self == old(self),
                0 < self.levels <= MAX_DEPTH,
                forall|j: int|
                    0 <= j < k ==> {
                        &&& (#[trigger] children@[j]).wf()
                        &&& children@[j]@ == Seq::<P>::empty()
                        &&& children@[j].volume == self.volume.part(j)
                        &&& children@[j].capacity == self.capacity
                        &&& children@[j].levels == self.levels - 1
                    },
            decreases n - k,
        {
            children.push(Node::leaf(self.volume.cut(k), self.capacity, self.levels - 1));
            k += 1;
        }
        proof {
            Self::lemma_flat_empty(children@, n as nat);
            assert(self.items@ + Seq::<P>::empty() =~= Seq::<P>::empty());
        }
        self.children = Some(children);
    }

    /// Stores `item` in the tree below a split node: in the first child that
    /// accepts it, or, where none does, in the node itself.
    fn settle(&mut self, item: P) -> (k: usize)
        requires
            old(self).shape(),
            old(self).children is Some,
            old(self).volume.holds(item),
            old(self)@.len() < usize::MAX,
        ensures
            final(self).shape(),
            final(self).children is Some,
            final(self).volume == old(self).volume,
            final(self).capacity == old(self).capacity,
            final(self).levels == old(self).levels,
            final(self)@.to_multiset() == old(self)@.to_multiset().insert(item),
            final(self)@.len() == old(self)@.len() + 1,
            old(self).settled_at(*final(self), item, k as int),
        decreases old(self).levels, 0nat,
    {
        let ghost before = self.children->Some_0@;
        let mut offered = item;
        let n = V::count();
        let mut k: usize = 0;
        while k < n
            invariant
                n == V::parts(),
                k <= n,
                offered == item,
                self.items == old(self).items,
                self.volume == old(self).volume,
                self.capacity == old(self).capacity,
                self.levels == old(self).levels,
                self.children is Some,
                self.children->Some_0@ == before,
                old(self).children is Some,
                before == old(self).children->Some_0@,
                self@ == old(self)@,
                self.shape(),
                self.volume.holds(item),
                self@.len() < usize::MAX,
                forall|j: int| 0 <= j < k ==> !(#[trigger] before[j]).accepts(item),
            decreases n - k,
        {
            proof {
                Self::lemma_flat_len_covers(before, k as int, n as nat);
            }
            match &mut self.children {
                Some(children) => {
                    match children[k].place(offered) {
                        None => {
                            proof {
                                let after = children@;
                                assert(after =~= before.update(k as int, after[k as int]));
                                Self::lemma_flat_gains(
                                    before,
                                    k as int,
                                    after[k as int],
                                    item,
                                    n as nat,
                                );
                                vstd::seq_lib::lemma_multiset_commutative(
                                    old(self).items@,
                                    Self::flat(before, n as nat),
                                );
                                vstd::seq_lib::lemma_multiset_commutative(
                                    old(self).items@,
                                    Self::flat(after, n as nat),
                                );
                            }
                            assert(self@.to_multiset() =~= old(self)@.to_multiset().insert(item));
                            proof {
                                seqs::lemma_every_gains(old(self)@, self@, item, holding(self.volume));
                                seqs::lemma_len_gains(old(self)@, self@, item);
                                Self::lemma_shape_after_gain(
                                    old(self).items@,
                                    self.volume,
                                    self.capacity,
                                    self.levels,
                                    before,
                                    self.children->Some_0@,
                                    k as int,
                                    item,
                                );
                            }
                            assert(self.children() =~= old(self).children().update(
                                k as int,
                                self.children()[k as int],
                            ));
                            assert(old(self).children()[k as int] == before[k as int]);
                            return k;
                        },
                        Some(back) => {
                            offered = back;
                        },
                    }
                },
                None => {},
            }
            assert(self.children->Some_0@ =~= before);
            k += 1;
        }
        self.items.push(offered);
        proof {
            let rest = Self::flat(before, n as nat);
            assert(self@ =~= (old(self).items@ + seq![item]) + rest);
            vstd::seq_lib::lemma_multiset_commutative(old(self).items@ + seq![item], rest);
            vstd::seq_lib::lemma_multiset_commutative(old(self).items@, seq![item]);
            vstd::seq_lib::lemma_multiset_commutative(old(self).items@, rest);
            broadcast use vstd::seq_lib::group_to_multiset_ensures;
            assert(seq![item] =~= Seq::<P>::empty().push(item));
            assert(self@.to_multiset() =~= old(self)@.to_multiset().insert(item));
            seqs::lemma_every_gains(old(self)@, self@, item, holding(self.volume));
            seqs::lemma_len_gains(old(self)@, self@, item);
            assert forall|k: int| 0 <= k < V::parts() implies seqs::every(
                self.items@,
                Self::rejected_by(#[trigger] before[k]),
            ) by {
                assert(seqs::every(old(self).items@, Self::rejected_by(before[k])));
                assert forall|i: int| 0 <= i < self.items@.len() implies Self::rejected_by(
                    before[k],
                )(#[trigger] self.items@[i]) by {
                    if i < old(self).items@.len() {
                        assert(self.items@[i] == old(self).items@[i]);
                    }
                }
            }
        }
        k
    }

    /// What a split node needs of its children still holds when the `k`-th
    /// of them has taken `item`, which the children before it do not
    /// accept.
    proof fn lemma_shape_after_gain(
        items: Seq<P>,
        volume: V,
        capacity: usize,
        levels: usize,
        before: Seq<Node<V, P>>,
        after: Seq<Node<V, P>>,
        k: int,
        item: P,
    )
        requires
            0 <= k < V::parts(),
            before.len() == V::parts(),
            after == before.update(k, after[k]),
            forall|n: int|
                0 <= n < V::parts() ==> {
                    &&& (#[trigger] before[n]).wf()
                    &&& before[n].volume == volume.part(n)
                    &&& before[n].capacity == capacity
                    &&& before[n].levels == levels - 1
                    &&& seqs::every(items, Self::rejected_by(before[n]))
                    &&& Self::passed_over(before, n)
                },
            forall|j: int| 0 <= j < k ==> !(#[trigger] before[j]).accepts(item),
            before[k].accepts(item),
            after[k].wf(),
            after[k].volume == before[k].volume,
            after[k].capacity == before[k].capacity,
            after[k].levels == before[k].levels,
            after[k]@.to_multiset() == before[k]@.to_multiset().insert(item),
        ensures
            forall|n: int|
                0 <= n < V::parts() ==> {
                    &&& (#[trigger] after[n]).wf()
                    &&& after[n].volume == volume.part(n)
                    &&& after[n].capacity == capacity
                    &&& after[n].levels == levels - 1
                    &&& seqs::every(items, Self::rejected_by(after[n]))
                    &&& Self::passed_over(after, n)
                },
    {
        assert forall|n: int| 0 <= n < V::parts() implies {
            &&& (#[trigger] after[n]).wf()
            &&& after[n].volume == volume.part(n)
            &&& after[n].capacity == capacity
            &&& after[n].levels == levels - 1
            &&& seqs::every(items, Self::rejected_by(after[n]))
            &&& Self::passed_over(after, n)
        } by {
            assert(before[n].wf());
            if n == k {
                Self::lemma_rejected_still(items, before[k], after[k]);
            }
            assert forall|j: int| 0 <= j < n implies seqs::every(
                after[n]@,
                Self::rejected_by(#[trigger] after[j]),
            ) by {
                assert(Self::passed_over(before, n));
                assert(seqs::every(before[n]@, Self::rejected_by(before[j])));
                if n == k {
                    assert(!before[j].accepts(item));
                    seqs::lemma_every_gains(before[n]@, after[n]@, item, Self::rejected_by(before[j]));
                } else if j == k {
                    Self::lemma_rejected_still(before[n]@, before[k], after[k]);
                }
            }
        }
    }

    /// Items that a node does not accept although it is not sealed lie
    /// outside its volume: a node of the same volume does not accept them
    /// either.
    proof fn lemma_rejected_still(items: Seq<P>, before: Node<V, P>, after: Node<V, P>)
        requires
            seqs::every(items, Self::rejected_by(before)),
            !before.sealed(),
            after.volume == before.volume,
        ensures
            seqs::every(items, Self::rejected_by(after)),
    {
        assert forall|i: int| 0 <= i < items.len() implies Self::rejected_by(after)(
            #[trigger] items[i],
        ) by {
            assert(Self::rejected_by(before)(items[i]));
        }
    }

    /// The first of the nodes that accepts an item is the one that accepts
    /// it when none before it does.
    proof fn lemma_taker_from(nodes: Seq<Node<V, P>>, item: P, from: int, k: int)
        requires
            0 <= from <= k <= nodes.len(),
            forall|j: int| from <= j < k ==> !(#[trigger] nodes[j]).accepts(item),
            k < nodes.len() ==> nodes[k].accepts(item),
        ensures
            Self::taker_from(nodes, item, from) == k,
        decreases k - from,
    {
        if from < k {
            Self::lemma_taker_from(nodes, item, from + 1, k);
        }
    }

    /// The first of the nodes that accepts an item accepts it, and none
    /// before it does.
    proof fn lemma_taker_from_is_first(nodes: Seq<Node<V, P>>, item: P, from: int)
        requires
            0 <= from <= nodes.len(),
        ensures
            from <= Self::taker_from(nodes, item, from) <= nodes.len(),
            forall|j: int|
                from <= j < Self::taker_from(nodes, item, from) ==> !(#[trigger] nodes[j]).accepts(
                    item,
                ),
            Self::taker_from(nodes, item, from) < nodes.len() ==> nodes[Self::taker_from(
                nodes,
                item,
                from,
            )].accepts(item),
        decreases nodes.len() - from,
    {
        if from < nodes.len() && !nodes[from].accepts(item) {
            Self::lemma_taker_from_is_first(nodes, item, from + 1);
        }
    }

    /// A split node took an item when it is changed as
    /// [`Self::settled_at`] says.
    proof fn lemma_took_when_settled(&self, after: Node<V, P>, item: P, k: int)
        requires
            self.children is Some,
            after.children is Some,
            self.volume.holds(item),
            after.volume == self.volume,
            after.capacity == self.capacity,
            after.levels == self.levels,
            after@.to_multiset() == self@.to_multiset().insert(item),
            self.settled_at(after, item, k),
        ensures
            self.took(after, item),
            self.first_taker(item) == k,
    {
        Self::lemma_taker_from(self.children->Some_0@, item, 0, k);
    }

    /// Stores `item` in the tree, or hands it back where the node does not
    /// accept it.
    fn place(&mut self, item: P) -> (back: Option<P>)
        requires
            old(self).wf(),
            old(self)@.len() < usize::MAX,
        ensures
            final(self).wf(),
            final(self).volume == old(self).volume,
            final(self).capacity == old(self).capacity,
            final(self).levels == old(self).levels,
            back is None <==> old(self).accepts(item),
            match back {
                Some(same) => same == item && *final(self) == *old(self),
                None => {
                    &&& old(self).took(*final(self), item)
                    &&& final(self)@.len() == old(self)@.len() + 1
                },
            },
        decreases old(self).levels, 1nat,
    {
        if !self.volume.holds_item(&item) {
            return Some(item);
        }
        if self.children.is_none() {
            if self.items.len() < self.capacity {
                self.items.push(item);
                proof {
                    broadcast use vstd::seq_lib::group_to_multiset_ensures;
                    assert(self@ =~= old(self)@.push(item));
                    assert(old(self)@ =~= old(self).items@);
                }
                return None;
            }
            if self.levels == 0 {
                return Some(item);
            }
            let mut held: Vec<P> = Vec::new();
            core::mem::swap(&mut self.items, &mut held);
            self.subdivide();
            // The oldest item is the last of `pending`, and is stored first.
            let mut pending = seqs::reversed(held);
            proof {
                assert(old(self)@ =~= held@);
                held@.lemma_reverse_to_multiset();
                assert(self@.to_multiset().add(pending@.to_multiset()) =~= old(
                    self,
                )@.to_multiset()) by {
                    broadcast use vstd::seq_lib::group_to_multiset_ensures;
                    vstd::seq_lib::lemma_multiset_commutative(self@, pending@);
                    assert(self@ + pending@ =~= pending@);
                }
                assert forall|i: int| 0 <= i < pending@.len() implies holding(self.volume)(
                    #[trigger] pending@[i],
                ) by {
                    assert(pending@[i] == held@[held@.len() - 1 - i]);
                    assert(old(self)@[held@.len() - 1 - i] == pending@[i]);
                }
            }
            while pending.len() > 0
                invariant
                    self.shape(),
                    self.children is Some,
                    self.volume == old(self).volume,
                    self.capacity == old(self).capacity,
                    self.levels == old(self).levels,
                    seqs::every(pending@, holding(self.volume)),
                    self@.to_multiset().add(pending@.to_multiset()) == old(self)@.to_multiset(),
                    old(self)@.len() < usize::MAX,
                decreases pending@.len(),
            {
                proof {
                    vstd::seq_lib::to_multiset_len(pending@);
                    vstd::seq_lib::to_multiset_len(self@);
                    vstd::seq_lib::to_multiset_len(old(self)@);
                }
                let ghost waiting = pending@;
                match pending.pop() {
                    Some(oldest) => {
                        proof {
                            vstd::seq_lib::to_multiset_build(pending@, oldest);
                            assert(waiting =~= pending@.push(oldest));
                            assert(waiting.to_multiset() =~= pending@.to_multiset().insert(
                                oldest,
                            ));
                            assert(waiting[waiting.len() - 1] == oldest);
                            assert forall|i: int| 0 <= i < pending@.len() implies holding(
                                self.volume,
                            )(#[trigger] pending@[i]) by {
                                assert(pending@[i] == waiting[i]);
                            }
                        }
                        let _ = self.settle(oldest);
                        assert(self@.to_multiset().add(pending@.to_multiset()) =~= old(
                            self,
                        )@.to_multiset());
                    },
                    None => {},
                }
            }
            assert(self@.to_multiset() =~= old(self)@.to_multiset()) by {
                broadcast use vstd::seq_lib::group_to_multiset_ensures;
                assert(pending@ =~= Seq::<P>::empty());
            }
        }
        proof {
            vstd::seq_lib::to_multiset_len(self@);
            vstd::seq_lib::to_multiset_len(old(self)@);
            if old(self).children is None {
                assert(old(self)@ =~= old(self).items@);
            }
        }
        let k: usize = self.settle(item);
        proof {
            if old(self).children is Some {
                old(self).lemma_took_when_settled(*self, item, k as int);
            }
        }
        None
    }

    /// Inserts an `item` into the tree, subdividing it if necessary.
    ///
    /// Returns whether the node accepts the item, which for a root means
    /// that the item lies in the volume of the tree. If it does the item is
    /// in the tree afterwards, and else the tree is as before.
    ///
    /// A leaf with room takes the item itself. A full leaf is split first,
    /// and the items that it held are stored anew, oldest first, as the new
    /// item is after them: each in the first child that accepts it, or in the
    /// node itself where none does.
    pub fn insert(&mut self, item: P) -> (r: bool)
        requires
            old(self).wf(),
            old(self)@.len() < usize::MAX,
        ensures
            final(self).wf(),
            final(self).levels() == old(self).levels(),
            final(self).bounds() == old(self).bounds(),
            final(self).node_capacity() == old(self).node_capacity(),
            r == old(self).accepts(item),
            old(self).is_root() ==> r == old(self).bounds().holds(item),
            final(self)@.len() == old(self)@.len() + if r { 1nat } else { 0nat },
            !r ==> final(self)@ == old(self)@ && final(self).held() == old(self).held()
                && final(self).children() == old(self).children(),
            r ==> final(self)@.to_multiset() == old(self)@.to_multiset().insert(item),
            r ==> old(self).took(*final(self), item),
            r && old(self).is_leaf() && old(self).held().len() < old(self).node_capacity() ==> {
                &&& final(self).is_leaf()
                &&& final(self).held() == old(self).held().push(item)
                &&& final(self)@ == old(self)@.push(item)
            },
            r && old(self).is_leaf() && old(self).held().len() >= old(self).node_capacity() ==> {
                &&& !final(self).is_leaf()
                &&& old(self).levels() > 1 ==> final(self).held() == Seq::<P>::empty()
            },
            r && !old(self).is_leaf() ==> {
                &&& !final(self).is_leaf()
                &&& old(self).settled_at(*final(self), item, old(self).first_taker(item))
            },
    {
        match self.place(item) {
            None => {
                proof {
                    old(self).lemma_took_unfolds(*self, item);
                    if !self.is_leaf() && self.levels() > 1 {
                        self.lemma_split_node_holds_nothing();
                    }
                }
                true
            },
            Some(_) => false,
        }
    }

    /// A volume that does not meet another holds none of the items that all
    /// lie in that other.
    proof fn lemma_filter_apart(items: Seq<P>, volume: V, vol: V)
        requires
            seqs::every(items, holding(volume)),
            !volume.meets(vol),
        ensures
            items.filter(holding(vol)) == Seq::<P>::empty(),
    {
        let found = items.filter(holding::<V, P>(vol));
        if found.len() > 0 {
            items.lemma_filter_pred(holding::<V, P>(vol), 0);
            assert(found.contains(found[0]));
            items.lemma_filter_contains_rev(holding::<V, P>(vol), found[0]);
            let j = choose|j: int| 0 <= j < items.len() && items[j] == found[0];
            volume.lemma_common_item(vol, items[j]);
        }
        assert(found =~= Seq::<P>::empty());
    }

    /// Returns all items inside the volume `vol`: those that the node holds
    /// itself, oldest first, then those of each child in turn.
    pub fn get_in_volume<'a>(&'a self, vol: &V) -> (r: Vec<&'a P>)
        requires
            self.wf(),
        ensures
            seqs::values(r@) == self@.filter(holding(*vol)),
        decreases self,
    {
        let mut items: Vec<&'a P> = Vec::new();
        // Return empty vector if vol does not intersect.
        if !self.volume.meets_volume(vol) {
            proof {
                Self::lemma_filter_apart(self@, self.volume, *vol);
                assert(seqs::values(items@) =~= Seq::<P>::empty());
            }
            return items;
        }

        // Add items for this node.
        let mut i: usize = 0;
        while i < self.items.len()
            invariant
                i <= self.items@.len(),
                seqs::values(items@) == self.items@.take(i as int).filter(holding(*vol)),
            decreases self.items@.len() - i,
        {
            let ghost so_far = items@;
            if vol.holds_item(&self.items[i]) {
                items.push(&self.items[i]);
            }
            proof {
                let seen = self.items@.take(i as int);
                assert(self.items@.take(i + 1) =~= seen.push(self.items@[i as int]));
                seen.lemma_filter_push(self.items@[i as int], holding(*vol));
                if vol.holds(self.items@[i as int]) {
                    assert(seqs::values(items@) =~= seqs::values(so_far).push(self.items@[i as int]));
                }
            }
            i += 1;
        }
        assert(self.items@.take(i as int) =~= self.items@);

        match &self.children {
            Some(children) => {
                let mut k: usize = 0;
                while k < children.len()
                    invariant
                        self.wf(),
                        self.children == Some(*children),
                        k <= children@.len(),
                        seqs::values(items@) == (self.items@ + Self::flat(children@, k as nat)).filter(
                            holding(*vol),
                        ),
                    decreases children@.len() - k,
                {
                    let ghost so_far = items@;
                    let ghost above = self.items@ + Self::flat(children@, k as nat);
                    let mut found = children[k].get_in_volume(vol);
                    let ghost below = found@;
                    items.append(&mut found);
                    proof {
                        assert(seqs::values(items@) =~= seqs::values(so_far) + seqs::values(below));
                        assert(self.items@ + Self::flat(children@, (k + 1) as nat) =~= above
                            + children@[k as int]@);
                        Seq::filter_distributes_over_add(
                            above,
                            children@[k as int]@,
                            holding(*vol),
                        );
                    }
                    k += 1;
                }
                items
            },
            None => {
                assert(self@ =~= self.items@);
                items
            },
        }
    }

    /// What it says that the tree below a node took an item.
    ///
    /// The item lies in the volume of the node, and the tree has this item
    /// more than before. A leaf with room has the item as the last that it
    /// holds. A full leaf has been split. A split node is changed as
    /// [`Self::settled_at`] says: its first child that accepts the item took
    /// it in the same way, or the node holds the item itself where no child
    /// accepts it.
    pub proof fn lemma_took_unfolds(&self, after: Node<V, P>, item: P)
        requires
            self.wf(),
            after.wf(),
            self.took(after, item),
        ensures
            self.accepts(item),
            after.bounds() == self.bounds(),
            after.node_capacity() == self.node_capacity(),
            after.levels() == self.levels(),
            after@.to_multiset() == self@.to_multiset().insert(item),
            after@.len() == self@.len() + 1,
            self.is_leaf() && self.held().len() < self.node_capacity() ==> {
                &&& after.is_leaf()
                &&& after.held() == self.held().push(item)
                &&& after@ == self@.push(item)
            },
            self.is_leaf() && self.held().len() >= self.node_capacity() ==> !after.is_leaf(),
            !self.is_leaf() ==> {
                &&& !after.is_leaf()
                &&& self.settled_at(after, item, self.first_taker(item))
            },
    {
        seqs::lemma_len_gains(self@, after@, item);
        match self.children {
            None => {
                if self.items@.len() < self.capacity {
                    assert(self@ =~= self.items@);
                    assert(after@ =~= after.items@);
                }
            },
            Some(children) => {
                Self::lemma_taker_from_is_first(children@, item, 0);
            },
        }
    }

    /// What the invariant says of a node.
    ///
    /// Its items lie in its volume. A leaf is not over its capacity. A split
    /// node has more items than a leaf may hold; its children have the parts
    /// of its volume, and are trees of the same capacity; its items are those
    /// that it holds itself followed by those of each child in turn;
    /// it holds itself only items that none of its children accepts; and a
    /// child holds only items that no child before it accepts.
    pub proof fn lemma_wf_unfolds(&self)
        requires
            self.wf(),
        ensures
            self@.len() <= usize::MAX,
            seqs::every(self@, holding(self.bounds())),
            self.levels() <= MAX_DEPTH,
            self.is_leaf() ==> {
                &&& self.children().len() == 0
                &&& self.held().len() <= self.node_capacity()
                &&& self@ == self.held()
            },
            !self.is_leaf() ==> {
                &&& self@.len() > self.node_capacity()
                &&& self.levels() > 0
                &&& self.children().len() == V::parts()
                &&& self@ == self.held() + Self::flat(self.children(), V::parts())
                &&& forall|k: int|
                    0 <= k < V::parts() ==> {
                        &&& (#[trigger] self.children()[k]).wf()
                        &&& self.children()[k].levels() == self.levels() - 1
                        &&& self.children()[k].bounds() == self.bounds().part(k)
                        &&& self.children()[k].node_capacity() == self.node_capacity()
                        &&& seqs::every(self.held(), Self::rejected_by(self.children()[k]))
                    }
                &&& forall|j: int, k: int|
                    0 <= j < k < V::parts() ==> seqs::every(
                        (#[trigger] self.children()[k])@,
                        Self::rejected_by(#[trigger] self.children()[j]),
                    )
            },
    {
        match self.children {
            None => {
                assert(self@ =~= self.items@);
            },
            Some(children) => {
                assert forall|j: int, k: int| 0 <= j < k < V::parts() implies seqs::every(
                    (#[trigger] children@[k])@,
                    Self::rejected_by(#[trigger] children@[j]),
                ) by {
                    assert(Self::passed_over(children@, k));
                }
            },
        }
    }

    /// A split node holds no item itself unless its children are on the
    /// lowest level: the items of a leaf that was split have all gone to its
    /// children, and so has every item that came since.
    pub proof fn lemma_split_node_holds_nothing(&self)
        requires
            self.wf(),
            !self.is_leaf(),
            self.levels() > 1,
        ensures
            self.held() == Seq::<P>::empty(),
    {
        self.lemma_wf_unfolds();
        if self.held().len() > 0 {
            let item = self.held()[0];
            assert(self@[0] == item);
            let k = self.bounds().lemma_parts_cover(item);
            assert(Self::rejected_by(self.children()[k])(item));
        }
        assert(self.held() =~= Seq::<P>::empty());
    }
}

} // verus!
