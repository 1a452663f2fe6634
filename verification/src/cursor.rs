//! Cursors that carry their tree along, and the entries they hand out.

use vstd::prelude::*;
use vstd::std_specs::cmp::PartialEqSpec;
use crate::jump::RawCursor;
use crate::model::{inserted, is_child, is_parent, pruned, Entry as Listed};
use crate::raw::RawTrie;

verus! {

/// A trie to be walked with cursors.
#[derive(Debug, Clone)]
pub struct LongTree<N, L>(pub RawTrie<N, L>);

/// Something that holds a trie: the trie itself, or a reference to it.
pub trait TreeRef {
    type Key;

    type Leaf;

    /// The trie that is held.
    spec fn trie(&self) -> RawTrie<Self::Key, Self::Leaf>;

    /// The trie that is held.
    fn raw(&self) -> (r: &RawTrie<Self::Key, Self::Leaf>)
        ensures
            *r == self.trie(),
    ;
}

impl<N, L> TreeRef for LongTree<N, L> {
    type Key = N;

    type Leaf = L;

    /// The trie that is held.
    open spec fn trie(&self) -> RawTrie<N, L> {
        self.0
    }

    /// The trie that is held.
    fn raw(&self) -> (r: &RawTrie<N, L>) {
        &self.0
    }
}

impl<'a, N, L> TreeRef for &'a LongTree<N, L> {
    type Key = N;

    type Leaf = L;

    /// The trie that is held.
    open spec fn trie(&self) -> RawTrie<N, L> {
        self.0
    }

    /// The trie that is held.
    fn raw(&self) -> (r: &RawTrie<N, L>) {
        &self.0
    }
}

/// A position in a tree, together with the tree.
pub struct Cursor<T: TreeRef> {
    pub tree: T,
    pub raw: RawCursor,
}

impl<N, L> LongTree<N, L> {
    /// The empty tree.
    pub fn new() -> (t: LongTree<N, L>)
        ensures
            t.0.wf(),
            t.0@ == Seq::<Listed<N, L>>::empty(),
    {
        LongTree(RawTrie::new())
    }

    /// A cursor on the root that reads the tree.
    pub fn cursor(&self) -> (c: Cursor<&LongTree<N, L>>)
        requires
            self.0.wf(),
        ensures
            c.wf(),
            c.tree.trie() == self.0,
            c.raw == (RawCursor { node_index: -1isize, parent_jump_index: 0, depth: -1isize }),
    {
        proof {
            self.0.lemma_root();
        }
        Cursor { tree: self, raw: RawCursor::root() }
    }

    /// A cursor on the root that takes the tree along, to change it.
    pub fn cursor_mut(self) -> (c: Cursor<LongTree<N, L>>)
        requires
            self.0.wf(),
        ensures
            c.wf(),
            c.tree == self,
            c.raw == (RawCursor { node_index: -1isize, parent_jump_index: 0, depth: -1isize }),
    {
        proof {
            self.0.lemma_root();
        }
        Cursor { tree: self, raw: RawCursor::root() }
    }
}

impl<T: TreeRef> Cursor<T> {
    /// The tree is well formed and the cursor stands on one of its nodes.
    pub open spec fn wf(&self) -> bool {
        self.tree.trie().wf() && self.tree.trie().valid_cursor(self.raw)
    }

    /// The listing of the tree.
    pub open spec fn listing(&self) -> Seq<Listed<T::Key, T::Leaf>> {
        self.tree.trie()@
    }

    /// Whether the cursor stands on the root.
    pub fn at_root(&self) -> (b: bool)
        ensures
            b == (self.raw == (RawCursor {
                node_index: -1isize,
                parent_jump_index: 0,
                depth: -1isize,
            })),
    {
        self.raw == RawCursor::root()
    }

    /// The depth of the node under the cursor; `-1` on the root.
    pub fn depth(&self) -> (d: isize)
        ensures
            d == self.raw.depth,
    {
        self.raw.depth()
    }

    /// The key of the node under the cursor, which is not the root.
    pub fn node(&self) -> (k: &T::Key)
        requires
            self.wf(),
            self.raw.node_index != -1,
        ensures
            *k == self.listing()[self.raw.node_index as int].key,
    {
        proof {
            self.tree.trie().lemma_cursor(self.tree.trie().spans(), self.raw);
        }
        match self.tree.raw().get_node(self.raw) {
            Some(k) => k,
            None => vstd::pervasive::unreached(),
        }
    }

    /// The value of the node under the cursor, if it carries one.
    pub fn leaf(&self) -> (r: Option<&T::Leaf>)
        requires
            self.wf(),
        ensures
            self.raw.node_index >= 0 ==> match r {
                Some(v) => self.listing()[self.raw.node_index as int].value == Some(*v),
                None => self.listing()[self.raw.node_index as int].value.is_none(),
            },
            self.raw.node_index < 0 ==> r.is_none(),
    {
        self.tree.raw().get_leaf(self.raw)
    }

    /// The keys of the children of the node under the cursor, in their order.
    pub fn direct_children(&self) -> (r: Vec<&T::Key>)
        requires
            self.wf(),
        ensures
            r@.len() == self.tree.trie().children(self.raw).len(),
            forall|k: int|
                0 <= k < r@.len() ==> is_child(
                    self.listing(),
                    self.raw.node_index as int,
                    self.tree.trie().children(self.raw)[k].node_index as int,
                ) && *(#[trigger] r@[k]) == self.listing()[self.tree.trie().children(
                    self.raw,
                )[k].node_index as int].key,
    {
        let tree = self.tree.raw();
        proof {
            tree.lemma_cursor(tree.spans(), self.raw);
        }
        let children = tree.node_direct_children(self.raw);
        let mut out: Vec<&T::Key> = Vec::new();
        let mut k: usize = 0;
        while k < children.len()
            invariant
                *tree == self.tree.trie(),
                tree.wf(),
                children@ == tree.children(self.raw),
                forall|n: int|
                    0 <= n < children@.len() ==> tree.valid_cursor(#[trigger] children@[n])
                        && is_child(tree@, self.raw.node_index as int, children@[n].node_index as int),
                k <= children@.len(),
                self.raw.node_index >= -1,
                out@.len() == k,
                forall|n: int|
                    0 <= n < k ==> *(#[trigger] out@[n]) == tree@[children@[n].node_index as int].key,
            decreases children@.len() - k,
        {
            let child = children[k];
            proof {
                tree.lemma_cursor(tree.spans(), child);
            }
            match tree.get_node(child) {
                Some(key) => {
                    out.push(key);
                },
                None => {
                    vstd::pervasive::unreached::<()>();
                },
            }
            k += 1;
        }
        out
    }

    /// The entry of the parent of the node under the cursor, which is not
    /// the root.
    pub fn parent(self) -> (e: OccupiedEntry<T>)
        requires
            self.wf(),
            self.raw.node_index != -1,
        ensures
            e.wf(),
            e.cursor == self,
            is_parent(self.listing(), self.raw.node_index as int, e.move_to.node_index as int),
    {
        let parent = match self.tree.raw().node_parent(self.raw) {
            Some(p) => p,
            None => vstd::pervasive::unreached(),
        };
        OccupiedEntry { cursor: self, move_to: parent }
    }

    /// The entry of the sibling `sibling_dist` places after the node under
    /// the cursor, which is not the root: occupied where there is such a
    /// sibling, else vacant below the parent.
    pub fn sibling(self, sibling_dist: isize) -> (e: Entry<(), T>)
        requires
            self.wf(),
            self.raw.node_index != -1,
        ensures
            match e {
                Entry::Occupied(o) => o.wf() && o.cursor == self && self.tree.trie().sibling(
                    self.raw,
                    sibling_dist as int,
                ) == Some(o.move_to),
                Entry::Vacant(v) => v.wf() && v.cursor == self && self.tree.trie().sibling(
                    self.raw,
                    sibling_dist as int,
                ).is_none() && is_parent(
                    self.listing(),
                    self.raw.node_index as int,
                    v.insert_after.node_index as int,
                ),
            },
    {
        match self.tree.raw().get_sibling(self.raw, sibling_dist) {
            Some(sibling) => Entry::Occupied(OccupiedEntry { cursor: self, move_to: sibling }),
            None => {
                let parent = match self.tree.raw().node_parent(self.raw) {
                    Some(p) => p,
                    None => vstd::pervasive::unreached(),
                };
                Entry::Vacant(VacantEntry { cursor: self, node: (), insert_after: parent })
            },
        }
    }

    /// The entry of the child with key `node` of the node under the cursor:
    /// occupied where there is such a child, else vacant.
    pub fn child<O>(self, node: O) -> (e: Entry<O, T>) where T::Key: PartialEq<O>
        requires
            self.wf(),
        ensures
            match e {
                Entry::Occupied(o) => {
                    &&& o.wf()
                    &&& o.cursor == self
                    &&& is_child(
                        self.listing(),
                        self.raw.node_index as int,
                        o.move_to.node_index as int,
                    )
                    &&& <T::Key as PartialEqSpec<O>>::obeys_eq_spec()
                        ==> self.listing()[o.move_to.node_index as int].key.eq_spec(&node)
                        && self.tree.trie().child_with_key(self.raw, node) == Some(o.move_to)
                },
                Entry::Vacant(v) => {
                    &&& v.wf()
                    &&& v.cursor == self
                    &&& v.node == node
                    &&& v.insert_after == self.raw
                    &&& <T::Key as PartialEqSpec<O>>::obeys_eq_spec() ==> forall|c: int|
                        is_child(self.listing(), self.raw.node_index as int, c) ==> !(
                        #[trigger] self.listing()[c]).key.eq_spec(&node)
                },
            },
    {
        let found = self.tree.raw().child_by_key(self.raw, &node);
        match found {
            Some(child) => Entry::Occupied(OccupiedEntry { cursor: self, move_to: child }),
            None => {
                let insert_after = self.raw;
                Entry::Vacant(VacantEntry { cursor: self, node, insert_after })
            },
        }
    }
}

/// An entry that names a node of the tree.
pub struct OccupiedEntry<T: TreeRef> {
    pub cursor: Cursor<T>,
    pub move_to: RawCursor,
}

/// An entry that names a place for a new node, below `insert_after`.
pub struct VacantEntry<O, T: TreeRef> {
    pub cursor: Cursor<T>,
    pub node: O,
    pub insert_after: RawCursor,
}

/// An entry of the tree: a node, or the place for one.
pub enum Entry<O, T: TreeRef> {
    Occupied(OccupiedEntry<T>),
    Vacant(VacantEntry<O, T>),
}

/// One step of a walk from node to node.
#[derive(Debug, Clone, Copy)]
pub enum CursorMove<'a, N> {
    Child(&'a N),
    Parent,
}

/// Why a node was not found.
#[derive(Debug, Clone, Copy, PartialEq, Eq)]
pub enum FindError {
    NodeNotFound,
}

/// Why the parent could not be entered.
#[derive(Debug, Clone, Copy, PartialEq, Eq)]
pub enum EnterParentError {
    AtRoot,
}

impl<O, T: TreeRef> Entry<O, T> {
    /// The entry, which is occupied.
    pub fn unwrap_occupied(self) -> (o: OccupiedEntry<T>)
        requires
            self is Occupied,
        ensures
            self == Entry::<O, T>::Occupied(o),
    {
        match self {
            Entry::Occupied(occupied) => occupied,
            Entry::Vacant(_) => vstd::pervasive::unreached(),
        }
    }

    /// The entry, which is vacant.
    pub fn unwrap_vacant(self) -> (v: VacantEntry<O, T>)
        requires
            self is Vacant,
        ensures
            self == Entry::<O, T>::Vacant(v),
    {
        match self {
            Entry::Vacant(vacant) => vacant,
            Entry::Occupied(_) => vstd::pervasive::unreached(),
        }
    }
}

impl<T: TreeRef> OccupiedEntry<T> {
    /// The tree is well formed and the entry names one of its nodes.
    pub open spec fn wf(&self) -> bool {
        self.cursor.wf() && self.cursor.tree.trie().valid_cursor(self.move_to)
    }

    /// The cursor as it was, not moved.
    pub fn cont(self) -> (c: Cursor<T>)
        ensures
            c == self.cursor,
    {
        self.cursor
    }

    /// The cursor, moved to the node of the entry.
    pub fn enter(self) -> (c: Cursor<T>)
        ensures
            c.tree == self.cursor.tree,
            c.raw == self.move_to,
            self.wf() ==> c.wf(),
    {
        Cursor { tree: self.cursor.tree, raw: self.move_to }
    }

    /// The key of the node of the entry, which is not the root.
    pub fn node(&self) -> (k: &T::Key)
        requires
            self.wf(),
            self.move_to.node_index != -1,
        ensures
            *k == self.cursor.listing()[self.move_to.node_index as int].key,
    {
        proof {
            self.cursor.tree.trie().lemma_cursor(self.cursor.tree.trie().spans(), self.move_to);
        }
        match self.cursor.tree.raw().get_node(self.move_to) {
            Some(k) => k,
            None => vstd::pervasive::unreached(),
        }
    }

    /// The value of the node of the entry, if it carries one.
    pub fn leaf(&self) -> (r: Option<&T::Leaf>)
        requires
            self.wf(),
        ensures
            self.move_to.node_index >= 0 ==> match r {
                Some(v) => self.cursor.listing()[self.move_to.node_index as int].value == Some(*v),
                None => self.cursor.listing()[self.move_to.node_index as int].value.is_none(),
            },
            self.move_to.node_index < 0 ==> r.is_none(),
    {
        self.cursor.tree.raw().get_leaf(self.move_to)
    }
}

impl<O, T: TreeRef> VacantEntry<O, T> {
    /// The tree is well formed and the entry names a place below one of its
    /// nodes.
    pub open spec fn wf(&self) -> bool {
        self.cursor.wf() && self.cursor.tree.trie().valid_cursor(self.insert_after)
    }
}

impl<N: PartialEq, L> VacantEntry<N, LongTree<N, L>> {
    /// Whether the key of the entry may become a child of `insert_after`:
    /// there is room for it, and no child has this key yet.
    pub open spec fn fresh(&self) -> bool {
        self.cursor.tree.0.nodes@.len() + 3 < isize::MAX && forall|c: int|
            is_child(self.cursor.listing(), self.insert_after.node_index as int, c) ==> !(
            #[trigger] self.cursor.listing()[c]).key.eq_spec(&self.node)
    }

    /// Whether the key of the entry may become a child of `insert_after`.
    pub fn can_insert(&self) -> (b: bool)
        requires
            self.wf(),
        ensures
            N::obeys_eq_spec() ==> b == self.fresh(),
            b ==> self.cursor.tree.0.nodes@.len() + 3 < isize::MAX,
    {
        let tree = &self.cursor.tree.0;
        let room: bool = tree.nodes.len() < (isize::MAX as usize) - 3;
        room && tree.child_by_key(self.insert_after, &self.node).is_none()
    }

    /// Puts the key of the entry in as the last child of `insert_after`,
    /// with `leaf` for its value, and returns the entry of the new node. The
    /// cursor comes to stand on `insert_after`.
    pub fn insert(self, leaf: Option<L>) -> (e: OccupiedEntry<LongTree<N, L>>)
        requires
            self.wf(),
            self.fresh(),
        ensures
            e.wf(),
            e.cursor.raw == self.insert_after,
            e.cursor.listing() == inserted(
                self.cursor.listing(),
                self.insert_after.node_index as int,
                seq![self.node],
                leaf,
            ),
            e.move_to.depth == self.insert_after.depth + 1,
    {
        let VacantEntry { cursor, node, insert_after } = self;
        let Cursor { tree, raw: _ } = cursor;
        let mut tree = tree;
        let mut keys: Vec<N> = Vec::new();
        keys.push(node);
        proof {
            assert(keys@ =~= seq![node]);
        }
        let at = tree.0.insert_nodes_after(insert_after, keys, leaf);
        OccupiedEntry { cursor: Cursor { tree, raw: insert_after }, move_to: at }
    }
}

impl<O, N: PartialEq, L> VacantEntry<O, LongTree<N, L>> {
    /// Puts `node` in as the last child of `insert_after`, with `leaf` for
    /// its value, and returns the entry of the new node. The cursor comes to
    /// stand on `insert_after`.
    pub fn insert_node(self, node: N, leaf: Option<L>) -> (e: OccupiedEntry<LongTree<N, L>>)
        requires
            self.wf(),
            self.cursor.tree.0.nodes@.len() + 3 < isize::MAX,
            forall|c: int|
                is_child(self.cursor.listing(), self.insert_after.node_index as int, c) ==> !(
                #[trigger] self.cursor.listing()[c]).key.eq_spec(&node),
        ensures
            e.wf(),
            e.cursor.raw == self.insert_after,
            e.cursor.listing() == inserted(
                self.cursor.listing(),
                self.insert_after.node_index as int,
                seq![node],
                leaf,
            ),
            e.move_to.depth == self.insert_after.depth + 1,
    {
        let VacantEntry { cursor, node: _, insert_after } = self;
        let Cursor { tree, raw: _ } = cursor;
        let mut tree = tree;
        let mut keys: Vec<N> = Vec::new();
        keys.push(node);
        proof {
            assert(keys@ =~= seq![node]);
            assert(keys@[0] == node);
            assert(tree.0@ == self.cursor.listing());
        }
        let at = tree.0.insert_nodes_after(insert_after, keys, leaf);
        OccupiedEntry { cursor: Cursor { tree, raw: insert_after }, move_to: at }
    }
}

impl<'a, N: PartialEq + Clone, L> VacantEntry<&'a N, LongTree<N, L>> {
    /// Puts a clone of the key of the entry in as the last child of
    /// `insert_after`, with `leaf` for its value, and returns the entry of
    /// the new node. The cursor comes to stand on `insert_after`.
    pub fn insert_cloned(self, leaf: Option<L>) -> (e: OccupiedEntry<LongTree<N, L>>)
        requires
            self.wf(),
            self.cursor.tree.0.nodes@.len() + 3 < isize::MAX,
            forall|c: int, k: N|
                is_child(self.cursor.listing(), self.insert_after.node_index as int, c)
                    && #[trigger] cloned(*self.node, k) ==> !(
                #[trigger] self.cursor.listing()[c]).key.eq_spec(&k),
        ensures
            e.wf(),
            e.cursor.raw == self.insert_after,
            exists|k: N|
                #[trigger] cloned(*self.node, k) && e.cursor.listing() == inserted(
                    self.cursor.listing(),
                    self.insert_after.node_index as int,
                    seq![k],
                    leaf,
                ),
            e.move_to.depth == self.insert_after.depth + 1,
    {
        let VacantEntry { cursor, node, insert_after } = self;
        let Cursor { tree, raw: _ } = cursor;
        let mut tree = tree;
        let key = node.clone();
        let ghost k = key;
        let mut keys: Vec<N> = Vec::new();
        keys.push(key);
        proof {
            assert(keys@ =~= seq![k]);
            assert(keys@[0] == k);
            assert(cloned(*node, k));
            assert(tree.0@ == self.cursor.listing());
        }
        let at = tree.0.insert_nodes_after(insert_after, keys, leaf);
        OccupiedEntry { cursor: Cursor { tree, raw: insert_after }, move_to: at }
    }
}

impl<N: PartialEq, L> Entry<N, LongTree<N, L>> {
    /// The entry itself where it is occupied; else the entry of the node
    /// that is put in at the vacant place, with `leaf` for its value.
    pub fn or_insert(self, leaf: Option<L>) -> (e: OccupiedEntry<LongTree<N, L>>)
        requires
            match self {
                Entry::Occupied(o) => true,
                Entry::Vacant(v) => v.wf() && v.fresh(),
            },
        ensures
            match self {
                Entry::Occupied(o) => e == o,
                Entry::Vacant(v) => e.wf() && e.cursor.raw == v.insert_after && e.cursor.listing()
                    == inserted(
                    v.cursor.listing(),
                    v.insert_after.node_index as int,
                    seq![v.node],
                    leaf,
                ) && e.move_to.depth == v.insert_after.depth + 1,
            },
    {
        match self {
            Entry::Occupied(occupied) => occupied,
            Entry::Vacant(vacant) => vacant.insert(leaf),
        }
    }
}

impl<N, L> OccupiedEntry<LongTree<N, L>> {
    /// The value of the node of the entry, to be changed in place, if the
    /// node carries one.
    pub fn leaf_mut(&mut self) -> (r: Option<&mut L>)
        requires
            old(self).wf(),
        ensures
            r.is_some() == old(self).cursor.tree.0.leaf_index(old(self).move_to).is_some(),
            final(self).move_to == old(self).move_to,
            final(self).cursor.raw == old(self).cursor.raw,
            final(self).cursor.tree.0.nodes@ == old(self).cursor.tree.0.nodes@,
            final(self).cursor.tree.0.jumps@ == old(self).cursor.tree.0.jumps@,
            match r {
                Some(v) => *v == old(self).cursor.tree.0.leaves@[old(self).cursor.tree.0.leaf_index(
                    old(self).move_to,
                ).unwrap()] && final(self).cursor.tree.0.leaves@ == old(
                    self,
                ).cursor.tree.0.leaves@.update(
                    old(self).cursor.tree.0.leaf_index(old(self).move_to).unwrap(),
                    *final(v),
                ),
                None => final(self).cursor.tree.0.leaves@ == old(self).cursor.tree.0.leaves@,
            },
    {
        self.cursor.tree.0.get_leaf_mut(self.move_to)
    }

    /// Cuts the node of the entry out of the tree, with its subtree, and
    /// returns the cursor on its parent; on the root after the root itself
    /// was cut, which empties the tree.
    pub fn prune(self) -> (c: Cursor<LongTree<N, L>>)
        requires
            self.wf(),
        ensures
            c.wf(),
            self.move_to.node_index == -1 ==> c.listing() == Seq::<Listed<N, L>>::empty()
                && c.raw == self.move_to,
            self.move_to.node_index >= 0 ==> c.listing() == pruned(
                self.cursor.listing(),
                self.move_to.node_index as int,
            ) && is_parent(
                self.cursor.listing(),
                self.move_to.node_index as int,
                c.raw.node_index as int,
            ),
    {
        let OccupiedEntry { cursor, move_to } = self;
        let Cursor { tree, raw: _ } = cursor;
        let mut tree = tree;
        let parent = tree.0.prune_node(move_to);
        Cursor { tree, raw: parent }
    }
}

impl<T: TreeRef> Cursor<T> {
    /// Record `x` of the table carries a value equal to `leaf`.
    pub open spec fn carries<M>(&self, x: int, leaf: M) -> bool where T::Leaf: PartialEq<M> {
        match self.tree.trie().jumps@[x].next_major_node.leaf() {
            Some(v) => self.tree.trie().leaves@[v].eq_spec(&leaf),
            None => false,
        }
    }

    /// The entry of the first node with a value equal to `leaf`, on a walk
    /// round the jump table that starts just behind the record of the
    /// cursor, with the cursor moved to it; the cursor as it was where no
    /// value is equal to `leaf`.
    pub fn find_leaf_after_wrapping<M>(self, leaf: M) -> (r: Result<
        OccupiedEntry<T>,
        Cursor<T>,
    >) where T::Leaf: PartialEq<M>
        requires
            self.wf(),
        ensures
            match r {
                Ok(o) => {
                    &&& o.wf()
                    &&& o.cursor.tree == self.tree
                    &&& o.cursor.raw == o.move_to
                    &&& o.move_to.node_index >= 0
                    &&& self.listing()[o.move_to.node_index as int].value.is_some()
                    &&& <T::Leaf as PartialEqSpec<M>>::obeys_eq_spec()
                        ==> self.listing()[o.move_to.node_index as int].value.unwrap().eq_spec(
                        &leaf,
                    )
                    &&& <T::Leaf as PartialEqSpec<M>>::obeys_eq_spec() ==> exists|k: int|
                        0 <= k < self.tree.trie().jumps@.len() && o.move_to
                            == self.tree.trie().major_cursor(
                            #[trigger] self.tree.trie().wrap_index(
                                self.raw.parent_jump_index as int,
                                k,
                            ),
                        ) && forall|l: int|
                            0 <= l < k ==> !self.carries(
                                #[trigger] self.tree.trie().wrap_index(
                                    self.raw.parent_jump_index as int,
                                    l,
                                ),
                                leaf,
                            )
                },
                Err(c) => {
                    &&& c == self
                    &&& <T::Leaf as PartialEqSpec<M>>::obeys_eq_spec() ==> forall|v: int|
                        0 <= v < self.tree.trie().leaves@.len() ==> !(
                        #[trigger] self.tree.trie().leaves@[v]).eq_spec(&leaf)
                },
            },
    {
        let found = {
            let tree = self.tree.raw();
            let by = |l: &T::Leaf| -> (b: bool)
                ensures
                    <T::Leaf as PartialEqSpec<M>>::obeys_eq_spec() ==> b == l.eq_spec(&leaf),
                { l.eq(&leaf) };
            let found = tree.find_leaf_after_wrapping_by(self.raw, by);
            proof {
                match found {
                    Some(c) => {
                        tree.lemma_leaf(c);
                        let i = self.raw.parent_jump_index as int;
                        let k = choose|k: int|
                            0 <= k < tree.jumps@.len() && c == tree.major_cursor(
                                #[trigger] tree.wrap_index(i, k),
                            ) && tree.hit(&by, tree.wrap_index(i, k));
                        let x = tree.wrap_index(i, k);
                        assert(tree.hit(&by, x));
                        if <T::Leaf as PartialEqSpec<M>>::obeys_eq_spec() {
                            let k0 = choose|k: int|
                                0 <= k < tree.jumps@.len() && c == tree.major_cursor(
                                    #[trigger] tree.wrap_index(i, k),
                                ) && tree.hit(&by, tree.wrap_index(i, k)) && forall|l: int|
                                    0 <= l < k ==> tree.miss(&by, #[trigger] tree.wrap_index(i, l));
                            assert forall|l: int| 0 <= l < k0 implies !self.carries(
                                #[trigger] tree.wrap_index(i, l),
                                leaf,
                            ) by {
                                assert(tree.miss(&by, tree.wrap_index(i, l)));
                            }
                        }
                        assert(0 <= i < tree.jumps@.len());
                        assert(0 <= x < tree.jumps@.len());
                        assert(tree.jumps@.len() <= usize::MAX) by {
                            assert(tree.jumps.len() == tree.jumps@.len());
                        }
                        assert(c.parent_jump_index == x);
                    },
                    None => {
                        tree.lemma_values_held();
                        assert forall|v: int|
                            0 <= v < tree.leaves@.len() && <T::Leaf as PartialEqSpec<
                                M,
                            >>::obeys_eq_spec() implies !(#[trigger] tree.leaves@[v]).eq_spec(
                            &leaf,
                        ) by {
                            let x = tree.spans().leaf_owner[v];
                            assert(tree.miss(&by, x));
                        }
                    },
                }
            }
            found
        };
        match found {
            Some(raw) => Ok(OccupiedEntry { cursor: Cursor { tree: self.tree, raw }, move_to: raw }),
            None => Err(self),
        }
    }
}

} // verus!
