//! A binary tree of leaves and two-child nodes, and a cursor that walks and
//! edits it while owning it.

use vstd::prelude::*;

verus! {

/// A tree is empty, a single leaf, or a node with exactly two subtrees and
/// an optional payload.
pub enum Tree<L, N> {
    Empty,
    Leaf(L),
    Node { left: Box<Tree<L, N>>, right: Box<Tree<L, N>>, data: Option<N> },
}

/// The way from a position up to the root: at each step the payload of the
/// parent and the sibling subtree that was not entered.
pub enum Path<L, N> {
    Top,
    Left { right: Box<Tree<L, N>>, data: Option<N>, up: Box<Path<L, N>> },
    Right { left: Box<Tree<L, N>>, data: Option<N>, up: Box<Path<L, N>> },
}

/// A position in a tree: the subtree at the position and the path above it.
pub struct Cursor<L, N> {
    pub it: Tree<L, N>,
    pub path: Path<L, N>,
}

impl<L, N> Tree<L, N> {
    /// The leaves in pre-order.
    pub open spec fn leaves(self) -> Seq<L>
        decreases self,
    {
        match self {
            Tree::Empty => Seq::empty(),
            Tree::Leaf(l) => seq![l],
            Tree::Node { left, right, data } => left.leaves() + right.leaves(),
        }
    }

    /// The payloads of the nodes in pre-order.
    pub open spec fn nodes(self) -> Seq<Option<N>>
        decreases self,
    {
        match self {
            Tree::Empty => Seq::empty(),
            Tree::Leaf(l) => Seq::empty(),
            Tree::Node { left, right, data } => seq![data] + left.nodes() + right.nodes(),
        }
    }

    /// The tree in which the leaf of pre-order index `n` has become a node
    /// with payload `data`, the old leaf as first child and `leaf` as second.
    pub open spec fn split_leaf(self, n: int, leaf: L, data: Option<N>) -> Tree<L, N>
        decreases self,
    {
        match self {
            Tree::Empty => self,
            Tree::Leaf(l) => if n == 0 {
                Tree::Node {
                    left: Box::new(Tree::Leaf(l)),
                    right: Box::new(Tree::Leaf(leaf)),
                    data,
                }
            } else {
                self
            },
            Tree::Node { left, right, data: d } => if n < left.leaves().len() {
                Tree::Node { left: Box::new(left.split_leaf(n, leaf, data)), right, data: d }
            } else {
                Tree::Node {
                    left,
                    right: Box::new(right.split_leaf(n - left.leaves().len(), leaf, data)),
                    data: d,
                }
            },
        }
    }

    /// The number of positions in the tree: the empty places, the leaves
    /// and the nodes.
    pub open spec fn size(self) -> nat
        decreases self,
    {
        match self {
            Tree::Empty => 1,
            Tree::Leaf(l) => 1,
            Tree::Node { left, right, data } => 1 + left.size() + right.size(),
        }
    }

    /// The empty tree.
    pub fn new() -> (t: Self)
        ensures
            t == Tree::<L, N>::Empty,
    {
        Tree::Empty
    }

    /// The tree of one leaf.
    pub fn leaf(value: L) -> (t: Self)
        ensures
            t == Tree::<L, N>::Leaf(value),
    {
        Tree::Leaf(value)
    }

    /// True iff the tree holds nothing.
    pub fn is_empty(&self) -> (b: bool)
        ensures
            b == (*self is Empty),
    {
        match self {
            Tree::Empty => true,
            _ => false,
        }
    }

    /// The number of leaves.
    pub fn num_leaves(&self) -> (n: usize)
        requires
            self.leaves().len() <= usize::MAX,
        ensures
            n == self.leaves().len(),
        decreases self,
    {
        match self {
            Tree::Empty => 0,
            Tree::Leaf(_) => 1,
            Tree::Node { left, right, data } => {
                let a: usize = left.num_leaves();
                let b: usize = right.num_leaves();
                a + b
            },
        }
    }

    /// A cursor at the root.
    pub fn cursor(self) -> (c: Cursor<L, N>)
        ensures
            c.it == self,
            c.path == Path::<L, N>::Top,
    {
        Cursor { it: self, path: Path::Top }
    }
}

impl<L, N> Path<L, N> {
    /// The whole tree that has `t` at the position this path leads to.
    pub open spec fn plug(self, t: Tree<L, N>) -> Tree<L, N>
        decreases self,
    {
        match self {
            Path::Top => t,
            Path::Left { right, data, up } => up.plug(
                Tree::Node { left: Box::new(t), right, data },
            ),
            Path::Right { left, data, up } => up.plug(
                Tree::Node { left, right: Box::new(t), data },
            ),
        }
    }

    /// The leaves of the whole tree that come before the position.
    pub open spec fn before(self) -> Seq<L>
        decreases self,
    {
        match self {
            Path::Top => Seq::empty(),
            Path::Left { right, data, up } => up.before(),
            Path::Right { left, data, up } => up.before() + left.leaves(),
        }
    }

    /// The leaves of the whole tree that come after the position.
    pub open spec fn after(self) -> Seq<L>
        decreases self,
    {
        match self {
            Path::Top => Seq::empty(),
            Path::Left { right, data, up } => right.leaves() + up.after(),
            Path::Right { left, data, up } => up.after(),
        }
    }

    /// The number of positions that a pre-order walk still has to visit
    /// once it has left the position this path leads to.
    pub open spec fn ahead(self) -> nat
        decreases self,
    {
        match self {
            Path::Top => 0,
            Path::Left { right, data, up } => right.size() + up.ahead(),
            Path::Right { left, data, up } => up.ahead(),
        }
    }

    /// The payloads of the ancestors, the immediate parent first.
    pub open spec fn ancestors(self) -> Seq<Option<N>>
        decreases self,
    {
        match self {
            Path::Top => Seq::empty(),
            Path::Left { right, data, up } => seq![data] + up.ancestors(),
            Path::Right { left, data, up } => seq![data] + up.ancestors(),
        }
    }
}

/// The leaves of a whole tree are those before the position, those at it and
/// those after it, in this order.
pub proof fn lemma_plug_leaves<L, N>(path: Path<L, N>, t: Tree<L, N>)
    ensures
        path.plug(t).leaves() == path.before() + t.leaves() + path.after(),
    decreases path,
{
    match path {
        Path::Top => {
            assert(t.leaves() =~= Seq::<L>::empty() + t.leaves() + Seq::<L>::empty());
        },
        Path::Left { right, data, up } => {
            let n = Tree::Node { left: Box::new(t), right, data };
            lemma_plug_leaves(*up, n);
            assert(up.before() + n.leaves() + up.after() =~= path.before() + t.leaves()
                + path.after());
        },
        Path::Right { left, data, up } => {
            let n = Tree::Node { left, right: Box::new(t), data };
            lemma_plug_leaves(*up, n);
            assert(up.before() + n.leaves() + up.after() =~= path.before() + t.leaves()
                + path.after());
        },
    }
}

/// Climbing from a position that has been visited leads to a position of
/// the same tree, right after the leaves of the subtree that was left, or
/// nowhere if no leaf follows.
pub proof fn lemma_climb<L, N>(it: Tree<L, N>, path: Path<L, N>)
    ensures
        match Cursor::climb(it, path) {
            Some(c) => c.whole() == path.plug(it) && c.path.before() == path.before()
                + it.leaves() && c.it.size() + c.path.ahead() == path.ahead(),
            None => path.after() == Seq::<L>::empty() && path.ahead() == 0,
        },
    decreases path,
{
    match path {
        Path::Top => {},
        Path::Left { right, data, up } => {},
        Path::Right { left, data, up } => {
            let n = Tree::Node { left, right: Box::new(it), data };
            lemma_climb(n, *up);
            assert(up.before() + n.leaves() =~= path.before() + it.leaves());
        },
    }
}

/// One step in pre-order stays in the same tree, passes exactly the leaf at
/// the old position if there is one, and shortens what is left of the walk.
pub proof fn lemma_next<L, N>(c: Cursor<L, N>)
    ensures
        match c.next() {
            Some(n) => {
                &&& n.whole() == c.whole()
                &&& n.path.before() == c.path.before() + (if c.it is Node {
                    Seq::<L>::empty()
                } else {
                    c.it.leaves()
                })
                &&& n.it.size() + n.path.ahead() < c.it.size() + c.path.ahead()
            },
            None => !(c.it is Node) && c.path.after() == Seq::<L>::empty(),
        },
{
    match c.it {
        Tree::Node { left, right, data } => {
            assert(c.path.before() + Seq::<L>::empty() =~= c.path.before());
        },
        _ => {
            lemma_climb(c.it, c.path);
        },
    }
}

/// Splitting the leaf under a cursor is splitting the leaf of the whole tree
/// that has as many leaves before it as the cursor has.
pub proof fn lemma_plug_split<L, N>(
    path: Path<L, N>,
    t: Tree<L, N>,
    k: int,
    leaf: L,
    data: Option<N>,
)
    requires
        0 <= k < t.leaves().len(),
    ensures
        path.plug(t.split_leaf(k, leaf, data)) == path.plug(t).split_leaf(
            path.before().len() + k,
            leaf,
            data,
        ),
    decreases path,
{
    match path {
        Path::Top => {},
        Path::Left { right, data: d, up } => {
            let n = Tree::Node { left: Box::new(t), right, data: d };
            lemma_plug_split(*up, n, k, leaf, data);
        },
        Path::Right { left, data: d, up } => {
            let n = Tree::Node { left, right: Box::new(t), data: d };
            lemma_plug_split(*up, n, left.leaves().len() + k, leaf, data);
        },
    }
}

/// Splitting a leaf puts the new leaf right behind it in pre-order and
/// the new payload where a pre-order walk meets the new node.
pub proof fn lemma_split_leaves<L, N>(t: Tree<L, N>, n: int, leaf: L, data: Option<N>)
    requires
        0 <= n < t.leaves().len(),
    ensures
        t.split_leaf(n, leaf, data).leaves() == t.leaves().insert(n + 1, leaf),
    decreases t,
{
    match t {
        Tree::Empty => {},
        Tree::Leaf(l) => {
            let first = Tree::<L, N>::Leaf(l);
            let second = Tree::<L, N>::Leaf(leaf);
            assert(first.leaves() + second.leaves() =~= t.leaves().insert(n + 1, leaf));
        },
        Tree::Node { left, right, data: d } => {
            let a = left.leaves();
            let b = right.leaves();
            if n < a.len() {
                lemma_split_leaves(*left, n, leaf, data);
                assert(a.insert(n + 1, leaf) + b =~= (a + b).insert(n + 1, leaf));
            } else {
                lemma_split_leaves(*right, n - a.len(), leaf, data);
                assert(a + b.insert(n - a.len() + 1, leaf) =~= (a + b).insert(n + 1, leaf));
            }
        },
    }
}

impl<L, N> Cursor<L, N> {
    /// The whole tree that the cursor owns.
    pub open spec fn whole(self) -> Tree<L, N> {
        self.path.plug(self.it)
    }

    /// True iff the position is the root.
    pub fn is_top(&self) -> (b: bool)
        ensures
            b == (self.path is Top),
    {
        match &self.path {
            Path::Top => true,
            _ => false,
        }
    }

    /// True iff the position holds a leaf.
    pub fn is_leaf(&self) -> (b: bool)
        ensures
            b == (self.it is Leaf),
    {
        match &self.it {
            Tree::Leaf(_) => true,
            _ => false,
        }
    }

    /// True iff the position is the first child of its parent.
    pub fn is_left(&self) -> (b: bool)
        ensures
            b == (self.path is Left),
    {
        match &self.path {
            Path::Left { .. } => true,
            _ => false,
        }
    }

    /// True iff the position is the second child of its parent.
    pub fn is_right(&self) -> (b: bool)
        ensures
            b == (self.path is Right),
    {
        match &self.path {
            Path::Right { .. } => true,
            _ => false,
        }
    }

    /// Moves to the first child of the node at the position.
    pub fn go_left(self) -> (r: Result<Self, Self>)
        ensures
            match r {
                Ok(c) => self.it matches Tree::Node { left, right, data } && c.it == *left
                    && c.path == (Path::Left { right, data, up: Box::new(self.path) }),
                Err(c) => !(self.it is Node) && c == self,
            },
    {
        let Cursor { it, path } = self;
        match it {
            Tree::Node { left, right, data } => Ok(
                Cursor { it: *left, path: Path::Left { right, data, up: Box::new(path) } },
            ),
            other => Err(Cursor { it: other, path }),
        }
    }

    /// Moves to the second child of the node at the position.
    pub fn go_right(self) -> (r: Result<Self, Self>)
        ensures
            match r {
                Ok(c) => self.it matches Tree::Node { left, right, data } && c.it == *right
                    && c.path == (Path::Right { left, data, up: Box::new(self.path) }),
                Err(c) => !(self.it is Node) && c == self,
            },
    {
        let Cursor { it, path } = self;
        match it {
            Tree::Node { left, right, data } => Ok(
                Cursor { it: *right, path: Path::Right { left, data, up: Box::new(path) } },
            ),
            other => Err(Cursor { it: other, path }),
        }
    }

    /// Moves to the parent of the position.
    pub fn go_up(self) -> (r: Result<Self, Self>)
        ensures
            match r {
                Ok(c) => match self.path {
                    Path::Top => false,
                    Path::Left { right, data, up } => c.path == *up && c.it == (Tree::Node {
                        left: Box::new(self.it),
                        right,
                        data,
                    }),
                    Path::Right { left, data, up } => c.path == *up && c.it == (Tree::Node {
                        left,
                        right: Box::new(self.it),
                        data,
                    }),
                },
                Err(c) => self.path is Top && c == self,
            },
            r matches Ok(c) ==> c.whole() == self.whole(),
    {
        let Cursor { it, path } = self;
        match path {
            Path::Top => Err(Cursor { it, path: Path::Top }),
            Path::Left { right, data, up } => Ok(
                Cursor { it: Tree::Node { left: Box::new(it), right, data }, path: *up },
            ),
            Path::Right { left, data, up } => Ok(
                Cursor { it: Tree::Node { left, right: Box::new(it), data }, path: *up },
            ),
        }
    }

    /// The leaf at the position, if there is one.
    pub fn leaf_mut(&mut self) -> (r: Option<&mut L>)
        ensures
            match r {
                Some(l) => old(self).it == Tree::<L, N>::Leaf(*l) && final(self).it
                    == Tree::<L, N>::Leaf(*final(l)) && final(self).path == old(self).path,
                None => !(old(self).it is Leaf) && *final(self) == *old(self),
            },
    {
        match &mut self.it {
            Tree::Leaf(l) => Some(l),
            _ => None,
        }
    }

    /// The payload of the node at the position, if there is a node.
    pub fn node_mut(&mut self) -> (r: Option<&mut Option<N>>)
        ensures
            match r {
                Some(d) => old(self).it matches Tree::Node { left, right, data } && *d == data
                    && final(self).it == (Tree::Node { left, right, data: *final(d) })
                    && final(self).path == old(self).path,
                None => !(old(self).it is Node) && *final(self) == *old(self),
            },
    {
        match &mut self.it {
            Tree::Node { left, right, data } => Some(data),
            _ => None,
        }
    }

    /// The payloads of the ancestors of the position, from the immediate
    /// parent up to the root.
    pub fn path_to_root(&self) -> (v: Vec<&Option<N>>)
        ensures
            v@.len() == self.path.ancestors().len(),
            forall|i: int| 0 <= i < v@.len() ==> *v@[i] == self.path.ancestors()[i],
    {
        let mut v: Vec<&Option<N>> = Vec::new();
        let mut p: &Path<L, N> = &self.path;
        loop
            invariant
                v@.len() + p.ancestors().len() == self.path.ancestors().len(),
                forall|i: int| 0 <= i < v@.len() ==> *v@[i] == self.path.ancestors()[i],
                forall|i: int|
                    0 <= i < p.ancestors().len() ==> p.ancestors()[i]
                        == self.path.ancestors()[v@.len() + i],
            decreases p,
        {
            match p {
                Path::Top => {
                    return v;
                },
                Path::Left { right, data, up } => {
                    assert(p.ancestors()[0] == *data);
                    assert forall|i: int| 0 <= i < up.ancestors().len() implies up.ancestors()[i]
                        == self.path.ancestors()[v@.len() + 1 + i] by {
                        assert(p.ancestors()[i + 1] == up.ancestors()[i]);
                    }
                    v.push(data);
                    p = &**up;
                },
                Path::Right { left, data, up } => {
                    assert(p.ancestors()[0] == *data);
                    assert forall|i: int| 0 <= i < up.ancestors().len() implies up.ancestors()[i]
                        == self.path.ancestors()[v@.len() + 1 + i] by {
                        assert(p.ancestors()[i + 1] == up.ancestors()[i]);
                    }
                    v.push(data);
                    p = &**up;
                },
            }
        }
    }

    /// Makes `leaf` the root. Succeeds only on an empty tree.
    pub fn assign_top(self, leaf: L) -> (r: Result<Self, Self>)
        ensures
            match r {
                Ok(c) => self.path is Top && self.it is Empty && c.it == Tree::<L, N>::Leaf(leaf)
                    && c.path is Top,
                Err(c) => !(self.path is Top && self.it is Empty) && c == self,
            },
    {
        let Cursor { it, path } = self;
        match (it, path) {
            (Tree::Empty, Path::Top) => Ok(Cursor { it: Tree::Leaf(leaf), path: Path::Top }),
            (it, path) => Err(Cursor { it, path }),
        }
    }

    /// Writes the payload of the node at the position.
    pub fn assign_node(self, value: Option<N>) -> (r: Result<Self, Self>)
        ensures
            match r {
                Ok(c) => self.it matches Tree::Node { left, right, data } && c.it == (Tree::Node {
                    left,
                    right,
                    data: value,
                }) && c.path == self.path,
                Err(c) => !(self.it is Node) && c == self,
            },
    {
        let Cursor { it, path } = self;
        match it {
            Tree::Node { left, right, data } => Ok(
                Cursor { it: Tree::Node { left, right, data: value }, path },
            ),
            other => Err(Cursor { it: other, path }),
        }
    }

    /// Replaces the leaf at the position by a node without payload that has
    /// the old leaf as first child and `leaf` as second. The cursor stays at
    /// the position, now that of the new node.
    pub fn split_leaf_and_insert_right(self, leaf: L) -> (r: Result<Self, Self>)
        ensures
            match r {
                Ok(c) => self.it matches Tree::Leaf(l) && c.it == (Tree::<L, N>::Node {
                    left: Box::new(Tree::<L, N>::Leaf(l)),
                    right: Box::new(Tree::<L, N>::Leaf(leaf)),
                    data: None,
                }) && c.path == self.path,
                Err(c) => !(self.it is Leaf) && c == self,
            },
    {
        let Cursor { it, path } = self;
        match it {
            Tree::Leaf(l) => Ok(
                Cursor {
                    it: Tree::Node {
                        left: Box::new(Tree::Leaf(l)),
                        right: Box::new(Tree::Leaf(leaf)),
                        data: None,
                    },
                    path,
                },
            ),
            other => Err(Cursor { it: other, path }),
        }
    }

    /// Removes the leaf at the position and puts its sibling in the place of
    /// their parent. Gives back the cursor at the sibling's new place, the
    /// leaf and the parent's payload. Fails at the root and where the
    /// position holds no leaf.
    pub fn unsplit_leaf(self) -> (r: Result<(Self, L, Option<N>), Self>)
        ensures
            match r {
                Ok((c, l, d)) => self.it == Tree::<L, N>::Leaf(l) && match self.path {
                    Path::Top => false,
                    Path::Left { right, data, up } => c.it == *right && c.path == *up && d == data,
                    Path::Right { left, data, up } => c.it == *left && c.path == *up && d == data,
                },
                Err(c) => (self.path is Top || !(self.it is Leaf)) && c == self,
            },
    {
        let Cursor { it, path } = self;
        match (it, path) {
            (Tree::Leaf(l), Path::Left { right, data, up }) => Ok(
                (Cursor { it: *right, path: *up }, l, data),
            ),
            (Tree::Leaf(l), Path::Right { left, data, up }) => Ok(
                (Cursor { it: *left, path: *up }, l, data),
            ),
            (it, path) => Err(Cursor { it, path }),
        }
    }

    /// The position that follows in pre-order, if there is one: the first
    /// child of a node; else the second child of the nearest ancestor that
    /// was entered by its first child.
    pub open spec fn next(self) -> Option<Self> {
        match self.it {
            Tree::Node { left, right, data } => Some(
                Cursor { it: *left, path: Path::Left { right, data, up: Box::new(self.path) } },
            ),
            _ => Self::climb(self.it, self.path),
        }
    }

    /// The second child of the nearest ancestor of `it` that has `it` in its
    /// first subtree.
    pub open spec fn climb(it: Tree<L, N>, path: Path<L, N>) -> Option<Self>
        decreases path,
    {
        match path {
            Path::Top => None,
            Path::Left { right, data, up } => Some(
                Cursor { it: *right, path: Path::Right { left: Box::new(it), data, up } },
            ),
            Path::Right { left, data, up } => Self::climb(
                Tree::Node { left, right: Box::new(it), data },
                *up,
            ),
        }
    }

    /// Advances in pre-order. When the walk is over, the whole tree comes
    /// back instead.
    pub fn preorder_next(self) -> (r: Result<Self, Tree<L, N>>)
        ensures
            match r {
                Ok(c) => self.next() == Some(c),
                Err(t) => self.next() is None && t == self.whole(),
            },
    {
        let Cursor { it, path } = self;
        match it {
            Tree::Node { left, right, data } => Ok(
                Cursor { it: *left, path: Path::Left { right, data, up: Box::new(path) } },
            ),
            other => {
                let mut cur: Tree<L, N> = other;
                let mut p: Path<L, N> = path;
                loop
                    invariant
                        Self::climb(cur, p) == Self::climb(self.it, self.path),
                        p.plug(cur) == self.whole(),
                        !(self.it is Node),
                    decreases p,
                {
                    match p {
                        Path::Top => {
                            return Err(cur);
                        },
                        Path::Left { right, data, up } => {
                            return Ok(
                                Cursor {
                                    it: *right,
                                    path: Path::Right { left: Box::new(cur), data, up },
                                },
                            );
                        },
                        Path::Right { left, data, up } => {
                            cur = Tree::Node { left, right: Box::new(cur), data };
                            p = *up;
                        },
                    }
                }
            },
        }
    }

    /// Walks on in pre-order to the leaf that has `n` leaves between the
    /// position and itself, the leaf at the position counted. Where fewer
    /// leaves are left, the cursor comes back at the root.
    pub fn go_to_nth_leaf(self, n: usize) -> (r: Result<Self, Self>)
        ensures
            match r {
                Ok(c) => {
                    &&& n < self.it.leaves().len() + self.path.after().len()
                    &&& c.whole() == self.whole()
                    &&& c.it is Leaf
                    &&& c.path.before().len() == self.path.before().len() + n
                },
                Err(c) => {
                    &&& n >= self.it.leaves().len() + self.path.after().len()
                    &&& c.path is Top
                    &&& c.it == self.whole()
                },
            },
    {
        let mut c = self;
        let mut seen: usize = 0;
        proof {
            lemma_plug_leaves(self.path, self.it);
        }
        loop
            invariant
                c.whole() == self.whole(),
                seen <= n,
                c.path.before().len() == self.path.before().len() + seen,
                self.whole().leaves() == self.path.before() + self.it.leaves()
                    + self.path.after(),
            decreases c.it.size() + c.path.ahead(),
        {
            proof {
                lemma_next(c);
                lemma_plug_leaves(c.path, c.it);
            }
            if c.is_leaf() {
                if seen == n {
                    proof {
                        let total = self.whole().leaves();
                        assert(c.it.leaves().len() == 1);
                        assert(total.len() == c.path.before().len() + 1 + c.path.after().len());
                        assert(total.len() == self.path.before().len() + self.it.leaves().len()
                            + self.path.after().len());
                    }
                    return Ok(c);
                }
                seen = seen + 1;
            }
            match c.preorder_next() {
                Ok(nc) => {
                    c = nc;
                },
                Err(t) => {
                    return Err(t.cursor());
                },
            }
        }
    }

    /// Gives the tree back, whatever the position was.
    pub fn tree(self) -> (t: Tree<L, N>)
        ensures
            t == self.whole(),
    {
        let mut c = self;
        loop
            invariant
                c.whole() == self.whole(),
            decreases c.path,
        {
            match c.go_up() {
                Ok(up) => {
                    c = up;
                },
                Err(top) => {
                    return top.it;
                },
            }
        }
    }
}

} // verus!
