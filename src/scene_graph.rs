use vstd::prelude::*;

verus! {

/// Geometry attached to a node: an opaque buffer handle and how many indices to draw.
#[derive(Clone, Copy, Debug, PartialEq, Eq, Structural)]
pub struct Drawable {
    pub handle: u32,
    pub index_count: u32,
}

impl Drawable {
    /// Whether this geometry issues a draw call at all.
    pub fn is_visible(&self) -> (r: bool)
        ensures
            r == (self.index_count > 0),
    {
        self.index_count > 0
    }
}

/// Why a node could not be attached below another.
#[derive(Clone, Copy, Debug, PartialEq, Eq, Structural)]
pub enum AttachError {
    /// The child is already attached somewhere: a node has at most one parent.
    AlreadyAttached,
    /// The child is the parent itself or one of its ancestors.
    WouldCycle,
}

/// One step of a render pass: the node visited, the position in the pass of
/// its parent's step (whose accumulated transform this step extends), and the
/// geometry to draw there, if any.
#[derive(Clone, Copy, Debug, PartialEq, Eq, Structural)]
pub struct Visit {
    pub node: usize,
    pub parent_visit: Option<usize>,
    pub draw: Option<Drawable>,
}

/// What a node with the given geometry draws: nothing without geometry or with
/// an empty index range.
pub open spec fn draw_of(d: Option<Drawable>) -> Option<Drawable> {
    match d {
        Some(g) => if g.index_count > 0 {
            Some(g)
        } else {
            None
        },
        None => None,
    }
}

#[verifier::reject_recursive_types(T)]
struct Node<T> {
    payload: T,
    drawable: Option<Drawable>,
    children: Vec<usize>,
    parent: Option<usize>,
}

/// An arena of scene nodes addressed by stable indices, forming a forest.
///
/// Every node carries a payload of type `T` (its transform state), optional
/// geometry, an ordered list of children and at most one parent.
#[verifier::reject_recursive_types(T)]
pub struct SceneGraph<T> {
    nodes: Vec<Node<T>>,
    /// Parents rank strictly below their children; every rank is below `bound`.
    rank: Ghost<Seq<nat>>,
    bound: Ghost<nat>,
}

impl<T> SceneGraph<T> {
    /// Number of nodes.
    pub closed spec fn node_count(&self) -> nat {
        self.nodes@.len()
    }

    pub open spec fn valid_id(&self, x: int) -> bool {
        0 <= x < self.node_count()
    }

    /// The transform state of node `x`.
    pub closed spec fn payload_of(&self, x: int) -> T {
        self.nodes@[x].payload
    }

    /// The geometry of node `x`, if any.
    pub closed spec fn drawable_of(&self, x: int) -> Option<Drawable> {
        self.nodes@[x].drawable
    }

    /// The children of node `x`, in draw order.
    pub closed spec fn children_of(&self, x: int) -> Seq<usize> {
        self.nodes@[x].children@
    }

    /// The parent of node `x`, if it is attached.
    pub closed spec fn parent_of(&self, x: int) -> Option<usize> {
        self.nodes@[x].parent
    }

    /// A bound above every rank.
    pub closed spec fn rank_bound(&self) -> nat {
        self.bound@
    }

    /// The rank of node `x`: below that of each of its children.
    pub closed spec fn rank_of(&self, x: int) -> nat {
        self.rank@[x]
    }

    /// The structural invariant: parent links and child lists agree, child
    /// lists hold no repeats, and ranks grow strictly from parent to child,
    /// so no node is its own ancestor.
    pub closed spec fn wf(&self) -> bool {
        &&& self.rank@.len() == self.nodes@.len()
        &&& 0 < self.bound@
        &&& forall|x: int| 0 <= x < self.node_count() ==> #[trigger] self.rank_of(x) < self.bound@
        &&& forall|x: int|
            0 <= x < self.node_count() && (#[trigger] self.parent_of(x)) is Some ==> {
                let p = self.parent_of(x).unwrap() as int;
                &&& 0 <= p < self.node_count()
                &&& self.rank_of(p) < self.rank_of(x)
                &&& self.children_of(p).contains(x as usize)
            }
        &&& forall|p: int, i: int|
            0 <= p < self.node_count() && 0 <= i < self.children_of(p).len() ==> {
                let c = #[trigger] self.children_of(p)[i] as int;
                &&& 0 <= c < self.node_count()
                &&& self.parent_of(c) == Some(p as usize)
            }
        &&& forall|p: int| 0 <= p < self.node_count() ==> (#[trigger] self.children_of(p)).no_duplicates()
    }

    /// `a` is `x` itself or one of the nodes above `x`.
    pub open spec fn is_ancestor_or_self(&self, a: int, x: int) -> bool
        decreases self.rank_of(x),
        when self.wf() && self.valid_id(x)
    {
        x == a || match self.parent_of(x) {
            Some(p) => self.is_ancestor_or_self(a, p as int),
            None => false,
        }
    }

    /// An empty scene.
    pub fn new() -> (r: Self)
        ensures
            r.wf(),
            r.node_count() == 0,
    {
        SceneGraph { nodes: Vec::new(), rank: Ghost(Seq::empty()), bound: Ghost(1) }
    }

    /// Number of nodes created so far.
    pub fn len(&self) -> (r: usize)
        ensures
            r == self.node_count(),
    {
        self.nodes.len()
    }

    /// Creates a detached node without geometry and returns its index.
    pub fn create_node(&mut self, payload: T) -> (id: usize)
        requires
            old(self).wf(),
        ensures
            final(self).wf(),
            id == old(self).node_count(),
            final(self).node_count() == old(self).node_count() + 1,
            final(self).payload_of(id as int) == payload,
            final(self).drawable_of(id as int) is None,
            final(self).children_of(id as int).len() == 0,
            final(self).parent_of(id as int) is None,
            forall|x: int| #![auto] old(self).valid_id(x) ==> {
                &&& final(self).payload_of(x) == old(self).payload_of(x)
                &&& final(self).drawable_of(x) == old(self).drawable_of(x)
                &&& final(self).children_of(x) == old(self).children_of(x)
                &&& final(self).parent_of(x) == old(self).parent_of(x)
            },
    {
        let id = self.nodes.len();
        self.nodes.push(Node { payload, drawable: None, children: Vec::new(), parent: None });
        self.rank = Ghost(self.rank@.push(0));
        proof {
            assert forall|x: int| 0 <= x < self.node_count() implies #[trigger] self.rank_of(x) < self.bound@ by {
                if x < id {
                    assert(old(self).rank_of(x) < old(self).bound@);
                }
            }
            assert forall|x: int| 0 <= x < id implies #[trigger] self.children_of(x) == old(self).children_of(x) by {}
            assert forall|x: int| 0 <= x < id implies #[trigger] self.parent_of(x) == old(self).parent_of(x) by {}
        }
        id
    }

    proof fn lemma_same_shape_keeps_wf(g0: Self, g1: Self)
        requires
            g0.wf(),
            g1.nodes@.len() == g0.nodes@.len(),
            g1.rank == g0.rank,
            g1.bound == g0.bound,
            forall|x: int| 0 <= x < g0.node_count() ==> g1.nodes@[x].children == g0.nodes@[x].children,
            forall|x: int| 0 <= x < g0.node_count() ==> g1.nodes@[x].parent == g0.nodes@[x].parent,
        ensures
            g1.wf(),
    {
        assert forall|x: int| 0 <= x < g1.node_count() implies #[trigger] g1.children_of(x) == g0.children_of(x) by {
            assert(g1.nodes@[x].children == g0.nodes@[x].children);
        }
        assert forall|x: int| 0 <= x < g1.node_count() implies #[trigger] g1.parent_of(x) == g0.parent_of(x) by {
            assert(g1.nodes@[x].parent == g0.nodes@[x].parent);
        }
        assert forall|x: int| 0 <= x < g1.node_count() implies #[trigger] g1.rank_of(x) == g0.rank_of(x) by {}
    }

    proof fn lemma_attach_keeps_wf(g0: Self, g1: Self, parent: usize, child: usize)
        requires
            g0.wf(),
            g0.valid_id(parent as int),
            g0.valid_id(child as int),
            g0.parent_of(child as int) is None,
            !g0.is_ancestor_or_self(child as int, parent as int),
            g1.nodes@.len() == g0.nodes@.len(),
            g1.children_of(parent as int) == g0.children_of(parent as int).push(child as usize),
            g1.parent_of(child as int) == Some(parent as usize),
            forall|x: int| 0 <= x < g0.node_count() && x != parent as int ==> #[trigger] g1.children_of(x) == g0.children_of(x),
            forall|x: int| 0 <= x < g0.node_count() && x != child as int ==> #[trigger] g1.parent_of(x) == g0.parent_of(x),
            g1.rank@.len() == g0.rank@.len(),
            forall|x: int| 0 <= x < g0.node_count() ==> #[trigger] g1.rank_of(x) == if g0.is_ancestor_or_self(child as int, x) {
                g0.rank_of(x) + g0.rank_of(parent as int) + 1
            } else {
                g0.rank_of(x)
            },
            g1.bound@ == g0.bound@ + g0.rank_of(parent as int) + 1,
        ensures
            g1.wf(),
    {
        assert(g0.is_ancestor_or_self(child as int, child as int));
        assert forall|x: int| 0 <= x < g1.node_count() implies #[trigger] g1.rank_of(x) < g1.bound@ by {
            assert(g0.rank_of(x) < g0.bound@);
        }
        assert forall|x: int| 0 <= x < g1.node_count() && x != parent as int
            implies #[trigger] g1.children_of(x) == g0.children_of(x) by {}
        assert forall|x: int| 0 <= x < g1.node_count() && x != child as int
            implies #[trigger] g1.parent_of(x) == g0.parent_of(x) by {}
        assert forall|x: int|
            0 <= x < g1.node_count() && (#[trigger] g1.parent_of(x)) is Some implies {
                let p = g1.parent_of(x).unwrap() as int;
                &&& 0 <= p < g1.node_count()
                &&& g1.rank_of(p) < g1.rank_of(x)
                &&& g1.children_of(p).contains(x as usize)
            } by {
            if x == child as int {
                assert(g1.children_of(parent as int)[g0.children_of(parent as int).len() as int] == child as usize);
                assert(g1.rank_of(parent as int) == g0.rank_of(parent as int));
                assert(g1.rank_of(child as int) == g0.rank_of(child as int) + g0.rank_of(parent as int) + 1);
                assert(g1.children_of(parent as int).contains(child as usize));
            } else {
                let p = g0.parent_of(x).unwrap() as int;
                assert(g0.rank_of(p) < g0.rank_of(x));
                assert(g0.is_ancestor_or_self(child as int, x) == g0.is_ancestor_or_self(child as int, p));
                assert(g1.rank_of(x) == if g0.is_ancestor_or_self(child as int, x) {
                    g0.rank_of(x) + g0.rank_of(parent as int) + 1
                } else {
                    g0.rank_of(x)
                });
                assert(g1.rank_of(p) == if g0.is_ancestor_or_self(child as int, p) {
                    g0.rank_of(p) + g0.rank_of(parent as int) + 1
                } else {
                    g0.rank_of(p)
                });
                assert(g0.children_of(p).contains(x as usize));
                if p == parent as int {
                    let j = choose|j: int| 0 <= j < g0.children_of(p).len() && g0.children_of(p)[j] == x as usize;
                    assert(g1.children_of(p)[j] == x as usize);
                }
                assert(g1.children_of(p).contains(x as usize));
                assert(g1.rank_of(p) < g1.rank_of(x));
            }
        }
        assert forall|p: int, i: int|
            0 <= p < g1.node_count() && 0 <= i < g1.children_of(p).len() implies {
                let c = #[trigger] g1.children_of(p)[i] as int;
                &&& 0 <= c < g1.node_count()
                &&& g1.parent_of(c) == Some(p as usize)
            } by {
            if p == parent as int && i == g0.children_of(p).len() {
                assert(g1.children_of(p)[i] == child as usize);
            } else {
                assert(g1.children_of(p)[i] == g0.children_of(p)[i]);
                let c = g0.children_of(p)[i] as int;
                assert(g0.parent_of(c) == Some(p as usize));
                assert(c != child as int);
                assert(g1.parent_of(c) == g0.parent_of(c));
            }
        }
        assert forall|p: int| 0 <= p < g1.node_count() implies (#[trigger] g1.children_of(p)).no_duplicates() by {
            assert(g0.children_of(p).no_duplicates());
            if p == parent as int {
                assert forall|i: int| 0 <= i < g0.children_of(p).len() implies g0.children_of(p)[i] != child as int by {
                    assert(g0.parent_of(g0.children_of(p)[i] as int) == Some(p as usize));
                }
            }
        }
    }

    /// Appends `child` to the ordered children of `parent`.
    ///
    /// Refused when `child` already has a parent, or when it is `parent` itself
    /// or an ancestor of it; nothing changes then.
    pub fn add_child(&mut self, parent: usize, child: usize) -> (r: Result<(), AttachError>)
        requires
            old(self).wf(),
            old(self).valid_id(parent as int),
            old(self).valid_id(child as int),
        ensures
            final(self).wf(),
            old(self).parent_of(child as int) is Some ==> r == Err::<(), AttachError>(AttachError::AlreadyAttached),
            old(self).parent_of(child as int) is None && old(self).is_ancestor_or_self(child as int, parent as int)
                ==> r == Err::<(), AttachError>(AttachError::WouldCycle),
            old(self).parent_of(child as int) is None && !old(self).is_ancestor_or_self(child as int, parent as int)
                ==> r is Ok,
            r is Err ==> *final(self) == *old(self),
            final(self).node_count() == old(self).node_count(),
            r is Ok ==> {
                &&& final(self).children_of(parent as int) == old(self).children_of(parent as int).push(child)
                &&& final(self).parent_of(child as int) == Some(parent)
            },
            forall|x: int| #![auto] old(self).valid_id(x) ==> {
                &&& final(self).payload_of(x) == old(self).payload_of(x)
                &&& final(self).drawable_of(x) == old(self).drawable_of(x)
                &&& x != parent ==> final(self).children_of(x) == old(self).children_of(x)
                &&& x != child ==> final(self).parent_of(x) == old(self).parent_of(x)
            },
    {
        if self.nodes[child].parent.is_some() {
            return Err(AttachError::AlreadyAttached);
        }
        let mut cur = parent;
        loop
            invariant
                self.wf(),
                *self == *old(self),
                self.parent_of(child as int) is None,
                self.valid_id(cur as int),
                self.valid_id(child as int),
                self.is_ancestor_or_self(child as int, parent as int)
                    == self.is_ancestor_or_self(child as int, cur as int),
            ensures
                !self.is_ancestor_or_self(child as int, parent as int),
            decreases self.rank_of(cur as int),
        {
            if cur == child {
                proof {
                    assert(self.is_ancestor_or_self(child as int, cur as int));
                }
                return Err(AttachError::WouldCycle);
            }
            match self.nodes[cur].parent {
                Some(q) => {
                    cur = q;
                },
                None => {
                    proof {
                        assert(!self.is_ancestor_or_self(child as int, cur as int));
                    }
                    break;
                },
            }
        }
        let ghost g0 = *self;
        let ghost shift = g0.rank_of(parent as int) + 1;
        self.nodes[parent].children.push(child);
        self.nodes[child].parent = Some(parent);
        self.rank = Ghost(
            Seq::new(
                g0.rank@.len(),
                |x: int|
                    if g0.is_ancestor_or_self(child as int, x) {
                        g0.rank@[x] + shift
                    } else {
                        g0.rank@[x]
                    },
            ),
        );
        self.bound = Ghost(g0.bound@ + shift);
        proof {
            assert forall|x: int| 0 <= x < g0.node_count() implies #[trigger] self.rank_of(x) == if g0.is_ancestor_or_self(child as int, x) {
                g0.rank_of(x) + g0.rank_of(parent as int) + 1
            } else {
                g0.rank_of(x)
            } by {}
            Self::lemma_attach_keeps_wf(g0, *self, parent, child);
        }
        Ok(())
    }

    /// Gives a node geometry: the buffer handle and the number of indices to draw.
    pub fn attach_geometry(&mut self, id: usize, handle: u32, index_count: u32)
        requires
            old(self).wf(),
            old(self).valid_id(id as int),
        ensures
            final(self).wf(),
            final(self).node_count() == old(self).node_count(),
            final(self).drawable_of(id as int) == Some(Drawable { handle, index_count }),
            forall|x: int| #![auto] old(self).valid_id(x) ==> {
                &&& final(self).payload_of(x) == old(self).payload_of(x)
                &&& x != id ==> final(self).drawable_of(x) == old(self).drawable_of(x)
                &&& final(self).children_of(x) == old(self).children_of(x)
                &&& final(self).parent_of(x) == old(self).parent_of(x)
            },
    {
        self.nodes[id].drawable = Some(Drawable { handle, index_count });
        proof {
            Self::lemma_same_shape_keeps_wf(*old(self), *self);
        }
    }

    /// Replaces the transform state carried by a node.
    pub fn set_payload(&mut self, id: usize, payload: T)
        requires
            old(self).wf(),
            old(self).valid_id(id as int),
        ensures
            final(self).wf(),
            final(self).node_count() == old(self).node_count(),
            final(self).payload_of(id as int) == payload,
            forall|x: int| #![auto] old(self).valid_id(x) ==> {
                &&& x != id ==> final(self).payload_of(x) == old(self).payload_of(x)
                &&& final(self).drawable_of(x) == old(self).drawable_of(x)
                &&& final(self).children_of(x) == old(self).children_of(x)
                &&& final(self).parent_of(x) == old(self).parent_of(x)
            },
    {
        self.nodes[id].payload = payload;
        proof {
            Self::lemma_same_shape_keeps_wf(*old(self), *self);
        }
    }

    /// The transform state carried by a node.
    pub fn payload(&self, id: usize) -> (r: &T)
        requires
            self.valid_id(id as int),
        ensures
            *r == self.payload_of(id as int),
    {
        &self.nodes[id].payload
    }

    /// The geometry of a node, if any.
    pub fn drawable(&self, id: usize) -> (r: Option<Drawable>)
        requires
            self.valid_id(id as int),
        ensures
            r == self.drawable_of(id as int),
    {
        self.nodes[id].drawable
    }

    /// The node's children, in draw order.
    pub fn children(&self, id: usize) -> (r: &Vec<usize>)
        requires
            self.valid_id(id as int),
        ensures
            r@ == self.children_of(id as int),
    {
        &self.nodes[id].children
    }

    /// The node's parent, if it is attached.
    pub fn parent(&self, id: usize) -> (r: Option<usize>)
        requires
            self.valid_id(id as int),
        ensures
            r == self.parent_of(id as int),
    {
        self.nodes[id].parent
    }

    /// The pre-order walk from `x`: the step for `x` itself, then the walks of
    /// its children in order, each linked back to the step of `x`. `pv` is the
    /// position of the parent's step and `start` the position of the first step.
    pub open spec fn plan_node(&self, x: usize, pv: Option<usize>, start: nat) -> Seq<Visit>
        decreases self.rank_bound() - self.rank_of(x as int), self.children_of(x as int).len() + 1,
        when self.wf() && self.valid_id(x as int)
    {
        seq![Visit { node: x, parent_visit: pv, draw: draw_of(self.drawable_of(x as int)) }]
            + self.plan_children(x, 0, start, start + 1)
    }

    /// The walks of the children of `x` from the `i`-th on, the first starting
    /// at position `pos`; `xpos` is the position of the step for `x`.
    pub open spec fn plan_children(&self, x: usize, i: int, xpos: nat, pos: nat) -> Seq<Visit>
        decreases self.rank_bound() - self.rank_of(x as int), self.children_of(x as int).len() - i,
        when self.wf() && self.valid_id(x as int) && 0 <= i
    {
        if i >= self.children_of(x as int).len() {
            Seq::empty()
        } else {
            proof {
                let c = self.children_of(x as int)[i] as int;
                assert(self.parent_of(c) == Some(x));
                assert(self.rank_of(x as int) < self.rank_of(c));
                assert(self.rank_of(c) < self.rank_bound());
            }
            let a = self.plan_node(self.children_of(x as int)[i], Some(xpos as usize), pos);
            a + self.plan_children(x, i + 1, xpos, pos + a.len())
        }
    }

    /// Every step names a node of the graph and the geometry it draws; the
    /// first step alone has no parent step, and every other step links back to
    /// an earlier step of its node's parent.
    pub open spec fn linked(&self, visits: Seq<Visit>) -> bool {
        forall|k: int| #![trigger visits[k]] 0 <= k < visits.len() ==> {
            &&& self.valid_id(visits[k].node as int)
            &&& visits[k].draw == draw_of(self.drawable_of(visits[k].node as int))
            &&& (visits[k].parent_visit is None <==> k == 0)
            &&& visits[k].parent_visit matches Some(j) ==> {
                &&& j < k
                &&& self.parent_of(visits[k].node as int) == Some(visits[j as int].node)
            }
        }
    }

    fn plan_into(&self, x: usize, pv: Option<usize>, out: &mut Vec<Visit>)
        requires
            self.wf(),
            self.valid_id(x as int),
            self.linked(old(out)@),
            pv is None <==> old(out)@.len() == 0,
            pv matches Some(j) ==> j < old(out)@.len() && self.parent_of(x as int) == Some(
                old(out)@[j as int].node,
            ),
        ensures
            final(out)@ == old(out)@ + self.plan_node(x, pv, old(out)@.len()),
            self.linked(final(out)@),
        decreases self.rank_bound() - self.rank_of(x as int),
    {
        let xpos = out.len();
        let d = self.nodes[x].drawable;
        let draw = match d {
            Some(g) => if g.index_count > 0 {
                Some(g)
            } else {
                None
            },
            None => None,
        };
        out.push(Visit { node: x, parent_visit: pv, draw });
        let n = self.nodes[x].children.len();
        let mut i: usize = 0;
        while i < n
            invariant
                self.wf(),
                self.valid_id(x as int),
                n == self.children_of(x as int).len(),
                i <= n,
                xpos == old(out)@.len(),
                xpos < out@.len(),
                out@[xpos as int].node == x,
                self.linked(out@),
                out@ + self.plan_children(x, i as int, xpos as nat, out@.len())
                    == old(out)@ + self.plan_node(x, pv, xpos as nat),
            decreases n - i,
        {
            let c = self.nodes[x].children[i];
            proof {
                assert(self.children_of(x as int)[i as int] == c);
                assert(self.parent_of(c as int) == Some(x));
                assert(self.rank_of(x as int) < self.rank_of(c as int));
                assert(self.rank_of(c as int) < self.bound@);
            }
            let ghost before = out@;
            self.plan_into(c, Some(xpos), out);
            proof {
                let a = self.plan_node(c, Some(xpos), before.len());
                assert(out@ == before + a);
                assert(out@[xpos as int] == before[xpos as int]);
                assert(self.plan_children(x, i as int, xpos as nat, before.len())
                    == a + self.plan_children(x, i + 1, xpos as nat, before.len() + a.len()));
                assert(before + (a + self.plan_children(x, i + 1, xpos as nat, out@.len()))
                    =~= out@ + self.plan_children(x, i + 1, xpos as nat, out@.len()));
            }
            i = i + 1;
        }
        proof {
            assert(self.plan_children(x, i as int, xpos as nat, out@.len()) == Seq::<Visit>::empty());
            assert(out@ + Seq::<Visit>::empty() =~= out@);
        }
    }

    /// The steps of a render pass over the tree below `root`, in pre-order:
    /// a node's step, then those of its children in order. A node without
    /// geometry, or with an empty index range, is still visited, so that its
    /// descendants inherit its transform, but draws nothing.
    pub fn render_plan(&self, root: usize) -> (r: Vec<Visit>)
        requires
            self.wf(),
            self.valid_id(root as int),
        ensures
            r@ == self.plan_node(root, None, 0),
            r@.len() > 0,
            r@[0] == (Visit { node: root, parent_visit: None, draw: draw_of(self.drawable_of(root as int)) }),
            self.linked(r@),
            self.children_visited(r@, 0),
    {
        let mut out: Vec<Visit> = Vec::new();
        self.plan_into(root, None, &mut out);
        proof {
            self.lemma_children_are_visited(root);
            assert(out@ == Seq::<Visit>::empty() + self.plan_node(root, None, 0));
            assert(Seq::<Visit>::empty() + self.plan_node(root, None, 0) =~= self.plan_node(root, None, 0));
        }
        out
    }

    /// Every child of a node visited in `s` is visited in `s` too, and its step
    /// links back to its parent's step; `base` is the position of `s[0]`.
    pub open spec fn children_visited(&self, s: Seq<Visit>, base: nat) -> bool {
        forall|k: int, i: int|
            0 <= k < s.len() && 0 <= i < self.children_of(s[k].node as int).len() ==> exists|k2: int|
                0 <= k2 < s.len() && s[k2].node == #[trigger] self.children_of(s[k].node as int)[i]
                    && s[k2].parent_visit == Some((base + k) as usize)
    }

    proof fn lemma_node_children_visited(&self, x: usize, pv: Option<usize>, start: nat)
        requires
            self.wf(),
            self.valid_id(x as int),
        ensures
            self.children_visited(self.plan_node(x, pv, start), start),
        decreases self.rank_bound() - self.rank_of(x as int), self.children_of(x as int).len() + 1,
    {
        let s = self.plan_node(x, pv, start);
        let head = seq![Visit { node: x, parent_visit: pv, draw: draw_of(self.drawable_of(x as int)) }];
        let rest = self.plan_children(x, 0, start, start + 1);
        assert(s == head + rest);
        self.lemma_rest_children_visited(x, 0, start, start + 1);
        assert forall|k: int, i: int|
            0 <= k < s.len() && 0 <= i < self.children_of(s[k].node as int).len() implies exists|k2: int|
                0 <= k2 < s.len() && s[k2].node == #[trigger] self.children_of(s[k].node as int)[i]
                    && s[k2].parent_visit == Some((start + k) as usize) by {
            if k == 0 {
                assert(s[0].node == x);
                let k2 = choose|k2: int|
                    0 <= k2 < rest.len() && rest[k2].node == self.children_of(x as int)[i]
                        && rest[k2].parent_visit == Some(start as usize);
                assert(s[k2 + 1] == rest[k2]);
            } else {
                assert(s[k] == rest[k - 1]);
                let k2 = choose|k2: int|
                    0 <= k2 < rest.len() && rest[k2].node == self.children_of(rest[k - 1].node as int)[i]
                        && rest[k2].parent_visit == Some((start + 1 + (k - 1)) as usize);
                assert(s[k2 + 1] == rest[k2]);
            }
        }
    }

    proof fn lemma_rest_children_visited(&self, x: usize, i0: int, xpos: nat, pos: nat)
        requires
            self.wf(),
            self.valid_id(x as int),
            0 <= i0,
        ensures
            self.children_visited(self.plan_children(x, i0, xpos, pos), pos),
            forall|ii: int|
                i0 <= ii < self.children_of(x as int).len() ==> exists|k2: int|
                    0 <= k2 < self.plan_children(x, i0, xpos, pos).len()
                        && self.plan_children(x, i0, xpos, pos)[k2].node == #[trigger] self.children_of(x as int)[ii]
                        && self.plan_children(x, i0, xpos, pos)[k2].parent_visit == Some(xpos as usize),
        decreases self.rank_bound() - self.rank_of(x as int), self.children_of(x as int).len() - i0,
    {
        if i0 < self.children_of(x as int).len() {
            let c = self.children_of(x as int)[i0];
            assert(self.parent_of(c as int) == Some(x));
            assert(self.rank_of(x as int) < self.rank_of(c as int));
            assert(self.rank_of(c as int) < self.rank_bound());
            let a = self.plan_node(c, Some(xpos as usize), pos);
            let rest = self.plan_children(x, i0 + 1, xpos, pos + a.len());
            let s = self.plan_children(x, i0, xpos, pos);
            assert(s == a + rest);
            self.lemma_node_children_visited(c, Some(xpos as usize), pos);
            self.lemma_rest_children_visited(x, i0 + 1, xpos, pos + a.len());
            assert(a[0].node == c && a[0].parent_visit == Some(xpos as usize));
            assert forall|k: int, i: int|
                0 <= k < s.len() && 0 <= i < self.children_of(s[k].node as int).len() implies exists|k2: int|
                    0 <= k2 < s.len() && s[k2].node == #[trigger] self.children_of(s[k].node as int)[i]
                        && s[k2].parent_visit == Some((pos + k) as usize) by {
                if k < a.len() {
                    assert(s[k] == a[k]);
                    let k2 = choose|k2: int|
                        0 <= k2 < a.len() && a[k2].node == self.children_of(a[k].node as int)[i]
                            && a[k2].parent_visit == Some((pos + k) as usize);
                    assert(s[k2] == a[k2]);
                } else {
                    assert(s[k] == rest[k - a.len()]);
                    let k2 = choose|k2: int|
                        0 <= k2 < rest.len() && rest[k2].node == self.children_of(rest[k - a.len()].node as int)[i]
                            && rest[k2].parent_visit == Some((pos + a.len() + (k - a.len())) as usize);
                    assert(s[k2 + a.len()] == rest[k2]);
                }
            }
            assert forall|ii: int| i0 <= ii < self.children_of(x as int).len() implies exists|k2: int|
                0 <= k2 < s.len() && s[k2].node == #[trigger] self.children_of(x as int)[ii]
                    && s[k2].parent_visit == Some(xpos as usize) by {
                if ii == i0 {
                    assert(s[0] == a[0]);
                } else {
                    let k2 = choose|k2: int|
                        0 <= k2 < rest.len() && rest[k2].node == self.children_of(x as int)[ii]
                            && rest[k2].parent_visit == Some(xpos as usize);
                    assert(s[k2 + a.len()] == rest[k2]);
                }
            }
        }
    }

    /// In a render pass every child of a visited node is visited as well, with
    /// its step linked to its parent's step, whether or not the parent draws:
    /// geometry only decides drawing, never traversal.
    pub proof fn lemma_children_are_visited(&self, root: usize)
        requires
            self.wf(),
            self.valid_id(root as int),
        ensures
            self.children_visited(self.plan_node(root, None, 0), 0),
    {
        self.lemma_node_children_visited(root, None, 0);
    }
}

} // verus!
