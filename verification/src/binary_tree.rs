use crate::error::Error;
use vstd::prelude::*;

/// The level-order traversal iterator.
pub mod iter;

/// The textual renderer of a tree's shape.
pub mod render;

verus! {

/// An owned binary-tree node: one data element and two optional,
/// exclusively owned children.
#[derive(Debug)]
pub struct Node<T> {
    /// The element held by this node.
    pub data: T,
    /// The left subtree, if present.
    pub left: Option<Box<Node<T>>>,
    /// The right subtree, if present.
    pub right: Option<Box<Node<T>>>,
}

/// The number of nodes of an optional subtree.
pub open spec fn opt_size<T>(o: Option<Box<Node<T>>>) -> nat
    decreases o,
{
    match o {
        Option::None => 0,
        Option::Some(n) => n.size(),
    }
}

/// The height contribution of an optional child: one edge down plus the
/// child's own height, or zero where the child is absent.
pub open spec fn opt_height<T>(o: Option<Box<Node<T>>>) -> nat
    decreases o,
{
    match o {
        Option::None => 0,
        Option::Some(n) => 1 + n.height(),
    }
}

/// The number of nodes at depth `d` of an optional subtree.
pub open spec fn opt_count_at<T>(o: Option<Box<Node<T>>>, d: nat) -> nat
    decreases o,
{
    match o {
        Option::None => 0,
        Option::Some(n) => n.count_at(d),
    }
}

/// Whether an optional subtree holds the value `v` at some node.
pub open spec fn opt_contains<T>(o: Option<Box<Node<T>>>, v: T) -> bool
    decreases o,
{
    match o {
        Option::None => false,
        Option::Some(n) => n.contains_value(v),
    }
}

impl<T> Node<T> {
    /// The number of nodes in this tree.
    pub open spec fn size(self) -> nat
        decreases self,
    {
        1 + opt_size(self.left) + opt_size(self.right)
    }

    /// The number of edges on the longest path from this node down to a leaf.
    pub open spec fn height(self) -> nat
        decreases self,
    {
        let lh = opt_height(self.left);
        let rh = opt_height(self.right);
        if lh >= rh {
            lh
        } else {
            rh
        }
    }

    /// Whether some node of this tree holds the value `v`.
    pub open spec fn contains_value(self, v: T) -> bool
        decreases self,
    {
        v == self.data || opt_contains(self.left, v) || opt_contains(self.right, v)
    }

    /// The number of nodes at depth `d` of this tree, the root being at
    /// depth zero.
    pub open spec fn count_at(self, d: nat) -> nat
        decreases self,
    {
        if d == 0 {
            1
        } else {
            opt_count_at(self.left, (d - 1) as nat) + opt_count_at(self.right, (d - 1) as nat)
        }
    }

    /// Whether this tree is the complete binary tree of height `h`: every
    /// node down to depth `h` present, and none below.
    pub open spec fn is_perfect(self, h: nat) -> bool
        decreases self,
    {
        if h == 0 {
            self.left is None && self.right is None
        } else {
            &&& self.left is Some && self.right is Some
            &&& self.left->0.is_perfect((h - 1) as nat)
            &&& self.right->0.is_perfect((h - 1) as nat)
        }
    }

    /// Whether `n` is this tree or one of its subtrees.
    pub open spec fn has_node(self, n: Node<T>) -> bool
        decreases self,
    {
        ||| self == n
        ||| (self.left is Some && self.left->0.has_node(n))
        ||| (self.right is Some && self.right->0.has_node(n))
    }

    /// Whether `other` has a child present exactly where this tree has one,
    /// at every position.
    pub open spec fn same_shape<U>(self, other: Node<U>) -> bool
        decreases self,
    {
        &&& (self.left is Some <==> other.left is Some)
        &&& (self.right is Some <==> other.right is Some)
        &&& (self.left is Some && other.left is Some ==> self.left->0.same_shape(
            *other.left->0,
        ))
        &&& (self.right is Some && other.right is Some ==> self.right->0.same_shape(
            *other.right->0,
        ))
    }

    /// Whether `other` has the same shape as this tree and, at every position,
    /// holds a value related by `r` to this tree's value there.
    pub open spec fn maps_to<U>(self, other: Node<U>, r: spec_fn(T, U) -> bool) -> bool
        decreases self,
    {
        &&& r(self.data, other.data)
        &&& (self.left is Some <==> other.left is Some)
        &&& (self.right is Some <==> other.right is Some)
        &&& (self.left is Some && other.left is Some ==> self.left->0.maps_to(
            *other.left->0,
            r,
        ))
        &&& (self.right is Some && other.right is Some ==> self.right->0.maps_to(
            *other.right->0,
            r,
        ))
    }
}

impl<T> Node<T> {
    /// Create a leaf: a node holding `data` and no children.
    pub fn new(data: T) -> (r: Self)
        ensures
            r.data == data,
            r.left is None,
            r.right is None,
    {
        Self { data, left: Option::None, right: Option::None }
    }

    /// Convert into a boxed node.
    pub fn boxed(self) -> (r: Box<Self>)
        ensures
            *r == self,
    {
        Box::new(self)
    }

    /// Create a builder with every field still absent.
    pub fn builder() -> (b: NodeBuilder<T>)
        ensures
            b.data is None,
            b.left is None,
            b.right is None,
    {
        NodeBuilder::default()
    }

    /// Borrow the left child, if present.
    pub fn left(&self) -> (r: Option<&Node<T>>)
        ensures
            r is Some <==> self.left is Some,
            r is Some ==> *r->0 == *self.left->0,
    {
        match &self.left {
            Option::Some(n) => Option::Some(&**n),
            Option::None => Option::None,
        }
    }

    /// Borrow the right child, if present.
    pub fn right(&self) -> (r: Option<&Node<T>>)
        ensures
            r is Some <==> self.right is Some,
            r is Some ==> *r->0 == *self.right->0,
    {
        match &self.right {
            Option::Some(n) => Option::Some(&**n),
            Option::None => Option::None,
        }
    }

    /// Borrow the data element.
    pub fn data(&self) -> (r: &T)
        ensures
            *r == self.data,
    {
        &self.data
    }

    /// Create a level-order traversal iterator with this node as root.
    pub fn level_order_iter(&self) -> (it: iter::LevelOrderIter<'_, T>)
        requires
            self.height() + 1 < usize::MAX,
        ensures
            it.wf(),
            it.items() == self.level_order(),
    {
        iter::LevelOrderIter::new(self)
    }
}

impl<T> Node<T> {
    /// Consume the tree and produce one of the same shape whose elements are
    /// the results of `f`, applied once per node: the node itself first, then
    /// the left subtree, then the right subtree.
    pub fn pre_order_map<U, F: Fn(T) -> U>(self, f: F) -> (r: Node<U>)
        requires
            forall|t: T| self.contains_value(t) ==> #[trigger] call_requires(f, (t,)),
        ensures
            self.maps_to(r, |t: T, u: U| call_ensures(f, (t,), u)),
    {
        self.pre_order_map_inner(&f)
    }

    fn pre_order_map_inner<U, F: Fn(T) -> U>(self, f: &F) -> (r: Node<U>)
        requires
            forall|t: T| self.contains_value(t) ==> #[trigger] call_requires(*f, (t,)),
        ensures
            self.maps_to(r, |t: T, u: U| call_ensures(*f, (t,), u)),
        decreases self,
    {
        let ghost orig = self;
        let Node { data, left, right } = self;
        assert(orig.contains_value(data));
        let new_data = f(data);
        let new_left = match left {
            Option::Some(n) => {
                proof {
                    assert forall|t: T| n.contains_value(t) implies #[trigger] call_requires(
                        *f,
                        (t,),
                    ) by {
                        assert(orig.contains_value(t));
                    }
                }
                Option::Some((*n).pre_order_map_inner(f).boxed())
            },
            Option::None => Option::None,
        };
        let new_right = match right {
            Option::Some(n) => {
                proof {
                    assert forall|t: T| n.contains_value(t) implies #[trigger] call_requires(
                        *f,
                        (t,),
                    ) by {
                        assert(orig.contains_value(t));
                    }
                }
                Option::Some((*n).pre_order_map_inner(f).boxed())
            },
            Option::None => Option::None,
        };
        Node { data: new_data, left: new_left, right: new_right }
    }

    /// Consume the tree and produce one of the same shape whose elements are
    /// the results of `f`, applied once per node: the left subtree first,
    /// then the node itself, then the right subtree.
    pub fn mid_order_map<U, F: Fn(T) -> U>(self, f: F) -> (r: Node<U>)
        requires
            forall|t: T| self.contains_value(t) ==> #[trigger] call_requires(f, (t,)),
        ensures
            self.maps_to(r, |t: T, u: U| call_ensures(f, (t,), u)),
    {
        self.mid_order_map_inner(&f)
    }

    fn mid_order_map_inner<U, F: Fn(T) -> U>(self, f: &F) -> (r: Node<U>)
        requires
            forall|t: T| self.contains_value(t) ==> #[trigger] call_requires(*f, (t,)),
        ensures
            self.maps_to(r, |t: T, u: U| call_ensures(*f, (t,), u)),
        decreases self,
    {
        let ghost orig = self;
        let Node { data, left, right } = self;
        let new_left = match left {
            Option::Some(n) => {
                proof {
                    assert forall|t: T| n.contains_value(t) implies #[trigger] call_requires(
                        *f,
                        (t,),
                    ) by {
                        assert(orig.contains_value(t));
                    }
                }
                Option::Some((*n).mid_order_map_inner(f).boxed())
            },
            Option::None => Option::None,
        };
        assert(orig.contains_value(data));
        let new_data = f(data);
        let new_right = match right {
            Option::Some(n) => {
                proof {
                    assert forall|t: T| n.contains_value(t) implies #[trigger] call_requires(
                        *f,
                        (t,),
                    ) by {
                        assert(orig.contains_value(t));
                    }
                }
                Option::Some((*n).mid_order_map_inner(f).boxed())
            },
            Option::None => Option::None,
        };
        Node { data: new_data, left: new_left, right: new_right }
    }

    /// Consume the tree and produce one of the same shape whose elements are
    /// the results of `f`, applied once per node: the left subtree first,
    /// then the right subtree, then the node itself.
    pub fn post_order_map<U, F: Fn(T) -> U>(self, f: F) -> (r: Node<U>)
        requires
            forall|t: T| self.contains_value(t) ==> #[trigger] call_requires(f, (t,)),
        ensures
            self.maps_to(r, |t: T, u: U| call_ensures(f, (t,), u)),
    {
        self.post_order_map_inner(&f)
    }

    fn post_order_map_inner<U, F: Fn(T) -> U>(self, f: &F) -> (r: Node<U>)
        requires
            forall|t: T| self.contains_value(t) ==> #[trigger] call_requires(*f, (t,)),
        ensures
            self.maps_to(r, |t: T, u: U| call_ensures(*f, (t,), u)),
        decreases self,
    {
        let ghost orig = self;
        let Node { data, left, right } = self;
        let new_left = match left {
            Option::Some(n) => {
                proof {
                    assert forall|t: T| n.contains_value(t) implies #[trigger] call_requires(
                        *f,
                        (t,),
                    ) by {
                        assert(orig.contains_value(t));
                    }
                }
                Option::Some((*n).post_order_map_inner(f).boxed())
            },
            Option::None => Option::None,
        };
        let new_right = match right {
            Option::Some(n) => {
                proof {
                    assert forall|t: T| n.contains_value(t) implies #[trigger] call_requires(
                        *f,
                        (t,),
                    ) by {
                        assert(orig.contains_value(t));
                    }
                }
                Option::Some((*n).post_order_map_inner(f).boxed())
            },
            Option::None => Option::None,
        };
        assert(orig.contains_value(data));
        let new_data = f(data);
        Node { data: new_data, left: new_left, right: new_right }
    }
}

/// An incremental constructor for a node: collects an optional data element
/// and optional children, and finalizes through `build`.
#[derive(Debug)]
pub struct NodeBuilder<T> {
    /// The collected data element, if one was supplied.
    pub data: Option<T>,
    /// The collected left child, if one was supplied.
    pub left: Option<Box<Node<T>>>,
    /// The collected right child, if one was supplied.
    pub right: Option<Box<Node<T>>>,
}

impl<T> Default for NodeBuilder<T> {
    /// A builder with every field still absent.
    fn default() -> (b: Self)
        ensures
            b.data is None,
            b.left is None,
            b.right is None,
    {
        Self { data: Option::None, left: Option::None, right: Option::None }
    }
}

impl<T> NodeBuilder<T> {
    /// Finalize the builder. Succeeds exactly when a data element was
    /// supplied; the node then carries the three collected fields. Fails
    /// with `MissingDataField` exactly when no data element was supplied.
    pub fn build(self) -> (r: Result<Node<T>, Error>)
        ensures
            r is Ok <==> self.data is Some,
            r is Ok ==> r->Ok_0.data == self.data->0 && r->Ok_0.left == self.left
                && r->Ok_0.right == self.right,
            r is Err ==> r->Err_0 == Error::MissingDataField,
    {
        if let Option::Some(data) = self.data {
            Result::Ok(Node { data, left: self.left, right: self.right })
        } else {
            Result::Err(Error::MissingDataField)
        }
    }

    /// Set the data element, overwriting any element set before.
    pub fn data(self, data: T) -> (r: Self)
        ensures
            r.data == Option::Some(data),
            r.left == self.left,
            r.right == self.right,
    {
        Self { data: Option::Some(data), ..self }
    }

    /// Set the left child, overwriting any child set before.
    pub fn left(self, node: Node<T>) -> (r: Self)
        ensures
            r.left is Some && *r.left->0 == node,
            r.data == self.data,
            r.right == self.right,
    {
        Self { left: Option::Some(node.boxed()), ..self }
    }

    /// Set the right child, overwriting any child set before.
    pub fn right(self, node: Node<T>) -> (r: Self)
        ensures
            r.right is Some && *r.right->0 == node,
            r.data == self.data,
            r.left == self.left,
    {
        Self { right: Option::Some(node.boxed()), ..self }
    }
}

/// The complete binary tree of height `h` has height `h`.
pub proof fn lemma_perfect_height<T>(t: Node<T>, h: nat)
    requires
        t.is_perfect(h),
    ensures
        t.height() == h,
    decreases t,
{
    if h > 0 {
        lemma_perfect_height(*t.left->0, (h - 1) as nat);
        lemma_perfect_height(*t.right->0, (h - 1) as nat);
    }
}

/// A tree that was produced by a mapping traversal has the input tree's
/// shape.
pub proof fn lemma_maps_to_same_shape<T, U>(a: Node<T>, b: Node<U>, r: spec_fn(T, U) -> bool)
    requires
        a.maps_to(b, r),
    ensures
        a.same_shape(b),
    decreases a,
{
    if a.left is Some {
        lemma_maps_to_same_shape(*a.left->0, *b.left->0, r);
    }
    if a.right is Some {
        lemma_maps_to_same_shape(*a.right->0, *b.right->0, r);
    }
}

/// Mapping a tree with a transform that can only hand its argument back
/// unchanged yields a tree with the same shape and the same value at every
/// position: it is the input tree.
pub proof fn lemma_map_identity<T>(a: Node<T>, b: Node<T>, r: spec_fn(T, T) -> bool)
    requires
        a.maps_to(b, r),
        forall|t: T, u: T| #[trigger] r(t, u) ==> u == t,
    ensures
        a.maps_to(b, |t: T, u: T| u == t),
        a == b,
    decreases a,
{
    if a.left is Some {
        lemma_map_identity(*a.left->0, *b.left->0, r);
    }
    if a.right is Some {
        lemma_map_identity(*a.right->0, *b.right->0, r);
    }
}

/// Mapping a tree twice, first by a transform whose behaviour is `r1` and
/// then by one whose behaviour is `r2`, relates the final tree to the input
/// tree by the composition of the two behaviours at every position. The
/// statement holds whatever visiting order either traversal used, so it holds
/// for each of the three orders independently.
pub proof fn lemma_map_compose<A, B, C>(
    a: Node<A>,
    b: Node<B>,
    c: Node<C>,
    r1: spec_fn(A, B) -> bool,
    r2: spec_fn(B, C) -> bool,
)
    requires
        a.maps_to(b, r1),
        b.maps_to(c, r2),
    ensures
        a.maps_to(c, |x: A, z: C| exists|y: B| r1(x, y) && #[trigger] r2(y, z)),
    decreases a,
{
    if a.left is Some {
        lemma_map_compose(*a.left->0, *b.left->0, *c.left->0, r1, r2);
    }
    if a.right is Some {
        lemma_map_compose(*a.right->0, *b.right->0, *c.right->0, r1, r2);
    }
    assert((|x: A, z: C| exists|y: B| r1(x, y) && #[trigger] r2(y, z))(a.data, c.data)) by {
        assert(r1(a.data, b.data) && r2(b.data, c.data));
    }
}

} // verus!
