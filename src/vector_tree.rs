//! An unbalanced binary search tree filled from a slice of values.
use vstd::prelude::*;
use vstd::multiset::Multiset;

verus! {

broadcast use vstd::multiset::group_multiset_axioms, vstd::seq_lib::group_to_multiset_ensures;

struct TreeNode {
    data: i64,
    left: Option<Box<TreeNode>>,
    right: Option<Box<TreeNode>>,
}

/// A binary search tree: smaller values go left, the others right.
pub struct VectorTree {
    root: Option<Box<TreeNode>>,
}

spec fn elems_of(n: Option<Box<TreeNode>>) -> Multiset<i64>
    decreases n,
{
    match n {
        None => Multiset::empty(),
        Some(b) => b.elems(),
    }
}

spec fn ordered_opt(n: Option<Box<TreeNode>>) -> bool
    decreases n,
{
    match n {
        None => true,
        Some(b) => b.ordered(),
    }
}

proof fn lemma_leaf(n: TreeNode)
    requires
        n.left is None,
        n.right is None,
    ensures
        n.ordered(),
        n.elems() =~= Multiset::empty().insert(n.data),
        elems_of(Some(Box::new(n))) =~= Multiset::empty().insert(n.data),
        ordered_opt(Some(Box::new(n))),
{
    assert(elems_of(n.left) =~= Multiset::empty());
    assert(elems_of(n.right) =~= Multiset::empty());
}

impl TreeNode {
    spec fn elems(self) -> Multiset<i64>
        decreases self,
    {
        elems_of(self.left).add(elems_of(self.right)).insert(self.data)
    }

    spec fn ordered(self) -> bool
        decreases self,
    {
        &&& forall|v: i64| elems_of(self.left).contains(v) ==> v < self.data
        &&& forall|v: i64| elems_of(self.right).contains(v) ==> v >= self.data
        &&& ordered_opt(self.left)
        &&& ordered_opt(self.right)
    }
}

impl VectorTree {
    /// The values in the tree, each as often as it was inserted.
    pub closed spec fn view(&self) -> Multiset<i64> {
        elems_of(self.root)
    }

    /// Every node's left subtree holds smaller values, its right subtree the others.
    pub closed spec fn wf(&self) -> bool {
        ordered_opt(self.root)
    }

    /// A tree holding every value of `elements`.
    pub fn from_vector(elements: &[i64]) -> (tree: VectorTree)
        ensures
            tree.wf(),
            tree.view() == elements@.to_multiset(),
    {
        let mut tree = VectorTree { root: None };
        let mut i: usize = 0;
        while i < elements.len()
            invariant
                i <= elements@.len(),
                tree.wf(),
                tree.view() == elements@.take(i as int).to_multiset(),
            decreases elements@.len() - i,
        {
            let ghost before = tree.view();
            tree.insert(elements[i]);
            proof {
                assert(elements@.take(i + 1) =~= elements@.take(i as int).push(elements@[i as int]));
                vstd::seq_lib::to_multiset_build(elements@.take(i as int), elements@[i as int]);
                assert(tree.view() == before.insert(elements@[i as int]));
            }
            i = i + 1;
        }
        proof {
            assert(elements@.take(elements@.len() as int) =~= elements@);
        }
        tree
    }

    /// Adds one occurrence of `value`.
    pub fn insert(&mut self, value: i64)
        requires
            old(self).wf(),
        ensures
            final(self).wf(),
            final(self).view() == old(self).view().insert(value),
    {
        match self.root.take() {
            None => {
                let leaf = TreeNode { data: value, left: None, right: None };
                proof {
                    lemma_leaf(leaf);
                }
                self.root = Some(Box::new(leaf));
            },
            Some(mut root) => {
                VectorTree::insert_recursive(&mut root, value);
                self.root = Some(root);
            },
        }
    }

    /// Adds `value` below `node`, in the left subtree when it is smaller.
    fn insert_recursive(node: &mut Box<TreeNode>, value: i64)
        requires
            old(node).ordered(),
        ensures
            final(node).ordered(),
            final(node).elems() == old(node).elems().insert(value),
        decreases *old(node),
    {
        let ghost l0 = elems_of(node.left);
        let ghost r0 = elems_of(node.right);
        if value < node.data {
            match node.left.take() {
                None => {
                    let leaf = TreeNode { data: value, left: None, right: None };
                    proof {
                        lemma_leaf(leaf);
                    }
                    node.left = Some(Box::new(leaf));
                },
                Some(mut l) => {
                    VectorTree::insert_recursive(&mut l, value);
                    node.left = Some(l);
                },
            }
            proof {
                assert(elems_of(node.left) =~= l0.insert(value));
                assert(node.elems() =~= l0.add(r0).insert(node.data).insert(value));
                assert forall|v: i64| elems_of(node.left).contains(v) implies v < node.data by {
                    if v != value {
                        assert(l0.contains(v));
                    }
                }
            }
        } else {
            match node.right.take() {
                None => {
                    let leaf = TreeNode { data: value, left: None, right: None };
                    proof {
                        lemma_leaf(leaf);
                    }
                    node.right = Some(Box::new(leaf));
                },
                Some(mut r) => {
                    VectorTree::insert_recursive(&mut r, value);
                    node.right = Some(r);
                },
            }
            proof {
                assert(elems_of(node.right) =~= r0.insert(value));
                assert(node.elems() =~= l0.add(r0).insert(node.data).insert(value));
                assert forall|v: i64| elems_of(node.right).contains(v) implies v >= node.data by {
                    if v != value {
                        assert(r0.contains(v));
                    }
                }
            }
        }
    }
}

spec fn in_order_of(n: Option<Box<TreeNode>>) -> Seq<i64>
    decreases n,
{
    match n {
        None => Seq::empty(),
        Some(b) => in_order_of(b.left) + seq![b.data] + in_order_of(b.right),
    }
}

/// The values in ascending order.
pub open spec fn ascending(s: Seq<i64>) -> bool {
    forall|i: int, j: int| 0 <= i < j < s.len() ==> s[i] <= s[j]
}

proof fn lemma_in_order(n: Option<Box<TreeNode>>)
    requires
        ordered_opt(n),
    ensures
        ascending(in_order_of(n)),
        in_order_of(n).to_multiset() == elems_of(n),
    decreases n,
{
    match n {
        None => {
            assert(in_order_of(n).to_multiset() =~= Multiset::empty());
        },
        Some(b) => {
            lemma_in_order(b.left);
            lemma_in_order(b.right);
            let a = in_order_of(b.left);
            let c = in_order_of(b.right);
            let s = a + seq![b.data] + c;
            vstd::seq_lib::lemma_multiset_commutative(a + seq![b.data], c);
            vstd::seq_lib::lemma_multiset_commutative(a, seq![b.data]);
            assert(seq![b.data].to_multiset() =~= Multiset::empty().insert(b.data)) by {
                vstd::seq_lib::to_multiset_build(Seq::<i64>::empty(), b.data);
                assert(Seq::<i64>::empty().push(b.data) =~= seq![b.data]);
                assert(Seq::<i64>::empty().to_multiset() =~= Multiset::empty());
            }
            assert(s.to_multiset() =~= elems_of(b.left).add(elems_of(b.right)).insert(b.data));
            assert forall|i: int| 0 <= i < a.len() implies #[trigger] a[i] < b.data by {
                assert(a.contains(a[i]));
                assert(elems_of(b.left).contains(a[i]));
            }
            assert forall|i: int| 0 <= i < c.len() implies #[trigger] c[i] >= b.data by {
                assert(c.contains(c[i]));
                assert(elems_of(b.right).contains(c[i]));
            }
            assert forall|i: int, j: int| 0 <= i < j < s.len() implies s[i] <= s[j] by {
                if j < a.len() {
                } else if i < a.len() {
                    if j > a.len() {
                        assert(s[j] == c[j - a.len() - 1]);
                    }
                } else if i == a.len() {
                    assert(s[j] == c[j - a.len() - 1]);
                } else {
                    assert(s[i] == c[i - a.len() - 1]);
                    assert(s[j] == c[j - a.len() - 1]);
                }
            }
        },
    }
}

impl VectorTree {
    /// The values of the tree in in-order (left subtree, node, right subtree).
    pub closed spec fn in_order(&self) -> Seq<i64> {
        in_order_of(self.root)
    }

    /// A well-formed tree lists its values in ascending order, each as often
    /// as it was inserted.
    pub proof fn lemma_in_order_ascending(&self)
        requires
            self.wf(),
        ensures
            ascending(self.in_order()),
            self.in_order().to_multiset() == self.view(),
    {
        lemma_in_order(self.root);
    }
}

} // verus!
