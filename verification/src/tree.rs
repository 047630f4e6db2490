//! An ordered binary tree over `i64` values.
//!
//! `append` descends from the root, going left on strictly smaller values and
//! right otherwise (ties go right), and places a new leaf in the first absent
//! child slot. `reverse` mirrors the tree in place: at every node the two
//! child links are swapped. The in-order traversal of a well-formed tree is
//! sorted; mirroring reverses it.

use vstd::prelude::*;

verus! {

/// A tree node: a value and two optional owned children.
#[verifier::ext_equal]
pub struct Node {
    pub value: i64,
    pub left: Option<Box<Node>>,
    pub right: Option<Box<Node>>,
}

/// An ordered binary tree: an optional owned root node.
pub struct BinaryTree {
    pub root: Option<Box<Node>>,
}

/// The in-order traversal of the subtree hanging off a child link.
pub open spec fn inorder_of(link: Option<Box<Node>>) -> Seq<i64>
    decreases link,
{
    match link {
        None => Seq::empty(),
        Some(n) => inorder_of(n.left) + seq![n.value] + inorder_of(n.right),
    }
}

/// The search-tree ordering invariant: below every node, the left subtree
/// holds strictly smaller values and the right subtree holds greater-or-equal
/// values (duplicates accumulate to the right).
pub open spec fn wf_link(link: Option<Box<Node>>) -> bool
    decreases link,
{
    match link {
        None => true,
        Some(n) => {
            &&& wf_link(n.left)
            &&& wf_link(n.right)
            &&& forall|i: int|
                0 <= i < inorder_of(n.left).len() ==> #[trigger] inorder_of(n.left)[i] < n.value
            &&& forall|i: int|
                0 <= i < inorder_of(n.right).len() ==> #[trigger] inorder_of(n.right)[i]
                    >= n.value
        },
    }
}

/// `s` is in non-decreasing order.
pub open spec fn sorted(s: Seq<i64>) -> bool {
    forall|i: int, j: int| 0 <= i <= j < s.len() ==> s[i] <= s[j]
}

/// `post` is `pre` with a new leaf holding `value` placed by descending left
/// on strictly smaller values and right otherwise; everything off the descent
/// path is untouched. The relation determines `post` from `pre` and `value`.
pub open spec fn is_insert(pre: Option<Box<Node>>, value: i64, post: Option<Box<Node>>) -> bool
    decreases pre,
{
    match pre {
        None => match post {
            Some(m) => m.value == value && m.left is None && m.right is None,
            None => false,
        },
        Some(n) => match post {
            Some(m) => {
                &&& m.value == n.value
                &&& if value < n.value {
                    &&& m.right == n.right
                    &&& is_insert(n.left, value, m.left)
                } else {
                    &&& m.left == n.left
                    &&& is_insert(n.right, value, m.right)
                }
            },
            None => false,
        },
    }
}

/// `b` is the left-right mirror image of `a`: same values, every left subtree
/// exchanged with its sibling right subtree, at every depth.
pub open spec fn is_mirror(a: Option<Box<Node>>, b: Option<Box<Node>>) -> bool
    decreases a,
{
    match (a, b) {
        (None, None) => true,
        (Some(x), Some(y)) => {
            &&& y.value == x.value
            &&& is_mirror(x.left, y.right)
            &&& is_mirror(x.right, y.left)
        },
        _ => false,
    }
}

/// The index of the first element of `s` greater than `v`, or `s.len()` when
/// there is none. On a sorted sequence this is where an insertion of `v`
/// lands when ties go right: after every element less than or equal to `v`.
pub open spec fn insert_pos(s: Seq<i64>, v: i64) -> int
    decreases s.len(),
{
    if s.len() == 0 {
        0
    } else if s[0] > v {
        0
    } else {
        1 + insert_pos(s.drop_first(), v)
    }
}

/// `insert_pos` lies within bounds, points at an element greater than `v`
/// when it is not the length, and everything before it is at most `v`.
pub proof fn lemma_insert_pos_props(s: Seq<i64>, v: i64)
    ensures
        0 <= insert_pos(s, v) <= s.len(),
        insert_pos(s, v) < s.len() ==> s[insert_pos(s, v)] > v,
        forall|j: int| 0 <= j < insert_pos(s, v) ==> s[j] <= v,
    decreases s.len(),
{
    if s.len() > 0 && s[0] <= v {
        lemma_insert_pos_props(s.drop_first(), v);
        let p = insert_pos(s, v);
        assert(forall|j: int| 1 <= j < p ==> s[j] == s.drop_first()[j - 1]);
    }
}

/// How `insert_pos` splits over concatenation: the position lies in `a` when
/// `a` holds an element greater than `v`, and past `a` otherwise.
pub proof fn lemma_insert_pos_append(a: Seq<i64>, b: Seq<i64>, v: i64)
    ensures
        insert_pos(a + b, v) == if insert_pos(a, v) < a.len() {
            insert_pos(a, v)
        } else {
            a.len() + insert_pos(b, v)
        },
    decreases a.len(),
{
    if a.len() == 0 {
        assert(a + b =~= b);
    } else {
        assert((a + b)[0] == a[0]);
        if a[0] > v {
        } else {
            assert((a + b).drop_first() =~= a.drop_first() + b);
            lemma_insert_pos_append(a.drop_first(), b, v);
        }
    }
}

/// The in-order traversal of a well-formed tree is in non-decreasing order.
pub proof fn lemma_wf_inorder_sorted(link: Option<Box<Node>>)
    requires
        wf_link(link),
    ensures
        sorted(inorder_of(link)),
    decreases link,
{
    match link {
        None => {},
        Some(n) => {
            lemma_wf_inorder_sorted(n.left);
            lemma_wf_inorder_sorted(n.right);
            let l = inorder_of(n.left);
            let r = inorder_of(n.right);
            let s = inorder_of(link);
            assert forall|i: int, j: int| 0 <= i <= j < s.len() implies s[i] <= s[j] by {
                if i < l.len() {
                    assert(s[i] == l[i]);
                    assert(l[i] < n.value);
                } else if i == l.len() {
                    assert(s[i] == n.value);
                } else {
                    assert(s[i] == r[i - l.len() - 1]);
                }
                if j < l.len() {
                    assert(s[j] == l[j]);
                    assert(l[j] < n.value);
                } else if j == l.len() {
                    assert(s[j] == n.value);
                } else {
                    assert(s[j] == r[j - l.len() - 1]);
                    assert(r[j - l.len() - 1] >= n.value);
                }
            }
        },
    }
}

/// Inserting `value` into a well-formed tree keeps it well-formed, and puts
/// `value` into the in-order traversal right after every element less than or
/// equal to it: a later-inserted duplicate lands after the earlier ones.
pub proof fn lemma_insert_wf_inorder(pre: Option<Box<Node>>, value: i64, post: Option<
    Box<Node>,
>)
    requires
        wf_link(pre),
        is_insert(pre, value, post),
    ensures
        wf_link(post),
        inorder_of(post) == inorder_of(pre).insert(insert_pos(inorder_of(pre), value), value),
    decreases pre,
{
    match pre {
        None => {
            assert(inorder_of(post) =~= seq![value]);
            assert(inorder_of(pre).insert(0, value) =~= seq![value]);
        },
        Some(n) => {
            let m = post.unwrap();
            let l = inorder_of(n.left);
            let r = inorder_of(n.right);
            let c = n.value;
            let s = inorder_of(pre);
            let p = insert_pos(s, value);
            assert((l + seq![c]) + r =~= l + (seq![c] + r));
            lemma_insert_pos_props(l, value);
            lemma_insert_pos_props(r, value);
            lemma_insert_pos_props(s, value);
            lemma_insert_pos_append(l, seq![c] + r, value);
            assert((seq![c] + r)[0] == c);
            s.insert_ensures(p, value);
            if value < c {
                lemma_insert_wf_inorder(n.left, value, m.left);
                let pl = insert_pos(l, value);
                assert(p == pl);
                l.insert_ensures(pl, value);
                assert(inorder_of(m.right) == r);
                assert forall|i: int|
                    0 <= i < inorder_of(m.left).len() implies #[trigger] inorder_of(m.left)[i]
                    < m.value by {
                    assert(inorder_of(m.left)[i] == l.insert(pl, value)[i]);
                    if i < pl {
                        assert(l.insert(pl, value)[i] == l[i]);
                    } else if i == pl {
                        assert(l.insert(pl, value)[i] == value);
                    } else {
                        assert(l.insert(pl, value)[(i - 1) + 1] == l[i - 1]);
                    }
                }
                assert(inorder_of(post) =~= s.insert(p, value)) by {
                    assert forall|i: int| 0 <= i < s.len() + 1 implies (inorder_of(m.left) + seq![c]
                        + r)[i] == s.insert(p, value)[i] by {
                        if i < pl {
                            assert(l.insert(pl, value)[i] == l[i]);
                            assert(s[i] == l[i]);
                        } else if i == pl {
                            assert(l.insert(pl, value)[i] == value);
                        } else if i <= l.len() {
                            assert(l.insert(pl, value)[(i - 1) + 1] == l[i - 1]);
                            assert(s[i - 1] == l[i - 1]);
                            assert(s.insert(p, value)[(i - 1) + 1] == s[i - 1]);
                        } else {
                            assert(s.insert(p, value)[(i - 1) + 1] == s[i - 1]);
                        }
                    }
                    assert(inorder_of(post) == inorder_of(m.left) + seq![c] + r);
                }
            } else {
                lemma_insert_wf_inorder(n.right, value, m.right);
                let pr = insert_pos(r, value);
                assert(insert_pos(l, value) == l.len()) by {
                    if insert_pos(l, value) < l.len() {
                        assert(l[insert_pos(l, value)] > value);
                        assert(l[insert_pos(l, value)] < c);
                    }
                }
                assert((seq![c] + r).drop_first() =~= r);
                assert(p == l.len() + 1 + pr);
                r.insert_ensures(pr, value);
                assert(inorder_of(m.left) == l);
                assert forall|i: int|
                    0 <= i < inorder_of(m.right).len() implies #[trigger] inorder_of(m.right)[i]
                    >= m.value by {
                    assert(inorder_of(m.right)[i] == r.insert(pr, value)[i]);
                    if i < pr {
                        assert(r.insert(pr, value)[i] == r[i]);
                    } else if i == pr {
                        assert(r.insert(pr, value)[i] == value);
                    } else {
                        assert(r.insert(pr, value)[(i - 1) + 1] == r[i - 1]);
                    }
                }
                assert(inorder_of(post) =~= s.insert(p, value)) by {
                    assert forall|i: int| 0 <= i < s.len() + 1 implies (l + seq![c] + inorder_of(
                        m.right,
                    ))[i] == s.insert(p, value)[i] by {
                        if i <= l.len() {
                            assert(s.insert(p, value)[i] == s[i]);
                            assert(s[i] == (l + seq![c] + r)[i]);
                        } else if i < p {
                            assert(r.insert(pr, value)[i - l.len() - 1] == r[i - l.len() - 1]);
                            assert(s.insert(p, value)[i] == s[i]);
                            assert(s[i] == r[i - l.len() - 1]);
                        } else if i == p {
                            assert(r.insert(pr, value)[pr] == value);
                            assert(s.insert(p, value)[p] == value);
                        } else {
                            assert(r.insert(pr, value)[((i - l.len() - 1) - 1) + 1] == r[(i - l.len()
                                - 1) - 1]);
                            assert(s.insert(p, value)[(i - 1) + 1] == s[i - 1]);
                            assert(s[i - 1] == r[(i - 1) - l.len() - 1]);
                        }
                    }
                    assert(inorder_of(post) == l + seq![c] + inorder_of(m.right));
                }
            }
        },
    }
}

/// Reversal distributes over concatenation, swapping the halves.
pub proof fn lemma_reverse_concat(s: Seq<i64>, t: Seq<i64>)
    ensures
        (s + t).reverse() == t.reverse() + s.reverse(),
{
    assert((s + t).reverse() =~= t.reverse() + s.reverse());
}

/// Mirroring a tree reverses its in-order traversal.
pub proof fn lemma_mirror_inorder(a: Option<Box<Node>>, b: Option<Box<Node>>)
    requires
        is_mirror(a, b),
    ensures
        inorder_of(b) == inorder_of(a).reverse(),
    decreases a,
{
    match a {
        None => {
            assert(inorder_of(b) =~= inorder_of(a).reverse());
        },
        Some(x) => {
            let y = b.unwrap();
            lemma_mirror_inorder(x.left, y.right);
            lemma_mirror_inorder(x.right, y.left);
            let l = inorder_of(x.left);
            let r = inorder_of(x.right);
            let v = x.value;
            lemma_reverse_concat(l + seq![v], r);
            lemma_reverse_concat(l, seq![v]);
            assert(seq![v].reverse() =~= seq![v]);
            assert(inorder_of(b) =~= inorder_of(a).reverse());
        },
    }
}

/// Mirroring is an involution: mirroring a mirror image gives back the
/// original tree, node for node, so its in-order traversal in particular is
/// the original one.
pub proof fn lemma_mirror_involution(a: Option<Box<Node>>, b: Option<Box<Node>>, c: Option<
    Box<Node>,
>)
    requires
        is_mirror(a, b),
        is_mirror(b, c),
    ensures
        c == a,
    decreases a,
{
    match a {
        None => {},
        Some(x) => {
            let y = b.unwrap();
            let z = c.unwrap();
            lemma_mirror_involution(x.left, y.right, z.left);
            lemma_mirror_involution(x.right, y.left, z.right);
            assert(z =~= x);
        },
    }
}

/// Mirroring an empty tree is a no-op: the mirror image of no root is no
/// root.
pub proof fn lemma_mirror_empty(b: Option<Box<Node>>)
    requires
        is_mirror(None, b),
    ensures
        b is None,
{
}

impl View for BinaryTree {
    type V = Seq<i64>;

    open spec fn view(&self) -> Seq<i64> {
        inorder_of(self.root)
    }
}

impl BinaryTree {
    /// The tree's validity: every node obeys the ordering invariant.
    pub open spec fn wf(self) -> bool {
        wf_link(self.root)
    }

    /// Returns an empty tree.
    pub fn new() -> (t: BinaryTree)
        ensures
            t.wf(),
            t.root is None,
            t@ == Seq::<i64>::empty(),
    {
        BinaryTree { root: None }
    }

    /// Descends from the link, going left on strictly smaller values and
    /// right otherwise, and places a new leaf holding `value` in the first
    /// absent child slot.
    fn insert_link(link: &mut Option<Box<Node>>, value: i64)
        ensures
            is_insert(*old(link), value, *final(link)),
        decreases *old(link),
    {
        match link.take() {
            None => {
                *link = Some(Node::new_box(value));
            },
            Some(mut n) => {
                if value < n.value {
                    Self::insert_link(&mut n.left, value);
                } else {
                    Self::insert_link(&mut n.right, value);
                }
                *link = Some(n);
            },
        }
    }

    /// Places `value` in the tree: it becomes the root of an empty tree;
    /// otherwise the descent goes left where `value` is strictly smaller and
    /// right otherwise, so a duplicate lands in the right subtree of its
    /// equal. In the in-order traversal the new value appears after every
    /// element less than or equal to it.
    pub fn append(&mut self, value: i64)
        requires
            old(self).wf(),
        ensures
            final(self).wf(),
            is_insert(old(self).root, value, final(self).root),
            final(self)@ == old(self)@.insert(insert_pos(old(self)@, value), value),
    {
        Self::insert_link(&mut self.root, value);
        proof {
            lemma_insert_wf_inorder(old(self).root, value, self.root);
        }
    }

    /// Mirrors the whole tree in place; an empty tree is left untouched. The
    /// in-order traversal afterwards is the reverse of what it was.
    pub fn reverse(&mut self)
        ensures
            is_mirror(old(self).root, final(self).root),
            final(self)@ == old(self)@.reverse(),
            old(self).root is None ==> final(self).root is None,
    {
        Self::reverse_internal(&mut self.root);
        proof {
            lemma_mirror_inorder(old(self).root, self.root);
        }
    }

    /// Mirrors the subtree below a link: swaps the two child links of its
    /// node, then recurses into the already-swapped children.
    pub fn reverse_internal(root_link: &mut Option<Box<Node>>)
        ensures
            is_mirror(*old(root_link), *final(root_link)),
        decreases *old(root_link),
    {
        match root_link.take() {
            None => {},
            Some(mut n) => {
                core::mem::swap(&mut n.left, &mut n.right);
                Self::reverse_internal(&mut n.left);
                Self::reverse_internal(&mut n.right);
                *root_link = Some(n);
            },
        }
    }
}

impl Node {
    /// Returns a boxed leaf node holding `value`.
    pub fn new_box(value: i64) -> (r: Box<Node>)
        ensures
            r.value == value,
            r.left is None,
            r.right is None,
    {
        Box::new(Node { value, left: None, right: None })
    }
}

} // verus!
