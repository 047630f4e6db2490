//! A singly linked list over `i64` values.
//!
//! `append` walks to the last node and attaches a new one there; `remove`
//! unlinks the first node whose value matches and reports whether one did;
//! `iter` collects the stored values front to back. The `length` field always
//! equals the number of reachable nodes.

use vstd::prelude::*;

verus! {

/// A list node: a value and an optional owned successor.
#[verifier::ext_equal]
pub struct Node {
    pub value: i64,
    pub next: Option<Box<Node>>,
}

/// A singly linked list: an optional owned head node and a length counter.
pub struct LinkedList {
    pub head: Option<Box<Node>>,
    pub length: usize,
}

/// The values stored in the chain hanging off a link, front to back.
pub open spec fn link_view(link: Option<Box<Node>>) -> Seq<i64>
    decreases link,
{
    match link {
        None => Seq::empty(),
        Some(n) => seq![n.value] + link_view(n.next),
    }
}

/// `s` with its first occurrence of `v` deleted; `s` unchanged when `v` is
/// absent.
pub open spec fn remove_first(s: Seq<i64>, v: i64) -> Seq<i64>
    decreases s.len(),
{
    if s.len() == 0 {
        s
    } else if s[0] == v {
        s.drop_first()
    } else {
        seq![s[0]] + remove_first(s.drop_first(), v)
    }
}

/// The index of the first occurrence of `v` in `s` (meaningful only when `v`
/// occurs).
pub open spec fn first_index_of(s: Seq<i64>, v: i64) -> int
    recommends
        s.contains(v),
    decreases s.len(),
{
    if s.len() == 0 {
        0
    } else if s[0] == v {
        0
    } else {
        1 + first_index_of(s.drop_first(), v)
    }
}

/// A value occurs in a chain exactly when it is the first element or occurs
/// in the rest.
pub proof fn lemma_contains_cons(a: i64, rest: Seq<i64>, v: i64)
    ensures
        (seq![a] + rest).contains(v) <==> (a == v || rest.contains(v)),
{
    let s = seq![a] + rest;
    if a == v {
        assert(s[0] == v);
    }
    if rest.contains(v) {
        let i = choose|i: int| 0 <= i < rest.len() && rest[i] == v;
        assert(s[i + 1] == v);
    }
    if s.contains(v) {
        let i = choose|i: int| 0 <= i < s.len() && s[i] == v;
        if i > 0 {
            assert(rest[i - 1] == v);
        }
    }
}

/// Removing an absent value leaves a sequence unchanged: length and contents
/// are exactly as before.
pub proof fn lemma_remove_first_absent(s: Seq<i64>, v: i64)
    requires
        !s.contains(v),
    ensures
        remove_first(s, v) == s,
    decreases s.len(),
{
    if s.len() > 0 {
        assert(s[0] != v);
        lemma_contains_cons(s[0], s.drop_first(), v);
        assert(seq![s[0]] + s.drop_first() =~= s);
        lemma_remove_first_absent(s.drop_first(), v);
        assert(remove_first(s, v) =~= s);
    }
}

/// Removing a present value deletes exactly the first occurrence: the length
/// drops by one and the elements before and after it keep their relative
/// order.
pub proof fn lemma_remove_first_present(s: Seq<i64>, v: i64)
    requires
        s.contains(v),
    ensures
        ({
            let i = first_index_of(s, v);
            &&& 0 <= i < s.len()
            &&& s[i] == v
            &&& forall|j: int| 0 <= j < i ==> s[j] != v
            &&& remove_first(s, v) == s.subrange(0, i) + s.subrange(i + 1, s.len() as int)
            &&& remove_first(s, v).len() == s.len() - 1
        }),
    decreases s.len(),
{
    let i = first_index_of(s, v);
    if s[0] == v {
        assert(remove_first(s, v) =~= s.subrange(0, 0) + s.subrange(1, s.len() as int));
    } else {
        let rest = s.drop_first();
        lemma_contains_cons(s[0], rest, v);
        assert(seq![s[0]] + rest =~= s);
        lemma_remove_first_present(rest, v);
        let ir = first_index_of(rest, v);
        assert(s[i] == rest[ir]);
        assert(forall|j: int| 0 <= j < i ==> s[j] != v) by {
            assert(forall|j: int| 1 <= j < i ==> s[j] == rest[j - 1]);
        }
        assert(remove_first(s, v) =~= s.subrange(0, i) + s.subrange(i + 1, s.len() as int));
    }
}

impl View for LinkedList {
    type V = Seq<i64>;

    open spec fn view(&self) -> Seq<i64> {
        link_view(self.head)
    }
}

impl LinkedList {
    /// The list's validity: the length counter equals the number of nodes.
    pub open spec fn wf(self) -> bool {
        self.length == self@.len()
    }

    /// Returns an empty list.
    pub fn new() -> (l: LinkedList)
        ensures
            l.wf(),
            l@ == Seq::<i64>::empty(),
            l.length == 0,
    {
        LinkedList { head: None, length: 0 }
    }
}

impl Node {
    /// Returns a boxed node holding `value` with no successor.
    pub fn new_box(value: i64) -> (r: Box<Node>)
        ensures
            r.value == value,
            r.next is None,
    {
        Box::new(Node { value, next: None })
    }

    /// Walks to the last node of the chain and attaches a new node holding
    /// `value` there.
    fn append_link(link: &mut Option<Box<Node>>, value: i64)
        ensures
            link_view(*final(link)) == link_view(*old(link)).push(value),
        decreases *old(link),
    {
        match link.take() {
            None => {
                *link = Some(Node::new_box(value));
                proof {
                    assert(link_view(*link) =~= link_view(*old(link)).push(value));
                }
            },
            Some(mut n) => {
                let ghost n0 = n;
                Node::append_link(&mut n.next, value);
                let ghost appended = n.next;
                *link = Some(n);
                proof {
                    assert(link_view(*old(link)) =~= seq![n0.value] + link_view(n0.next));
                    assert(link_view(*link) =~= seq![n0.value] + link_view(appended));
                    assert(link_view(*link) =~= link_view(*old(link)).push(value));
                }
            },
        }
    }

    /// Unlinks the first node of the chain whose value equals `value` by
    /// splicing its successor into its predecessor's slot; reports whether a
    /// node matched.
    fn remove_link(link: &mut Option<Box<Node>>, value: i64) -> (found: bool)
        ensures
            found == link_view(*old(link)).contains(value),
            link_view(*final(link)) == remove_first(link_view(*old(link)), value),
            !found ==> *final(link) == *old(link),
        decreases *old(link),
    {
        match link.take() {
            None => {
                proof {
                    assert(!link_view(*old(link)).contains(value));
                }
                false
            },
            Some(n) => {
                let ghost n0 = n;
                proof {
                    assert(link_view(*old(link)) =~= seq![n0.value] + link_view(n0.next));
                    lemma_contains_cons(n0.value, link_view(n0.next), value);
                }
                if n.value == value {
                    *link = n.next;
                    proof {
                        assert(link_view(*link) =~= remove_first(link_view(*old(link)), value));
                    }
                    true
                } else {
                    let mut n = n;
                    let found = Node::remove_link(&mut n.next, value);
                    let ghost spliced = n.next;
                    *link = Some(n);
                    proof {
                        if !found {
                            assert(n =~= n0);
                        }
                        assert(link_view(*link) =~= seq![n0.value] + link_view(spliced));
                        assert(link_view(n0.next) =~= (seq![n0.value] + link_view(n0.next))
                            .drop_first());
                        assert(link_view(*link) =~= remove_first(
                            link_view(*old(link)),
                            value,
                        ));
                    }
                    found
                }
            },
        }
    }

    /// Pushes the values of the chain onto `out`, front to back.
    fn push_values(link: &Option<Box<Node>>, out: &mut Vec<i64>)
        ensures
            final(out)@ == old(out)@ + link_view(*link),
        decreases *link,
    {
        match link {
            None => {
                proof {
                    assert(out@ =~= out@ + link_view(*link));
                }
            },
            Some(n) => {
                out.push(n.value);
                Node::push_values(&n.next, out);
                proof {
                    assert(link_view(*link) =~= seq![n.value] + link_view(n.next));
                    assert(out@ =~= old(out)@ + link_view(*link));
                }
            },
        }
    }
}

impl LinkedList {
    /// Attaches a new node holding `value` after the last node (the head,
    /// when the list is empty) and counts it.
    pub fn append(&mut self, value: i64)
        requires
            old(self).wf(),
            old(self)@.len() < usize::MAX,
        ensures
            final(self).wf(),
            final(self)@ == old(self)@.push(value),
    {
        Node::append_link(&mut self.head, value);
        self.length = self.length + 1;
    }

    /// Attaches a new node holding `value` at the tail, exactly as
    /// [`Self::append`] does (the two names stand for one operation).
    pub fn append_before_nll(&mut self, value: i64)
        requires
            old(self).wf(),
            old(self)@.len() < usize::MAX,
        ensures
            final(self).wf(),
            final(self)@ == old(self)@.push(value),
    {
        self.append(value);
    }

    /// Removes the first node whose value equals `value`, if any, and reports
    /// whether one matched. Equal-valued duplicates beyond the first remain.
    pub fn remove_using_ref(&mut self, value: i64) -> (found: bool)
        requires
            old(self).wf(),
        ensures
            final(self).wf(),
            found == old(self)@.contains(value),
            final(self)@ == remove_first(old(self)@, value),
            found ==> final(self).length == old(self).length - 1,
            !found ==> *final(self) == *old(self),
    {
        let found = Node::remove_link(&mut self.head, value);
        if found {
            proof {
                lemma_remove_first_present(old(self)@, value);
            }
            self.length = self.length - 1;
        } else {
            proof {
                lemma_remove_first_absent(old(self)@, value);
            }
        }
        found
    }

    /// Removes the first node whose value equals `value`, exactly as
    /// [`Self::remove_using_ref`] does (the two names stand for one
    /// operation).
    pub fn remove_using_move(&mut self, value: i64) -> (found: bool)
        requires
            old(self).wf(),
        ensures
            final(self).wf(),
            found == old(self)@.contains(value),
            final(self)@ == remove_first(old(self)@, value),
            found ==> final(self).length == old(self).length - 1,
            !found ==> *final(self) == *old(self),
    {
        self.remove_using_ref(value)
    }

    /// Collects the stored values front to back, without changing the list.
    pub fn iter(&self) -> (r: Vec<i64>)
        ensures
            r@ == self@,
    {
        let mut out: Vec<i64> = Vec::new();
        Node::push_values(&self.head, &mut out);
        proof {
            assert(out@ =~= self@);
        }
        out
    }
}

} // verus!
