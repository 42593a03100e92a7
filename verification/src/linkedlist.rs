//! A singly linked list of boxed nodes; the page replacement lists of the
//! memory simulator are built on it.  Its view is the sequence of values from
//! the head on.
use vstd::prelude::*;
use vstd::std_specs::cmp::PartialEqSpec;

verus! {

/// One node of a `Linkedlist`.
pub struct Node<T> {
    val: T,
    next: Option<Box<Node<T>>>,
}

/// A singly linked list with its length.
pub struct Linkedlist<T> {
    head: Option<Box<Node<T>>>,
    size: usize,
}

/// The values of a chain of nodes, first to last.
pub closed spec fn seq_of<T>(n: Option<Box<Node<T>>>) -> Seq<T>
    decreases n,
{
    match n {
        None => Seq::empty(),
        Some(b) => seq![b.val] + seq_of(b.next),
    }
}

/// The first position in `s` whose value equals `data` under `T`'s `==`,
/// or the length of `s` when there is none.
pub open spec fn first_eq<T: PartialEq>(s: Seq<T>, data: T) -> nat
    decreases s.len(),
{
    if s.len() == 0 {
        0
    } else if s[0].eq_spec(&data) {
        0
    } else {
        1 + first_eq(s.drop_first(), data)
    }
}

/// The value found by `first_eq` equals `data`.
pub proof fn lemma_first_eq<T: PartialEq>(s: Seq<T>, data: T)
    requires
        first_eq(s, data) < s.len(),
    ensures
        s[first_eq(s, data) as int].eq_spec(&data),
    decreases s.len(),
{
    if s.len() > 0 && !s[0].eq_spec(&data) {
        lemma_first_eq(s.drop_first(), data);
        assert(s[first_eq(s, data) as int] == s.drop_first()[first_eq(s.drop_first(), data) as int]);
    }
}

proof fn lemma_seq_of_len<T>(n: Option<Box<Node<T>>>)
    ensures
        n is None <==> seq_of(n).len() == 0,
    decreases n,
{
    match n {
        None => {},
        Some(b) => {},
    }
}

/// The chain `node` with `data` inserted at position `pos`.
fn insert_at<T>(node: Option<Box<Node<T>>>, data: T, pos: usize) -> (r: Option<Box<Node<T>>>)
    requires
        pos <= seq_of(node).len(),
    ensures
        seq_of(r) == seq_of(node).insert(pos as int, data),
    decreases pos,
{
    if pos == 0 {
        let r = Some(Box::new(Node { val: data, next: node }));
        proof {
            assert(seq_of(r) =~= seq_of(node).insert(0, data));
        }
        r
    } else {
        proof {
            lemma_seq_of_len(node);
        }
        let b = node.unwrap();
        let Node { val, next } = *b;
        let rest = insert_at(next, data, pos - 1);
        let r = Some(Box::new(Node { val, next: rest }));
        proof {
            let s = seq_of(node);
            assert(s == seq![val] + seq_of(next));
            assert(seq_of(r) =~= s.insert(pos as int, data));
        }
        r
    }
}

/// The chain `node` without its value at `pos`, and that value.
fn remove_at<T>(node: Option<Box<Node<T>>>, pos: usize) -> (r: (Option<Box<Node<T>>>, T))
    requires
        pos < seq_of(node).len(),
    ensures
        seq_of(r.0) == seq_of(node).remove(pos as int),
        r.1 == seq_of(node)[pos as int],
    decreases pos,
{
    proof {
        lemma_seq_of_len(node);
    }
    let b = node.unwrap();
    let Node { val, next } = *b;
    proof {
        assert(seq_of(node) == seq![val] + seq_of(next));
    }
    if pos == 0 {
        proof {
            assert(seq_of(next) =~= seq_of(node).remove(0));
        }
        (next, val)
    } else {
        let (rest, v) = remove_at(next, pos - 1);
        let r = Some(Box::new(Node { val, next: rest }));
        proof {
            assert(seq_of(r) =~= seq_of(node).remove(pos as int));
        }
        (r, v)
    }
}

/// A mutable reference to the last value of a nonempty chain.
fn last_mut_of<T>(node: &mut Box<Node<T>>) -> (r: &mut T)
    ensures
        *r == seq_of(Some(*old(node))).last(),
        seq_of(Some(*final(node))) == seq_of(Some(*old(node))).update(
            seq_of(Some(*old(node))).len() - 1,
            *final(r),
        ),
    decreases *old(node),
{
    proof {
        lemma_seq_of_len(node.next);
    }
    match &mut node.next {
        Some(nx) => {
            last_mut_of(nx)
        },
        None => {
            &mut node.val
        },
    }
}

/// The position of the first value of the chain equal to `data`, if any.
fn find_in<T: PartialEq>(node: &Option<Box<Node<T>>>, data: &T) -> (r: Option<usize>)
    requires
        T::obeys_eq_spec(),
        seq_of(*node).len() <= usize::MAX,
    ensures
        r is Some <==> first_eq(seq_of(*node), *data) < seq_of(*node).len(),
        r is Some ==> r->0 == first_eq(seq_of(*node), *data),
    decreases *node,
{
    match node {
        None => None,
        Some(b) => {
            proof {
                let s = seq_of(*node);
                assert(s == seq![b.val] + seq_of(b.next));
                assert(s.drop_first() =~= seq_of(b.next));
            }
            if b.val == *data {
                Some(0)
            } else {
                match find_in(&b.next, data) {
                    Some(i) => Some(i + 1),
                    None => None,
                }
            }
        },
    }
}

/// Appends the values of the chain `node`, first to last.
fn collect_into<T: Copy>(node: &Option<Box<Node<T>>>, out: &mut Vec<T>)
    ensures
        final(out)@ == old(out)@ + seq_of(*node),
    decreases *node,
{
    match node {
        None => {
            assert(old(out)@ + seq_of(*node) =~= old(out)@);
        },
        Some(b) => {
            out.push(b.val);
            collect_into(&b.next, out);
            proof {
                assert(seq_of(*node) == seq![b.val] + seq_of(b.next));
                assert(out@ =~= old(out)@ + seq_of(*node));
            }
        },
    }
}

impl<T> View for Linkedlist<T> {
    type V = Seq<T>;

    closed spec fn view(&self) -> Seq<T> {
        seq_of(self.head)
    }
}

impl<T> Linkedlist<T> {
    /// The stored length matches the nodes.
    pub closed spec fn wf(&self) -> bool {
        self.size == seq_of(self.head).len()
    }

    /// An empty list.
    pub fn new() -> (r: Self)
        ensures
            r.wf(),
            r@ == Seq::<T>::empty(),
    {
        Linkedlist { head: None, size: 0 }
    }

    /// Makes the list hold `data` alone.
    pub fn init(&mut self, data: T)
        ensures
            final(self).wf(),
            final(self)@ == seq![data],
    {
        self.head = Some(Box::new(Node { val: data, next: None }));
        self.size = 1;
        proof {
            assert(seq_of::<T>(None) == Seq::<T>::empty());
            assert(self@ =~= seq![data]);
        }
    }

    /// Whether the list is empty.
    pub fn is_empty(&self) -> (r: bool)
        requires
            self.wf(),
        ensures
            r == (self@.len() == 0),
    {
        self.size == 0
    }

    /// The number of values in the list.
    pub fn len(&self) -> (r: usize)
        requires
            self.wf(),
        ensures
            r == self@.len(),
    {
        self.size
    }

    /// Puts `data` in front of the list and returns the list, so that pushes
    /// chain.
    pub fn push(&mut self, data: T) -> (r: &mut Self)
        requires
            old(self).wf(),
            old(self)@.len() < usize::MAX,
        ensures
            r.wf(),
            r@ == seq![data] + old(self)@,
            *final(self) == *final(r),
    {
        let old_head = self.head.take();
        self.head = Some(Box::new(Node { val: data, next: old_head }));
        self.size = self.size + 1;
        self
    }

    /// Inserts `data` at position `pos` (1 up to the length) and returns true;
    /// returns false, changing nothing, when `pos` is past the end.
    pub fn push_pos(&mut self, data: T, pos: usize) -> (r: bool)
        requires
            old(self).wf(),
            old(self)@.len() < usize::MAX,
            pos > 0,
        ensures
            final(self).wf(),
            r == (pos <= old(self)@.len()),
            r ==> final(self)@ == old(self)@.insert(pos as int, data),
            !r ==> final(self)@ == old(self)@,
    {
        if pos > self.size {
            return false;
        }
        let h = self.head.take();
        self.head = insert_at(h, data, pos);
        self.size = self.size + 1;
        true
    }

    /// Removes and returns the first value, if any.
    pub fn pop(&mut self) -> (r: Option<T>)
        requires
            old(self).wf(),
        ensures
            final(self).wf(),
            old(self)@.len() == 0 ==> r is None && final(self)@ == old(self)@,
            old(self)@.len() > 0 ==> r == Some(old(self)@[0]) && final(self)@ == old(
                self,
            )@.drop_first(),
    {
        if self.size == 0 {
            return None;
        }
        proof {
            lemma_seq_of_len(self.head);
        }
        let h = self.head.take();
        let (rest, v) = remove_at(h, 0);
        self.head = rest;
        self.size = self.size - 1;
        proof {
            assert(old(self)@.remove(0) =~= old(self)@.drop_first());
        }
        Some(v)
    }

    /// Removes and returns the value at `pos`; returns `None`, changing
    /// nothing, when `pos` is past the end.
    pub fn pop_pos(&mut self, pos: usize) -> (r: Option<T>)
        requires
            old(self).wf(),
            pos != old(self)@.len(),
        ensures
            final(self).wf(),
            pos < old(self)@.len() ==> r == Some(old(self)@[pos as int]) && final(self)@ == old(
                self,
            )@.remove(pos as int),
            pos > old(self)@.len() ==> r is None && final(self)@ == old(self)@,
    {
        if pos > self.size {
            return None;
        }
        let h = self.head.take();
        let (rest, v) = remove_at(h, pos);
        self.head = rest;
        self.size = self.size - 1;
        Some(v)
    }

    /// A mutable reference to the first value, if any.
    pub fn peek_mut(&mut self) -> (r: Option<&mut T>)
        requires
            old(self).wf(),
        ensures
            old(self)@.len() == 0 ==> r is None && final(self)@ == old(self)@ && final(self).wf(),
            old(self)@.len() > 0 ==> r is Some && *r->0 == old(self)@[0] && final(self).wf()
                && final(self)@ == old(self)@.update(0, *final(r->0)),
    {
        proof {
            lemma_seq_of_len(self.head);
        }
        match &mut self.head {
            Some(node) => {
                Some(&mut node.val)
            },
            None => None,
        }
    }

    /// A mutable reference to the last value, if any.
    pub fn last_mut(&mut self) -> (r: Option<&mut T>)
        requires
            old(self).wf(),
        ensures
            old(self)@.len() == 0 ==> r is None && final(self)@ == old(self)@ && final(self).wf(),
            old(self)@.len() > 0 ==> r is Some && *r->0 == old(self)@.last() && final(self).wf()
                && final(self)@ == old(self)@.update(old(self)@.len() - 1, *final(r->0)),
    {
        proof {
            lemma_seq_of_len(self.head);
        }
        match &mut self.head {
            Some(node) => {
                let r = last_mut_of(node);
                Some(r)
            },
            None => None,
        }
    }

    /// Moves every value into a new list, which comes out reversed; this
    /// list is left empty.
    pub fn rev(&mut self) -> (r: Linkedlist<T>)
        requires
            old(self).wf(),
        ensures
            final(self).wf(),
            final(self)@ == Seq::<T>::empty(),
            r.wf(),
            r@ == old(self)@.reverse(),
    {
        let mut rev_list = Linkedlist::<T>::new();
        let ghost s0 = self@;
        let ghost n = s0.len();
        while !self.is_empty()
            invariant
                self.wf(),
                rev_list.wf(),
                n == s0.len(),
                n <= usize::MAX,
                rev_list@.len() + self@.len() == n,
                self@ == s0.subrange(rev_list@.len() as int, n as int),
                rev_list@ == s0.subrange(0, rev_list@.len() as int).reverse(),
            decreases self@.len(),
        {
            let ghost k = rev_list@.len() as int;
            let v = self.pop().unwrap();
            proof {
                assert(v == s0[k]);
                assert(self@ =~= s0.subrange(k + 1, n as int));
                assert(seq![v] + s0.subrange(0, k).reverse() =~= s0.subrange(0, k + 1).reverse());
            }
            rev_list.push(v);
        }
        proof {
            assert(rev_list@.len() == n);
            assert(s0.subrange(0, n as int) =~= s0);
            assert(self@ =~= Seq::<T>::empty());
        }
        rev_list
    }
}

impl<T: PartialEq> Linkedlist<T> {
    /// The position of the first value equal to `data`, or `usize::MAX` when
    /// no value is.
    pub fn find_data(&self, data: &T) -> (r: usize)
        requires
            self.wf(),
            T::obeys_eq_spec(),
        ensures
            first_eq(self@, *data) < self@.len() ==> r == first_eq(self@, *data),
            first_eq(self@, *data) >= self@.len() ==> r == usize::MAX,
    {
        match find_in(&self.head, data) {
            Some(i) => i,
            None => usize::MAX,
        }
    }
}

impl<T: PartialEq + Copy> Linkedlist<T> {
    /// Takes out the first value equal to `data` and puts `data` itself in
    /// front, returning true; returns false, changing nothing, when no value
    /// equals `data`.
    pub fn move_to_peek(&mut self, data: &T) -> (r: bool)
        requires
            old(self).wf(),
            T::obeys_eq_spec(),
        ensures
            final(self).wf(),
            r == (first_eq(old(self)@, *data) < old(self)@.len()),
            r ==> final(self)@ == seq![*data] + old(self)@.remove(first_eq(old(self)@, *data) as int),
            !r ==> final(self)@ == old(self)@,
    {
        match find_in(&self.head, data) {
            None => false,
            Some(pos) => {
                let _ = self.pop_pos(pos);
                self.push(*data);
                true
            },
        }
    }
}

/// What `push` puts in front, `pop` takes back: the value comes out and
/// the list is as before.
pub proof fn law_push_then_pop<T>(s: Seq<T>, x: T)
    ensures
        (seq![x] + s).len() > 0,
        (seq![x] + s)[0] == x,
        (seq![x] + s).drop_first() == s,
{
    assert((seq![x] + s).drop_first() =~= s);
}

/// Reversing twice gives the list back.
pub proof fn law_rev_twice<T>(s: Seq<T>)
    ensures
        s.reverse().reverse() == s,
{
    assert(s.reverse().reverse() =~= s);
}

impl<T: Copy> Linkedlist<T> {
    /// The values from the head on, in order, for the caller to show.
    pub fn traverse(&self) -> (r: Vec<T>)
        ensures
            r@ == self@,
    {
        let mut out: Vec<T> = Vec::new();
        collect_into(&self.head, &mut out);
        proof {
            assert(out@ =~= self@);
        }
        out
    }
}

} // verus!
