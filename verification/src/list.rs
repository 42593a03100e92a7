//! The kernel's doubly linked list.
//!
//! Every list owns an end marker item whose value is `portMAX_DELAY`; the
//! marker's `next` is the first item and its `prev` the last one, so an empty
//! list is a marker that points at itself.  A list also keeps a cursor
//! (`index`) that walks the items round robin.
//!
//! Items and lists live in one `ListStore` and refer to each other by handle
//! (a position in the store), the way the kernel's task control blocks and its
//! lists share items.  The abstract view of list `l` is the sequence of item
//! handles met when walking `next` from its end marker.
use vstd::prelude::*;
use crate::config::{TickType, UBaseType, portMAX_DELAY};

verus! {

/// Handle of an item in a `ListStore`.
pub type ItemHandle = usize;

/// Handle of a list in a `ListStore`.
pub type ListHandle = usize;

/// One list item: its sort value, its neighbours, the task that owns it and
/// the list that holds it.
#[derive(Clone, Copy)]
pub struct ListItem {
    item_value: TickType,
    next: ItemHandle,
    prev: ItemHandle,
    owner: Option<usize>,
    container: Option<ListHandle>,
}

/// The header of one list: its length, its round robin cursor and its end
/// marker.
#[derive(Clone, Copy)]
pub struct List {
    number_of_items: UBaseType,
    index: ItemHandle,
    list_end: ItemHandle,
}

/// All the items and lists of a kernel.
pub struct ListStore {
    items: Vec<ListItem>,
    lists: Vec<List>,
    contents: Ghost<Seq<Seq<ItemHandle>>>,
}

impl ListItem {
    /// The value of an item.
    pub closed spec fn value_spec(&self) -> TickType {
        self.item_value
    }

    /// The owner of an item.
    pub closed spec fn owner_spec(&self) -> Option<usize> {
        self.owner
    }

    /// The list an item claims to be in.
    pub closed spec fn container_spec(&self) -> Option<ListHandle> {
        self.container
    }

    /// A fresh item: value `portMAX_DELAY`, no owner, in no list.
    pub fn new() -> (r: ListItem)
        ensures
            r.value_spec() == portMAX_DELAY,
            r.owner_spec() is None,
            r.container_spec() is None,
    {
        ListItem { item_value: portMAX_DELAY, next: 0, prev: 0, owner: None, container: None }
    }

    /// Builder: the same item with another value.
    pub fn item_value(self, item_value: TickType) -> (r: ListItem)
        ensures
            r.value_spec() == item_value,
            r.owner_spec() == self.owner_spec(),
            r.container_spec() == self.container_spec(),
    {
        let mut s = self;
        s.item_value = item_value;
        s
    }

    /// Builder: the same item owned by task `owner`.
    pub fn owner(self, owner: usize) -> (r: ListItem)
        ensures
            r.value_spec() == self.value_spec(),
            r.owner_spec() == Some(owner),
            r.container_spec() == self.container_spec(),
    {
        let mut s = self;
        s.owner = Some(owner);
        s
    }

    /// Records the list that holds this item.
    pub fn set_container(&mut self, container: ListHandle)
        ensures
            final(self).container_spec() == Some(container),
            final(self).value_spec() == old(self).value_spec(),
            final(self).owner_spec() == old(self).owner_spec(),
    {
        self.container = Some(container);
    }

    /// The value of an item.
    pub fn get_value(&self) -> (r: TickType)
        ensures
            r == self.value_spec(),
    {
        self.item_value
    }
}

impl Default for ListItem {
    fn default() -> (r: ListItem)
        ensures
            r.value_spec() == portMAX_DELAY,
            r.owner_spec() is None,
            r.container_spec() is None,
    {
        ListItem::new()
    }
}

/// Position of the first element of `vals` greater than `v`, or the length of
/// `vals` when there is none.
pub open spec fn first_greater(vals: Seq<TickType>, v: TickType) -> nat
    decreases vals.len(),
{
    if vals.len() == 0 {
        0
    } else if vals[0] > v {
        0
    } else {
        1 + first_greater(vals.drop_first(), v)
    }
}

/// `p` is where a sorted insertion of `v` into `vals` lands: after every
/// leading element not greater than `v`, before the first greater one.
pub open spec fn is_first_greater(vals: Seq<TickType>, v: TickType, p: int) -> bool {
    &&& 0 <= p <= vals.len()
    &&& forall|j: int| 0 <= j < p ==> #[trigger] vals[j] <= v
    &&& p < vals.len() ==> vals[p] > v
}

/// `first_greater` is the one position that `is_first_greater` describes.
pub proof fn lemma_first_greater(vals: Seq<TickType>, v: TickType, p: int)
    requires
        is_first_greater(vals, v, p),
    ensures
        first_greater(vals, v) == p,
    decreases vals.len(),
{
    if vals.len() > 0 && vals[0] <= v {
        let t = vals.drop_first();
        assert(is_first_greater(t, v, p - 1)) by {
            assert forall|j: int| 0 <= j < p - 1 implies #[trigger] t[j] <= v by {
                assert(t[j] == vals[j + 1]);
            }
            if p - 1 < t.len() {
                assert(t[p - 1] == vals[p]);
            }
        }
        lemma_first_greater(t, v, p - 1);
    }
}

/// `list_remove` undoes an insertion: an item not yet in list `s` that
/// went in at position `p` (as `list_insert` and `list_insert_end` put it)
/// is found at `p` and taken out from there, which gives `s` back.
pub proof fn law_remove_undoes_insert(s: Seq<ItemHandle>, p: int, x: ItemHandle)
    requires
        0 <= p <= s.len(),
        !s.contains(x),
    ensures
        position_in(s.insert(p, x), x) == p,
        s.insert(p, x).remove(p) == s,
{
    let t = s.insert(p, x);
    assert(t[p] == x);
    let i = position_in(t, x);
    if i != p {
        if i < p {
            assert(s[i] == x);
        } else {
            assert(s[i - 1] == x);
        }
    }
    assert(t.remove(p) =~= s);
}

/// A list of distinct handles below `n` that leaves out the handle `e < n`
/// is shorter than `n`.
pub proof fn lemma_distinct_handles_bound(s: Seq<ItemHandle>, n: nat, e: ItemHandle)
    requires
        s.no_duplicates(),
        forall|i: int| 0 <= i < s.len() ==> #[trigger] s[i] < n,
        e < n,
        !s.contains(e),
    ensures
        s.len() < n,
{
    let t = s.map_values(|x: ItemHandle| x as int);
    assert(t.no_duplicates()) by {
        assert forall|i: int, j: int| 0 <= i < t.len() && 0 <= j < t.len() && i != j implies t[i] != t[j] by {
            assert(s[i] != s[j]);
        }
    }
    t.unique_seq_to_set();
    let r = vstd::set_lib::set_int_range(0, n as int);
    vstd::set_lib::lemma_int_range(0, n as int);
    let u = t.to_set().insert(e as int);
    assert(u.subset_of(r)) by {
        assert forall|y: int| u.contains(y) implies r.contains(y) by {
            if y != e as int {
                assert(t.to_set().contains(y));
                let i = choose|i: int| 0 <= i < t.len() && t[i] == y;
                assert(s[i] < n);
            }
        }
    }
    vstd::set_lib::lemma_len_subset(u, r);
    assert(!t.to_set().contains(e as int)) by {
        if t.to_set().contains(e as int) {
            let i = choose|i: int| 0 <= i < t.len() && t[i] == e as int;
            assert(s[i] == e);
        }
    }
}

impl ListStore {
    /// Number of items in the store.
    pub closed spec fn num_items(&self) -> nat {
        self.items@.len()
    }

    /// Number of lists in the store.
    pub closed spec fn num_lists(&self) -> nat {
        self.lists@.len()
    }

    /// The items of list `l`, first to last.
    pub closed spec fn seq(&self, l: int) -> Seq<ItemHandle> {
        self.contents@[l]
    }

    /// The value of item `x`.
    pub closed spec fn value(&self, x: int) -> TickType {
        self.items@[x].item_value
    }

    /// The owner of item `x`.
    pub closed spec fn owner(&self, x: int) -> Option<usize> {
        self.items@[x].owner
    }

    /// The list that holds item `x`.
    pub closed spec fn container(&self, x: int) -> Option<ListHandle> {
        self.items@[x].container
    }

    /// The end marker of list `l`.
    pub closed spec fn end_of(&self, l: int) -> ItemHandle {
        self.lists@[l].list_end
    }

    /// Item `x` is the end marker of some list.
    pub closed spec fn is_end(&self, x: int) -> bool {
        exists|l: int| 0 <= l < self.lists@.len() && #[trigger] self.lists@[l].list_end == x
    }

    /// The position in list `l` of its cursor, -1 when the cursor is at the
    /// end marker.
    pub closed spec fn cursor(&self, l: int) -> int {
        let s = self.contents@[l];
        let idx = self.lists@[l].index;
        if idx == self.lists@[l].list_end {
            -1
        } else {
            choose|i: int| 0 <= i < s.len() && s[i] == idx
        }
    }

    /// The values of the items of list `l`, first to last.
    pub open spec fn values(&self, l: int) -> Seq<TickType> {
        self.seq(l).map_values(|x: ItemHandle| self.value(x as int))
    }

    /// Where a cursor at `c` moves on a call of `get_owner_of_next_entry`
    /// in a list of `n` items: one step on, wrapping past the end marker.
    pub open spec fn next_cursor(c: int, n: int) -> int {
        if c + 1 < n {
            c + 1
        } else {
            0
        }
    }

    /// Item `i` of list `l` is linked to its neighbours and knows its list.
    closed spec fn node_ok(&self, l: int, i: int) -> bool {
        let s = self.contents@[l];
        let e = self.lists@[l].list_end;
        let x = s[i] as int;
        &&& 0 <= x < self.items@.len()
        &&& self.items@[x].container == Some(l as usize)
        &&& self.items@[x].next == (if i + 1 < s.len() {
            s[i + 1]
        } else {
            e
        })
        &&& self.items@[x].prev == (if i > 0 {
            s[i - 1]
        } else {
            e
        })
    }

    /// List `l` is well formed.
    closed spec fn list_wf(&self, l: int) -> bool {
        let s = self.contents@[l];
        let e = self.lists@[l].list_end;
        &&& 0 <= e < self.items@.len()
        &&& self.items@[e as int].container is None
        &&& self.items@[e as int].item_value == portMAX_DELAY
        &&& self.items@[e as int].next == (if s.len() == 0 {
            e
        } else {
            s[0]
        })
        &&& self.items@[e as int].prev == (if s.len() == 0 {
            e
        } else {
            s[s.len() - 1]
        })
        &&& self.lists@[l].number_of_items == s.len()
        &&& (self.lists@[l].index == e || s.contains(self.lists@[l].index))
        &&& s.no_duplicates()
        &&& forall|i: int| 0 <= i < s.len() ==> #[trigger] self.node_ok(l, i)
    }

    /// The store is well formed: every list is, end markers are distinct, and
    /// an item that names a list is in it.
    pub closed spec fn wf(&self) -> bool {
        &&& self.contents@.len() == self.lists@.len()
        &&& self.lists@.len() <= usize::MAX
        &&& self.items@.len() <= usize::MAX
        &&& forall|l: int| 0 <= l < self.lists@.len() ==> #[trigger] self.list_wf(l)
        &&& forall|l1: int, l2: int|
            0 <= l1 < self.lists@.len() && 0 <= l2 < self.lists@.len() && l1 != l2
                ==> #[trigger] self.lists@[l1].list_end != #[trigger] self.lists@[l2].list_end
        &&& forall|x: int|
            0 <= x < self.items@.len() && (#[trigger] self.items@[x]).container is Some ==> {
                let l = self.items@[x].container->0 as int;
                &&& 0 <= l < self.lists@.len()
                &&& self.contents@[l].contains(x as usize)
            }
    }

    /// `self` differs from `old` at most in the list `l` and in the
    /// container of item `x`.
    pub open spec fn frame(&self, old: &ListStore, l: int, x: int) -> bool {
        &&& self.num_items() == old.num_items()
        &&& self.num_lists() == old.num_lists()
        &&& forall|k: int| 0 <= k < self.num_lists() ==> #[trigger] self.end_of(k) == old.end_of(k)
        &&& forall|k: int|
            0 <= k < self.num_lists() && k != l ==> #[trigger] self.seq(k) == old.seq(k)
                && self.cursor(k) == old.cursor(k)
        &&& forall|y: int| 0 <= y < self.num_items() ==> #[trigger] self.value(y) == old.value(y)
        &&& forall|y: int| 0 <= y < self.num_items() ==> #[trigger] self.owner(y) == old.owner(y)
        &&& forall|y: int|
            0 <= y < self.num_items() && y != x ==> #[trigger] self.container(y) == old.container(
                y,
            )
        &&& forall|y: int| 0 <= y < self.num_items() ==> #[trigger] self.is_end(y) == old.is_end(y)
    }

    /// Facts about a well formed store that its users need.
    pub proof fn lemma_wf(&self)
        requires
            self.wf(),
        ensures
            self.num_items() <= usize::MAX,
            self.num_lists() <= usize::MAX,
            forall|l: int, i: int|
                0 <= l < self.num_lists() && 0 <= i < self.seq(l).len() ==> {
                    let x = #[trigger] self.seq(l)[i] as int;
                    &&& 0 <= x < self.num_items()
                    &&& self.container(x) == Some(l as usize)
                    &&& !self.is_end(x)
                },
            forall|l: int| 0 <= l < self.num_lists() ==> #[trigger] self.seq(l).no_duplicates(),
            forall|l: int|
                0 <= l < self.num_lists() ==> -1 <= #[trigger] self.cursor(l) < self.seq(l).len(),
            forall|x: int|
                0 <= x < self.num_items() && (#[trigger] self.container(x)) is Some ==> {
                    let l = self.container(x)->0 as int;
                    &&& 0 <= l < self.num_lists()
                    &&& self.seq(l).contains(x as usize)
                },
            forall|l: int|
                0 <= l < self.num_lists() ==> 0 <= #[trigger] self.end_of(l) < self.num_items()
                    && self.is_end(self.end_of(l) as int),
    {
        assert forall|l: int, i: int| 0 <= l < self.num_lists() && 0 <= i < self.seq(l).len() implies {
            let x = #[trigger] self.seq(l)[i] as int;
            &&& 0 <= x < self.num_items()
            &&& self.container(x) == Some(l as usize)
            &&& !self.is_end(x)
        } by {
            assert(self.list_wf(l));
            assert(self.node_ok(l, i));
            let x = self.seq(l)[i] as int;
            if self.is_end(x) {
                let k = choose|k: int| 0 <= k < self.lists@.len() && #[trigger] self.lists@[k].list_end == x;
                assert(self.list_wf(k));
            }
        }
        assert forall|l: int| 0 <= l < self.num_lists() implies -1 <= #[trigger] self.cursor(l) < self.seq(l).len() by {
            assert(self.list_wf(l));
            let s = self.contents@[l];
            let idx = self.lists@[l].index;
            if idx != self.lists@[l].list_end {
                assert(s.contains(idx));
            }
        }
        assert forall|l: int| 0 <= l < self.num_lists() implies 0 <= #[trigger] self.end_of(l) < self.num_items()
            && self.is_end(self.end_of(l) as int) by {
            assert(self.list_wf(l));
        }
        assert forall|l: int| 0 <= l < self.num_lists() implies #[trigger] self.seq(l).no_duplicates() by {
            assert(self.list_wf(l));
        }
    }

    /// In a list without duplicates, the cursor is the position of the item
    /// it points at.
    proof fn lemma_cursor_at(&self, l: int, i: int)
        requires
            0 <= l < self.lists@.len(),
            self.contents@.len() == self.lists@.len(),
            self.contents@[l].no_duplicates(),
            0 <= i < self.contents@[l].len(),
            self.contents@[l][i] == self.lists@[l].index,
            self.lists@[l].index != self.lists@[l].list_end,
        ensures
            self.cursor(l) == i,
    {
        let s = self.contents@[l];
        let idx = self.lists@[l].index;
        let c = choose|j: int| 0 <= j < s.len() && s[j] == idx;
        assert(0 <= c < s.len() && s[c] == idx);
    }

    /// An empty store.
    pub fn new() -> (r: ListStore)
        ensures
            r.wf(),
            r.num_items() == 0,
            r.num_lists() == 0,
    {
        ListStore { items: Vec::new(), lists: Vec::new(), contents: Ghost(Seq::empty()) }
    }

    /// Number of items in the store.
    pub fn item_count(&self) -> (r: usize)
        ensures
            r == self.num_items(),
    {
        self.items.len()
    }

    /// Number of lists in the store.
    pub fn list_count(&self) -> (r: usize)
        ensures
            r == self.num_lists(),
    {
        self.lists.len()
    }

    /// Adds a new empty list and returns its handle: its end marker is a new
    /// item of value `portMAX_DELAY` that points at itself.
    pub fn new_list(&mut self) -> (l: ListHandle)
        requires
            old(self).wf(),
            old(self).num_items() < usize::MAX,
            old(self).num_lists() < usize::MAX,
        ensures
            final(self).wf(),
            l == old(self).num_lists(),
            final(self).num_lists() == old(self).num_lists() + 1,
            final(self).num_items() == old(self).num_items() + 1,
            final(self).seq(l as int) == Seq::<ItemHandle>::empty(),
            final(self).cursor(l as int) == -1,
            final(self).end_of(l as int) == old(self).num_items(),
            final(self).is_end(old(self).num_items() as int),
            final(self).value(old(self).num_items() as int) == portMAX_DELAY,
            final(self).owner(old(self).num_items() as int) is None,
            final(self).container(old(self).num_items() as int) is None,
            forall|k: int|
                #![trigger final(self).seq(k)]
            #![trigger final(self).cursor(k)]
            #![trigger final(self).end_of(k)]
            0 <= k < old(self).num_lists() ==> final(self).seq(k) == old(self).seq(k)
                    && final(self).cursor(k) == old(self).cursor(k) && final(self).end_of(k)
                    == old(self).end_of(k),
            forall|y: int|
                #![trigger final(self).value(y)]
            #![trigger final(self).owner(y)]
            #![trigger final(self).container(y)]
            #![trigger final(self).is_end(y)]
            0 <= y < old(self).num_items() ==> final(self).value(y) == old(self).value(y)
                    && final(self).owner(y) == old(self).owner(y) && final(self).container(y)
                    == old(self).container(y) && final(self).is_end(y) == old(self).is_end(y),
    {
        let e = self.items.len();
        self.items.push(
            ListItem { item_value: portMAX_DELAY, next: e, prev: e, owner: None, container: None },
        );
        let l = self.lists.len();
        self.lists.push(List { number_of_items: 0, index: e, list_end: e });
        self.contents = Ghost(self.contents@.push(Seq::empty()));
        proof {
            let o = old(self);
            assert forall|k: int| 0 <= k < self.lists@.len() implies #[trigger] self.list_wf(k) by {
                if k < o.lists@.len() {
                    assert(o.list_wf(k));
                    assert forall|i: int| 0 <= i < self.contents@[k].len() implies #[trigger] self.node_ok(k, i) by {
                        assert(o.node_ok(k, i));
                    }
                }
            }
            assert forall|x: int|
                0 <= x < self.items@.len() && (#[trigger] self.items@[x]).container is Some implies {
                let lc = self.items@[x].container->0 as int;
                &&& 0 <= lc < self.lists@.len()
                &&& self.contents@[lc].contains(x as usize)
            } by {
                assert(o.items@[x] == self.items@[x]);
            }
            assert forall|k: int| 0 <= k < o.lists@.len() implies #[trigger] self.cursor(k) == o.cursor(k) by {
                assert(self.contents@[k] == o.contents@[k]);
                assert(self.lists@[k] == o.lists@[k]);
            }
            assert forall|y: int| 0 <= y < o.items@.len() implies #[trigger] self.is_end(y) == o.is_end(y) by {
                if self.is_end(y) {
                    let k = choose|k: int| 0 <= k < self.lists@.len() && #[trigger] self.lists@[k].list_end == y;
                    assert(k < o.lists@.len());
                    assert(o.lists@[k].list_end == y);
                }
                if o.is_end(y) {
                    let k = choose|k: int| 0 <= k < o.lists@.len() && #[trigger] o.lists@[k].list_end == y;
                    assert(self.lists@[k].list_end == y);
                }
            }
            assert(self.lists@[l as int].list_end == e);
            assert(self.is_end(e as int));
            assert forall|l1: int, l2: int|
                0 <= l1 < self.lists@.len() && 0 <= l2 < self.lists@.len() && l1 != l2 implies
                #[trigger] self.lists@[l1].list_end != #[trigger] self.lists@[l2].list_end by {
                if l1 < o.lists@.len() {
                    assert(o.list_wf(l1));
                }
                if l2 < o.lists@.len() {
                    assert(o.list_wf(l2));
                }
            }
        }
        l
    }

    /// Adds `item` to the store, in no list, and returns its handle.
    pub fn add_item(&mut self, item: ListItem) -> (x: ItemHandle)
        requires
            old(self).wf(),
            old(self).num_items() < usize::MAX,
        ensures
            final(self).wf(),
            x == old(self).num_items(),
            final(self).num_items() == old(self).num_items() + 1,
            final(self).num_lists() == old(self).num_lists(),
            final(self).value(x as int) == item.value_spec(),
            final(self).owner(x as int) == item.owner_spec(),
            final(self).container(x as int) is None,
            !final(self).is_end(x as int),
            forall|k: int|
                #![trigger final(self).seq(k)]
            #![trigger final(self).cursor(k)]
            #![trigger final(self).end_of(k)]
            0 <= k < old(self).num_lists() ==> final(self).seq(k) == old(self).seq(k)
                    && final(self).cursor(k) == old(self).cursor(k) && final(self).end_of(k)
                    == old(self).end_of(k),
            forall|y: int|
                #![trigger final(self).value(y)]
            #![trigger final(self).owner(y)]
            #![trigger final(self).container(y)]
            #![trigger final(self).is_end(y)]
            0 <= y < old(self).num_items() ==> final(self).value(y) == old(self).value(y)
                    && final(self).owner(y) == old(self).owner(y) && final(self).container(y)
                    == old(self).container(y) && final(self).is_end(y) == old(self).is_end(y),
    {
        let x = self.items.len();
        let mut it = item;
        it.container = None;
        it.next = x;
        it.prev = x;
        self.items.push(it);
        proof {
            let o = old(self);
            assert forall|k: int| 0 <= k < self.lists@.len() implies #[trigger] self.list_wf(k) by {
                assert(o.list_wf(k));
                assert forall|i: int| 0 <= i < self.contents@[k].len() implies #[trigger] self.node_ok(k, i) by {
                    assert(o.node_ok(k, i));
                }
            }
            assert forall|y: int|
                0 <= y < self.items@.len() && (#[trigger] self.items@[y]).container is Some implies {
                let lc = self.items@[y].container->0 as int;
                &&& 0 <= lc < self.lists@.len()
                &&& self.contents@[lc].contains(y as usize)
            } by {
                assert(o.items@[y] == self.items@[y]);
            }
            if self.is_end(x as int) {
                let k = choose|k: int| 0 <= k < self.lists@.len() && #[trigger] self.lists@[k].list_end == x;
                assert(o.list_wf(k));
            }
            assert forall|k: int| 0 <= k < o.lists@.len() implies #[trigger] self.cursor(k) == o.cursor(k) by {
                assert(self.contents@[k] == o.contents@[k]);
                assert(self.lists@[k] == o.lists@[k]);
            }
            assert forall|y: int| 0 <= y < o.items@.len() implies #[trigger] self.is_end(y) == o.is_end(y) by {
                if self.is_end(y) {
                    let k = choose|k: int| 0 <= k < self.lists@.len() && #[trigger] self.lists@[k].list_end == y;
                    assert(o.lists@[k].list_end == y);
                }
                if o.is_end(y) {
                    let k = choose|k: int| 0 <= k < o.lists@.len() && #[trigger] o.lists@[k].list_end == y;
                    assert(self.lists@[k].list_end == y);
                }
            }
        }
        x
    }

    /// Links the detached item `x` into list `l` at position `p`, between
    /// `prev` and `next`.
    #[verifier::rlimit(60)]
    #[verifier::spinoff_prover]
    fn link_at(
        &mut self,
        l: ListHandle,
        x: ItemHandle,
        prev: ItemHandle,
        next: ItemHandle,
        Ghost(p): Ghost<int>,
    )
        requires
            old(self).wf(),
            l < old(self).num_lists(),
            x < old(self).num_items(),
            old(self).container(x as int) is None,
            !old(self).is_end(x as int),
            0 <= p <= old(self).seq(l as int).len(),
            prev == (if p == 0 {
                old(self).end_of(l as int)
            } else {
                old(self).seq(l as int)[p - 1]
            }),
            next == (if p == old(self).seq(l as int).len() {
                old(self).end_of(l as int)
            } else {
                old(self).seq(l as int)[p]
            }),
        ensures
            final(self).wf(),
            final(self).seq(l as int) == old(self).seq(l as int).insert(p, x),
            final(self).lists@[l as int].index == old(self).lists@[l as int].index,
            final(self).container(x as int) == Some(l),
            final(self).frame(old(self), l as int, x as int),
    {
        let ghost o = *old(self);
        let ghost s = o.contents@[l as int];
        let ghost e = o.lists@[l as int].list_end;
        let ghost t = s.insert(p, x);
        proof {
            assert(o.list_wf(l as int));
            if p > 0 {
                assert(o.node_ok(l as int, p - 1));
            }
            if p < s.len() {
                assert(o.node_ok(l as int, p));
            }
            if s.contains(x) {
                let j = choose|j: int| 0 <= j < s.len() && s[j] == x;
                assert(o.node_ok(l as int, j));
            }
            assert forall|i: int| 0 <= i < s.len() implies #[trigger] s[i] < o.items@.len() by {
                assert(o.node_ok(l as int, i));
            }
            if s.contains(e) {
                let j = choose|j: int| 0 <= j < s.len() && s[j] == e;
                assert(o.node_ok(l as int, j));
            }
            lemma_distinct_handles_bound(s, o.items@.len(), e);
        }
        let n_items = self.items.len();
        let mut hx = self.items[x];
        hx.next = next;
        hx.prev = prev;
        hx.container = Some(l);
        self.items.set(x, hx);
        let mut hp = self.items[prev];
        hp.next = x;
        self.items.set(prev, hp);
        let mut hn = self.items[next];
        hn.prev = x;
        self.items.set(next, hn);
        let mut hl = self.lists[l];
        assert(hl.number_of_items < o.items@.len());
        hl.number_of_items = hl.number_of_items + 1;
        self.lists.set(l, hl);
        self.contents = Ghost(self.contents@.update(l as int, t));
        proof {
            let li = l as int;
            assert(t.len() == s.len() + 1);
            assert(t[p] == x);
            assert forall|i: int| 0 <= i < p implies #[trigger] t[i] == s[i] by {}
            assert forall|i: int| p < i < t.len() implies #[trigger] t[i] == s[i - 1] by {}
            // The three items that changed.
            assert(self.items@[x as int].container == Some(l));
            assert forall|y: int|
                0 <= y < self.items@.len() && y != x && y != prev && y != next implies
                #[trigger] self.items@[y] == o.items@[y] by {}
            // The other lists do not involve any of the changed items.
            assert forall|k: int| 0 <= k < self.lists@.len() && k != li implies #[trigger] self.list_wf(k) by {
                assert(o.list_wf(k));
                let sk = o.contents@[k];
                let ek = o.lists@[k].list_end;
                assert(ek != e);
                assert(ek != x) by {
                    assert(o.lists@[k].list_end == ek);
                }
                if ek == prev && p > 0 {
                    assert(o.node_ok(li, p - 1));
                }
                if ek == next && p < s.len() {
                    assert(o.node_ok(li, p));
                }
                assert(self.items@[ek as int] == o.items@[ek as int]);
                assert forall|i: int| 0 <= i < sk.len() implies #[trigger] self.node_ok(k, i) by {
                    assert(o.node_ok(k, i));
                    let y = sk[i] as int;
                    assert(o.items@[y].container == Some(k as usize));
                    if y == prev {
                        if p > 0 {
                            assert(o.node_ok(li, p - 1));
                        } else {
                            assert(o.items@[e as int].container is None);
                        }
                    }
                    if y == next {
                        if p < s.len() {
                            assert(o.node_ok(li, p));
                        } else {
                            assert(o.items@[e as int].container is None);
                        }
                    }
                    assert(y != x);
                    assert(y != prev);
                    assert(y != next);
                    assert(self.items@[y] == o.items@[y]);
                }
            }
            // The list that changed.
            assert(self.list_wf(li)) by {
                assert(t.len() == s.len() + 1);
                assert(t[p] == x);
                assert forall|i: int| 0 <= i < p implies #[trigger] t[i] == s[i] by {}
                assert forall|i: int| p < i < t.len() implies #[trigger] t[i] == s[i - 1] by {}
                assert(t.no_duplicates()) by {
                    assert forall|i: int, j: int| 0 <= i < t.len() && 0 <= j < t.len() && i != j implies t[i] != t[j] by {
                        if i != p && j != p {
                            let i0 = if i < p { i } else { i - 1 };
                            let j0 = if j < p { j } else { j - 1 };
                            assert(t[i] == s[i0]);
                            assert(t[j] == s[j0]);
                        } else if i == p {
                            let j0 = if j < p { j } else { j - 1 };
                            assert(t[j] == s[j0]);
                            assert(o.node_ok(li, j0));
                        } else {
                            let i0 = if i < p { i } else { i - 1 };
                            assert(t[i] == s[i0]);
                            assert(o.node_ok(li, i0));
                        }
                    }
                }
                assert(self.lists@[li].index == o.lists@[li].index);
                if o.lists@[li].index != e {
                    let j = choose|j: int| 0 <= j < s.len() && s[j] == o.lists@[li].index;
                    let j1 = if j < p { j } else { j + 1 };
                    assert(t[j1] == s[j]);
                    assert(t.contains(o.lists@[li].index));
                }
                // The end marker.
                if p == 0 {
                    assert(prev == e);
                }
                if p == s.len() {
                    assert(next == e);
                }
                if s.len() > 0 {
                    assert(o.node_ok(li, 0));
                    assert(o.node_ok(li, s.len() - 1));
                }
                assert(self.items@[e as int].container is None);
                assert(self.items@[e as int].item_value == portMAX_DELAY);
                assert forall|i: int| 0 <= i < t.len() implies #[trigger] self.node_ok(li, i) by {
                    if i == p {
                    } else if i < p {
                        assert(o.node_ok(li, i));
                        if i + 1 < p {
                            assert(o.node_ok(li, i + 1));
                        }
                        if i > 0 {
                            assert(o.node_ok(li, i - 1));
                        }
                    } else {
                        assert(o.node_ok(li, i - 1));
                        if i - 1 > 0 {
                            assert(o.node_ok(li, i - 2));
                        }
                        if i < s.len() {
                            assert(o.node_ok(li, i));
                        }
                    }
                }
            }
            assert forall|l1: int, l2: int|
                0 <= l1 < self.lists@.len() && 0 <= l2 < self.lists@.len() && l1 != l2 implies
                #[trigger] self.lists@[l1].list_end != #[trigger] self.lists@[l2].list_end by {
                assert(o.lists@[l1].list_end != o.lists@[l2].list_end);
            }
            assert forall|y: int|
                0 <= y < self.items@.len() && (#[trigger] self.items@[y]).container is Some implies {
                let lc = self.items@[y].container->0 as int;
                &&& 0 <= lc < self.lists@.len()
                &&& self.contents@[lc].contains(y as usize)
            } by {
                if y == x {
                    assert(t[p] == x);
                } else if y == prev || y == next {
                    if y == e {
                        assert(false);
                    } else {
                        assert(o.items@[y].container == Some(l));
                        let j = choose|j: int| 0 <= j < s.len() && s[j] == y;
                        let j1 = if j < p { j } else { j + 1 };
                        assert(t[j1] == s[j]);
                    }
                } else {
                    assert(self.items@[y] == o.items@[y]);
                    let lc = o.items@[y].container->0 as int;
                    assert(o.contents@[lc].contains(y as usize));
                    if lc == li {
                        let j = choose|j: int| 0 <= j < s.len() && s[j] == y;
                        let j1 = if j < p { j } else { j + 1 };
                        assert(t[j1] == s[j]);
                    }
                }
            }
            // The frame.
            assert forall|k: int| 0 <= k < self.lists@.len() && k != li implies
                #[trigger] self.seq(k) == o.seq(k) && self.cursor(k) == o.cursor(k) by {
                assert(self.lists@[k] == o.lists@[k]);
            }
            assert forall|y: int| 0 <= y < self.items@.len() implies
                #[trigger] self.value(y) == o.value(y) by {}
            assert forall|y: int| 0 <= y < self.items@.len() implies
                #[trigger] self.owner(y) == o.owner(y) by {}
            assert forall|y: int| 0 <= y < self.items@.len() && y != x implies
                #[trigger] self.container(y) == o.container(y) by {}
            assert forall|y: int| 0 <= y < self.items@.len() implies
                #[trigger] self.is_end(y) == o.is_end(y) by {
                if self.is_end(y) {
                    let k = choose|k: int| 0 <= k < self.lists@.len() && #[trigger] self.lists@[k].list_end == y;
                    assert(o.lists@[k].list_end == y);
                }
                if o.is_end(y) {
                    let k = choose|k: int| 0 <= k < o.lists@.len() && #[trigger] o.lists@[k].list_end == y;
                    assert(self.lists@[k].list_end == y);
                }
            }
            assert forall|k: int| 0 <= k < self.lists@.len() implies
                #[trigger] self.end_of(k) == o.end_of(k) by {}
        }
    }
}


impl ListStore {
    /// Unlinks item `x`, at position `k` of list `l`, from its neighbours.
    #[verifier::rlimit(60)]
    #[verifier::spinoff_prover]
    fn unlink(&mut self, l: ListHandle, x: ItemHandle, Ghost(k): Ghost<int>) -> (r: UBaseType)
        requires
            old(self).wf(),
            l < old(self).num_lists(),
            0 <= k < old(self).seq(l as int).len(),
            old(self).seq(l as int)[k] == x,
        ensures
            final(self).wf(),
            final(self).seq(l as int) == old(self).seq(l as int).remove(k),
            r == final(self).seq(l as int).len(),
            final(self).container(x as int) is None,
            final(self).frame(old(self), l as int, x as int),
            final(self).lists@[l as int].index == (if old(self).lists@[l as int].index == x {
                if k == 0 {
                    old(self).end_of(l as int)
                } else {
                    old(self).seq(l as int)[k - 1]
                }
            } else {
                old(self).lists@[l as int].index
            }),
    {
        let ghost o = *old(self);
        let ghost s = o.contents@[l as int];
        let ghost e = o.lists@[l as int].list_end;
        let ghost t = s.remove(k);
        let ghost li = l as int;
        proof {
            assert(o.list_wf(li));
            assert(o.node_ok(li, k));
            if k > 0 {
                assert(o.node_ok(li, k - 1));
            }
            if k + 1 < s.len() {
                assert(o.node_ok(li, k + 1));
            }
        }
        let hx = self.items[x];
        let prev = hx.prev;
        let next = hx.next;
        let mut nx = hx;
        nx.container = None;
        self.items.set(x, nx);
        let mut hp = self.items[prev];
        hp.next = next;
        self.items.set(prev, hp);
        let mut hn = self.items[next];
        hn.prev = prev;
        self.items.set(next, hn);
        let mut hl = self.lists[l];
        if hl.index == x {
            hl.index = prev;
        }
        hl.number_of_items = hl.number_of_items - 1;
        let r = hl.number_of_items;
        self.lists.set(l, hl);
        self.contents = Ghost(self.contents@.update(li, t));
        proof {
            assert(t.len() == s.len() - 1);
            assert forall|i: int| 0 <= i < k implies #[trigger] t[i] == s[i] by {}
            assert forall|i: int| k <= i < t.len() implies #[trigger] t[i] == s[i + 1] by {}
            assert(prev == (if k == 0 { e } else { s[k - 1] }));
            assert(next == (if k + 1 == s.len() { e } else { s[k + 1] }));
            assert(prev != x && next != x) by {
                if k > 0 {
                    assert(s[k - 1] != s[k]);
                }
                if k + 1 < s.len() {
                    assert(s[k + 1] != s[k]);
                }
            }
            assert forall|y: int|
                0 <= y < self.items@.len() && y != x && y != prev && y != next implies
                #[trigger] self.items@[y] == o.items@[y] by {}
            // Other lists.
            assert forall|kk: int| 0 <= kk < self.lists@.len() && kk != li implies #[trigger] self.list_wf(kk) by {
                assert(o.list_wf(kk));
                let sk = o.contents@[kk];
                let ek = o.lists@[kk].list_end;
                assert(ek != e);
                assert(o.items@[ek as int].container is None);
                assert(self.items@[ek as int] == o.items@[ek as int]);
                assert forall|i: int| 0 <= i < sk.len() implies #[trigger] self.node_ok(kk, i) by {
                    assert(o.node_ok(kk, i));
                    let y = sk[i] as int;
                    assert(o.items@[y].container == Some(kk as usize));
                    assert(y != x);
                    assert(y != prev);
                    assert(y != next);
                    assert(self.items@[y] == o.items@[y]);
                }
            }
            // This list.
            assert(self.list_wf(li)) by {
                assert(t.no_duplicates()) by {
                    assert forall|i: int, j: int| 0 <= i < t.len() && 0 <= j < t.len() && i != j implies t[i] != t[j] by {
                        let i0 = if i < k { i } else { i + 1 };
                        let j0 = if j < k { j } else { j + 1 };
                        assert(t[i] == s[i0]);
                        assert(t[j] == s[j0]);
                    }
                }
                let idx = self.lists@[li].index;
                if idx != e {
                    if o.lists@[li].index == x {
                        assert(k > 0);
                        assert(t[k - 1] == s[k - 1]);
                    } else {
                        let j = choose|j: int| 0 <= j < s.len() && s[j] == idx;
                        assert(j != k);
                        let j1 = if j < k { j } else { j - 1 };
                        assert(t[j1] == s[j]);
                    }
                    assert(t.contains(idx));
                }
                if s.len() > 0 {
                    assert(o.node_ok(li, 0));
                    assert(o.node_ok(li, s.len() - 1));
                }
                if t.len() > 0 {
                    if k == 0 {
                        assert(t[0] == s[1]);
                    }
                    if k == s.len() - 1 {
                        assert(t[t.len() - 1] == s[k - 1]);
                    } else {
                        assert(t[t.len() - 1] == s[s.len() - 1]);
                    }
                }
                assert forall|i: int| 0 <= i < t.len() implies #[trigger] self.node_ok(li, i) by {
                    if i < k {
                        assert(o.node_ok(li, i));
                        if i > 0 {
                            assert(o.node_ok(li, i - 1));
                        }
                    } else {
                        assert(o.node_ok(li, i + 1));
                        if i + 2 < s.len() {
                            assert(o.node_ok(li, i + 2));
                        }
                    }
                }
            }
            assert forall|l1: int, l2: int|
                0 <= l1 < self.lists@.len() && 0 <= l2 < self.lists@.len() && l1 != l2 implies
                #[trigger] self.lists@[l1].list_end != #[trigger] self.lists@[l2].list_end by {
                assert(o.lists@[l1].list_end != o.lists@[l2].list_end);
            }
            assert forall|y: int|
                0 <= y < self.items@.len() && (#[trigger] self.items@[y]).container is Some implies {
                let lc = self.items@[y].container->0 as int;
                &&& 0 <= lc < self.lists@.len()
                &&& self.contents@[lc].contains(y as usize)
            } by {
                if y == x {
                } else if y == prev || y == next {
                    assert(o.items@[y].container == Some(l));
                    let j = choose|j: int| 0 <= j < s.len() && s[j] == y;
                    assert(j != k);
                    let j1 = if j < k { j } else { j - 1 };
                    assert(t[j1] == s[j]);
                } else {
                    assert(self.items@[y] == o.items@[y]);
                    let lc = o.items@[y].container->0 as int;
                    assert(o.contents@[lc].contains(y as usize));
                    if lc == li {
                        let j = choose|j: int| 0 <= j < s.len() && s[j] == y;
                        assert(j != k);
                        let j1 = if j < k { j } else { j - 1 };
                        assert(t[j1] == s[j]);
                    }
                }
            }
            assert forall|kk: int| 0 <= kk < self.lists@.len() && kk != li implies
                #[trigger] self.seq(kk) == o.seq(kk) && self.cursor(kk) == o.cursor(kk) by {
                assert(self.lists@[kk] == o.lists@[kk]);
            }
            assert forall|y: int| 0 <= y < self.items@.len() implies
                #[trigger] self.value(y) == o.value(y) by {}
            assert forall|y: int| 0 <= y < self.items@.len() implies
                #[trigger] self.owner(y) == o.owner(y) by {}
            assert forall|y: int| 0 <= y < self.items@.len() && y != x implies
                #[trigger] self.container(y) == o.container(y) by {}
            assert forall|y: int| 0 <= y < self.items@.len() implies
                #[trigger] self.is_end(y) == o.is_end(y) by {
                if self.is_end(y) {
                    let kk = choose|kk: int| 0 <= kk < self.lists@.len() && #[trigger] self.lists@[kk].list_end == y;
                    assert(o.lists@[kk].list_end == y);
                }
                if o.is_end(y) {
                    let kk = choose|kk: int| 0 <= kk < o.lists@.len() && #[trigger] o.lists@[kk].list_end == y;
                    assert(self.lists@[kk].list_end == y);
                }
            }
            assert forall|kk: int| 0 <= kk < self.lists@.len() implies
                #[trigger] self.end_of(kk) == o.end_of(kk) by {}
        }
        r
    }
}


/// The position of `x` in `s` (meaningful when `s` holds `x`).
pub open spec fn position_in(s: Seq<ItemHandle>, x: ItemHandle) -> int {
    choose|i: int| 0 <= i < s.len() && s[i] == x
}

/// Where the cursor of a list stands after an item is inserted at `p`: it
/// keeps pointing at the same item.
pub open spec fn cursor_after_insert(c: int, p: int) -> int {
    if c < 0 {
        -1
    } else if p <= c {
        c + 1
    } else {
        c
    }
}

/// Where the cursor of a list stands after the item at `k` is removed: an
/// item that pointed at the removed one falls back to its predecessor.
pub open spec fn cursor_after_remove(c: int, k: int) -> int {
    if c == k {
        k - 1
    } else if c > k {
        c - 1
    } else {
        c
    }
}

/// The items of `s` that are not in `gone`, in the order of `s`.
pub open spec fn remove_all(s: Seq<ItemHandle>, gone: Set<ItemHandle>) -> Seq<ItemHandle>
    decreases s.len(),
{
    if s.len() == 0 {
        s
    } else {
        let r = remove_all(s.drop_last(), gone);
        if gone.contains(s.last()) {
            r
        } else {
            r.push(s.last())
        }
    }
}

/// Where a cursor at `c` in list `s` stands once the items of `gone` left
/// it one by one: on the same item when that one stays, else on the nearest
/// item before it that stays, else at the end marker (-1).
pub open spec fn cursor_after_remove_all(s: Seq<ItemHandle>, c: int, gone: Set<ItemHandle>) -> int {
    remove_all(s.take(c + 1), gone).len() - 1
}

/// With nothing to remove, `remove_all` keeps the list and the cursor.
pub proof fn lemma_remove_all_none(s: Seq<ItemHandle>, c: int)
    requires
        -1 <= c < s.len(),
    ensures
        remove_all(s, Set::empty()) == s,
        cursor_after_remove_all(s, c, Set::empty()) == c,
    decreases s.len(),
{
    if s.len() > 0 {
        lemma_remove_all_none(s.drop_last(), -1);
        assert(s.drop_last().push(s.last()) =~= s);
    }
    let t = s.take(c + 1);
    if t.len() > 0 {
        lemma_remove_all_none(t.drop_last(), -1);
        assert(t.drop_last().push(t.last()) =~= t);
    }
}

/// In a list without duplicates, the position of an item is the one index
/// that holds it.
pub proof fn lemma_position_unique(s: Seq<ItemHandle>, i: int)
    requires
        s.no_duplicates(),
        0 <= i < s.len(),
    ensures
        position_in(s, s[i]) == i,
{
    let j = position_in(s, s[i]);
    assert(0 <= j < s.len() && s[j] == s[i]);
}

/// What `remove_all` keeps: the items of `s` outside `gone`, no more items
/// than `s` has, and no duplicates when `s` has none.
pub proof fn lemma_remove_all_contains(s: Seq<ItemHandle>, gone: Set<ItemHandle>)
    ensures
        forall|y: ItemHandle| #[trigger] remove_all(s, gone).contains(y) <==> s.contains(y) && !gone.contains(y),
        remove_all(s, gone).len() <= s.len(),
        s.no_duplicates() ==> remove_all(s, gone).no_duplicates(),
    decreases s.len(),
{
    if s.len() > 0 {
        let s1 = s.drop_last();
        let z = s.last();
        lemma_remove_all_contains(s1, gone);
        let r1 = remove_all(s1, gone);
        assert forall|y: ItemHandle| #[trigger] remove_all(s, gone).contains(y) <==> s.contains(y) && !gone.contains(y) by {
            if s.contains(y) {
                let j = choose|j: int| 0 <= j < s.len() && s[j] == y;
                if j < s1.len() {
                    assert(s1[j] == y);
                }
            }
            if s1.contains(y) {
                let j = choose|j: int| 0 <= j < s1.len() && s1[j] == y;
                assert(s[j] == y);
            }
            if !gone.contains(z) {
                assert(r1.push(z)[r1.len() as int] == z);
                if r1.push(z).contains(y) {
                    let j = choose|j: int| 0 <= j < r1.push(z).len() && r1.push(z)[j] == y;
                    if j < r1.len() {
                        assert(r1[j] == y);
                    }
                }
                if r1.contains(y) {
                    let j = choose|j: int| 0 <= j < r1.len() && r1[j] == y;
                    assert(r1.push(z)[j] == y);
                }
            }
        }
        if s.no_duplicates() && !gone.contains(z) {
            assert(s1.no_duplicates()) by {
                assert forall|i: int, j: int| 0 <= i < s1.len() && 0 <= j < s1.len() && i != j implies s1[i] != s1[j] by {
                    assert(s[i] != s[j]);
                }
            }
            assert(!s1.contains(z)) by {
                if s1.contains(z) {
                    let j = choose|j: int| 0 <= j < s1.len() && s1[j] == z;
                    assert(s[j] == s[s.len() - 1]);
                }
            }
            assert(!r1.contains(z));
            let r = r1.push(z);
            assert forall|i: int, j: int| 0 <= i < r.len() && 0 <= j < r.len() && i != j implies r[i] != r[j] by {
                if i < r1.len() && j < r1.len() {
                } else if i < r1.len() {
                    assert(r1.contains(r1[i]));
                } else if j < r1.len() {
                    assert(r1.contains(r1[j]));
                }
            }
        } else if s.no_duplicates() {
            assert(s1.no_duplicates()) by {
                assert forall|i: int, j: int| 0 <= i < s1.len() && 0 <= j < s1.len() && i != j implies s1[i] != s1[j] by {
                    assert(s[i] != s[j]);
                }
            }
        }
    }
}

/// `remove_all` goes part by part.
pub proof fn lemma_remove_all_add(a: Seq<ItemHandle>, b: Seq<ItemHandle>, gone: Set<ItemHandle>)
    ensures
        remove_all(a + b, gone) == remove_all(a, gone) + remove_all(b, gone),
    decreases b.len(),
{
    if b.len() == 0 {
        assert(a + b =~= a);
        assert(remove_all(a, gone) + remove_all(b, gone) =~= remove_all(a, gone));
    } else {
        assert((a + b).drop_last() =~= a + b.drop_last());
        assert((a + b).last() == b.last());
        lemma_remove_all_add(a, b.drop_last(), gone);
        if !gone.contains(b.last()) {
            assert(remove_all(a, gone) + remove_all(b.drop_last(), gone).push(b.last()) =~= (remove_all(a, gone)
                + remove_all(b.drop_last(), gone)).push(b.last()));
        }
    }
}

/// One more item `x` leaving: where `s` holds `x`, the kept items lose it
/// as `list_remove` takes it out; else nothing changes.
pub proof fn lemma_remove_all_step(s: Seq<ItemHandle>, gone: Set<ItemHandle>, x: ItemHandle)
    requires
        s.no_duplicates(),
        !gone.contains(x),
    ensures
        s.contains(x) ==> remove_all(s, gone).contains(x) && remove_all(s, gone.insert(x)) == remove_all(
            s,
            gone,
        ).remove(position_in(remove_all(s, gone), x)),
        !s.contains(x) ==> remove_all(s, gone.insert(x)) == remove_all(s, gone),
    decreases s.len(),
{
    lemma_remove_all_contains(s, gone);
    if s.len() > 0 {
        let s1 = s.drop_last();
        let z = s.last();
        let g2 = gone.insert(x);
        assert(s1.no_duplicates()) by {
            assert forall|i: int, j: int| 0 <= i < s1.len() && 0 <= j < s1.len() && i != j implies s1[i] != s1[j] by {
                assert(s[i] != s[j]);
            }
        }
        assert(!s1.contains(z)) by {
            if s1.contains(z) {
                let j = choose|j: int| 0 <= j < s1.len() && s1[j] == z;
                assert(s[j] == s[s.len() - 1]);
            }
        }
        lemma_remove_all_step(s1, gone, x);
        lemma_remove_all_contains(s1, gone);
        let r1 = remove_all(s1, gone);
        let r = remove_all(s, gone);
        assert(s.contains(x) <==> (s1.contains(x) || z == x)) by {
            if s.contains(x) {
                let j = choose|j: int| 0 <= j < s.len() && s[j] == x;
                if j < s1.len() {
                    assert(s1[j] == x);
                }
            }
            if s1.contains(x) {
                let j = choose|j: int| 0 <= j < s1.len() && s1[j] == x;
                assert(s[j] == x);
            }
            assert(s[s.len() - 1] == z);
        }
        if z == x {
            assert(remove_all(s1, g2) == r1);
            assert(r == r1.push(x));
            assert(!r1.contains(x));
            lemma_position_unique(r, r1.len() as int);
            assert(r[r1.len() as int] == x);
            assert(r.remove(r1.len() as int) =~= r1);
        } else if gone.contains(z) {
            assert(g2.contains(z));
        } else {
            assert(!g2.contains(z));
            if s1.contains(x) {
                let p = position_in(r1, x);
                assert(r1.contains(x));
                assert(0 <= p < r1.len() && r1[p] == x);
                lemma_position_unique(r, p);
                assert(r[p] == x);
                assert(r1.remove(p).push(z) =~= r1.push(z).remove(p));
            }
        }
    }
}

/// The cursor moves with the removals: one more item `x` leaving moves it
/// as `list_remove` moves it, when the list holds `x`.
pub proof fn lemma_remove_all_cursor(s: Seq<ItemHandle>, gone: Set<ItemHandle>, x: ItemHandle, c: int)
    requires
        s.no_duplicates(),
        !gone.contains(x),
        -1 <= c < s.len(),
    ensures
        s.contains(x) ==> cursor_after_remove_all(s, c, gone.insert(x)) == cursor_after_remove(
            cursor_after_remove_all(s, c, gone),
            position_in(remove_all(s, gone), x),
        ),
        !s.contains(x) ==> cursor_after_remove_all(s, c, gone.insert(x)) == cursor_after_remove_all(s, c, gone),
        -1 <= cursor_after_remove_all(s, c, gone) < remove_all(s, gone).len(),
{
    let a = s.take(c + 1);
    let b = s.skip(c + 1);
    assert(s =~= a + b);
    lemma_remove_all_add(a, b, gone);
    lemma_remove_all_add(a, b, gone.insert(x));
    lemma_remove_all_contains(a, gone);
    lemma_remove_all_contains(b, gone);
    lemma_remove_all_contains(s, gone);
    assert(a.no_duplicates()) by {
        assert forall|i: int, j: int| 0 <= i < a.len() && 0 <= j < a.len() && i != j implies a[i] != a[j] by {
            assert(s[i] != s[j]);
        }
    }
    assert(b.no_duplicates()) by {
        assert forall|i: int, j: int| 0 <= i < b.len() && 0 <= j < b.len() && i != j implies b[i] != b[j] by {
            assert(s[i + c + 1] != s[j + c + 1]);
        }
    }
    lemma_remove_all_step(a, gone, x);
    lemma_remove_all_step(b, gone, x);
    let ra = remove_all(a, gone);
    let rb = remove_all(b, gone);
    let r = remove_all(s, gone);
    assert(r == ra + rb);
    if a.contains(x) {
        let p = position_in(ra, x);
        assert(0 <= p < ra.len() && ra[p] == x);
        lemma_position_unique(r, p);
        assert(r[p] == x);
    } else if b.contains(x) {
        let q = position_in(rb, x);
        assert(0 <= q < rb.len() && rb[q] == x);
        lemma_position_unique(r, ra.len() + q);
        assert(r[ra.len() + q] == x);
        assert(s.contains(x)) by {
            let j = choose|j: int| 0 <= j < b.len() && b[j] == x;
            assert(s[j + c + 1] == x);
        }
    }
    if s.contains(x) {
        let j = choose|j: int| 0 <= j < s.len() && s[j] == x;
        if j <= c {
            assert(a[j] == x);
        } else {
            assert(b[j - c - 1] == x);
        }
    }
}

/// `new` differs from `old` at most in the value and the owner of item `x`.
pub open spec fn item_frame(new: &ListStore, old: &ListStore, x: int) -> bool {
    &&& new.num_items() == old.num_items()
    &&& new.num_lists() == old.num_lists()
    &&& forall|k: int|
        0 <= k < new.num_lists() ==> #[trigger] new.seq(k) == old.seq(k) && new.cursor(k)
            == old.cursor(k) && new.end_of(k) == old.end_of(k)
    &&& forall|y: int| 0 <= y < new.num_items() && y != x ==> #[trigger] new.value(y) == old.value(y)
    &&& forall|y: int| 0 <= y < new.num_items() && y != x ==> #[trigger] new.owner(y) == old.owner(y)
    &&& forall|y: int| 0 <= y < new.num_items() ==> #[trigger] new.container(y) == old.container(y)
    &&& forall|y: int| 0 <= y < new.num_items() ==> #[trigger] new.is_end(y) == old.is_end(y)
}

impl ListStore {
    /// Replaces the stored item `x` by `it`, which differs only in value or
    /// owner.
    fn replace_payload(&mut self, x: ItemHandle, it: ListItem)
        requires
            old(self).wf(),
            x < old(self).num_items(),
            it.next == old(self).items@[x as int].next,
            it.prev == old(self).items@[x as int].prev,
            it.container == old(self).items@[x as int].container,
            old(self).is_end(x as int) ==> it.item_value == old(self).items@[x as int].item_value,
        ensures
            final(self).wf(),
            final(self).items@[x as int] == it,
            item_frame(final(self), old(self), x as int),
    {
        let ghost o = *old(self);
        self.items.set(x, it);
        proof {
            assert forall|k: int| 0 <= k < self.lists@.len() implies #[trigger] self.list_wf(k) by {
                assert(o.list_wf(k));
                let e = o.lists@[k].list_end;
                if e == x {
                    assert(o.is_end(x as int));
                    assert(o.lists@[k].list_end == x);
                }
                assert forall|i: int| 0 <= i < self.contents@[k].len() implies #[trigger] self.node_ok(k, i) by {
                    assert(o.node_ok(k, i));
                }
            }
            assert forall|y: int|
                0 <= y < self.items@.len() && (#[trigger] self.items@[y]).container is Some implies {
                let lc = self.items@[y].container->0 as int;
                &&& 0 <= lc < self.lists@.len()
                &&& self.contents@[lc].contains(y as usize)
            } by {
                assert(o.items@[y].container == self.items@[y].container);
            }
            assert forall|k: int| 0 <= k < self.lists@.len() implies #[trigger] self.seq(k) == o.seq(k)
                && self.cursor(k) == o.cursor(k) && self.end_of(k) == o.end_of(k) by {}
            assert forall|y: int| 0 <= y < self.items@.len() implies #[trigger] self.is_end(y) == o.is_end(y) by {
                if self.is_end(y) {
                    let k = choose|k: int| 0 <= k < self.lists@.len() && #[trigger] self.lists@[k].list_end == y;
                    assert(o.lists@[k].list_end == y);
                }
                if o.is_end(y) {
                    let k = choose|k: int| 0 <= k < o.lists@.len() && #[trigger] o.lists@[k].list_end == y;
                    assert(self.lists@[k].list_end == y);
                }
            }
            assert forall|y: int| 0 <= y < self.items@.len() implies #[trigger] self.container(y) == o.container(y) by {}
        }
    }
}

/// The value of item `item`.
pub fn get_list_item_value(store: &ListStore, item: ItemHandle) -> (r: TickType)
    requires
        item < store.num_items(),
    ensures
        r == store.value(item as int),
{
    store.items[item].item_value
}

/// Sets the value of item `item`; an end marker's value cannot change.
pub fn set_list_item_value(store: &mut ListStore, item: ItemHandle, item_value: TickType)
    requires
        old(store).wf(),
        item < old(store).num_items(),
        !old(store).is_end(item as int),
    ensures
        final(store).wf(),
        final(store).value(item as int) == item_value,
        final(store).owner(item as int) == old(store).owner(item as int),
        item_frame(final(store), old(store), item as int),
{
    let mut it = store.items[item];
    it.item_value = item_value;
    store.replace_payload(item, it);
}

/// The list that holds item `item`, if any.
pub fn get_list_item_container(store: &ListStore, item: ItemHandle) -> (r: Option<ListHandle>)
    requires
        item < store.num_items(),
    ensures
        r == store.container(item as int),
{
    store.items[item].container
}

/// The owner of item `item`.
pub fn get_list_item_owner(store: &ListStore, item: ItemHandle) -> (r: usize)
    requires
        item < store.num_items(),
        store.owner(item as int) is Some,
    ensures
        Some(r) == store.owner(item as int),
{
    store.items[item].owner.unwrap()
}

/// Makes task `owner` the owner of item `item`.
pub fn set_list_item_owner(store: &mut ListStore, item: ItemHandle, owner: usize)
    requires
        old(store).wf(),
        item < old(store).num_items(),
    ensures
        final(store).wf(),
        final(store).owner(item as int) == Some(owner),
        final(store).value(item as int) == old(store).value(item as int),
        item_frame(final(store), old(store), item as int),
{
    let mut it = store.items[item];
    it.owner = Some(owner);
    store.replace_payload(item, it);
}

/// Whether list `list` holds no item.
pub fn list_is_empty(store: &ListStore, list: ListHandle) -> (r: bool)
    requires
        store.wf(),
        list < store.num_lists(),
    ensures
        r == (store.seq(list as int).len() == 0),
{
    proof {
        assert(store.list_wf(list as int));
    }
    store.lists[list].number_of_items == 0
}

/// The number of items in list `list`.
pub fn current_list_length(store: &ListStore, list: ListHandle) -> (r: UBaseType)
    requires
        store.wf(),
        list < store.num_lists(),
    ensures
        r == store.seq(list as int).len(),
{
    proof {
        assert(store.list_wf(list as int));
    }
    store.lists[list].number_of_items
}

/// Whether item `item` is in list `list`.
pub fn is_contained_within(store: &ListStore, list: ListHandle, item: ItemHandle) -> (r: bool)
    requires
        store.wf(),
        list < store.num_lists(),
        item < store.num_items(),
    ensures
        r == (store.container(item as int) == Some(list)),
        r == store.seq(list as int).contains(item),
{
    proof {
        store.lemma_wf();
        if store.seq(list as int).contains(item) {
            let i = choose|i: int| 0 <= i < store.seq(list as int).len() && store.seq(list as int)[i] == item;
            assert(store.seq(list as int)[i] == item);
        }
    }
    match store.items[item].container {
        Some(c) => c == list,
        None => false,
    }
}

/// Inserts `item` into `list` just before the item the cursor points at,
/// so that it is the last one a round of `get_owner_of_next_entry` visits;
/// with the cursor at the end marker that is the end of the list.
pub fn list_insert_end(store: &mut ListStore, list: ListHandle, item: ItemHandle)
    requires
        old(store).wf(),
        list < old(store).num_lists(),
        item < old(store).num_items(),
        old(store).container(item as int) is None,
        !old(store).is_end(item as int),
    ensures
        final(store).wf(),
        ({
            let c = old(store).cursor(list as int);
            let p = if c < 0 { old(store).seq(list as int).len() as int } else { c };
            &&& final(store).seq(list as int) == old(store).seq(list as int).insert(p, item)
            &&& final(store).cursor(list as int) == cursor_after_insert(c, p)
        }),
        final(store).container(item as int) == Some(list),
        final(store).frame(old(store), list as int, item as int),
{
    let ghost o = *old(store);
    let ghost s = o.seq(list as int);
    let ghost c = o.cursor(list as int);
    let idx = store.lists[list].index;
    let ghost p = if c < 0 { s.len() as int } else { c };
    proof {
        assert(o.list_wf(list as int));
        o.lemma_wf();
        if idx != o.lists@[list as int].list_end {
            let j = choose|j: int| 0 <= j < s.len() && s[j] == idx;
            o.lemma_cursor_at(list as int, j);
            assert(o.node_ok(list as int, j));
            assert(j == c);
        } else {
            assert(c == -1);
        }
    }
    let prev = store.items[idx].prev;
    store.link_at(list, item, prev, idx, Ghost(p));
    proof {
        store.lemma_wf();
        let t = store.seq(list as int);
        assert(store.lists@[list as int].list_end == o.lists@[list as int].list_end) by {
            assert(store.end_of(list as int) == o.end_of(list as int));
        }
        if c >= 0 {
            assert(t[c + 1] == idx);
            store.lemma_cursor_at(list as int, c + 1);
        } else {
            assert(store.cursor(list as int) == -1);
        }
    }
}

/// Inserts `item` into `list` after every leading item whose value is not
/// greater than its own, and records the list in the item.  On a list sorted
/// by value this keeps it sorted, an item going after the equal ones.
#[verifier::rlimit(40)]
pub fn list_insert(store: &mut ListStore, list: ListHandle, item: ItemHandle)
    requires
        old(store).wf(),
        list < old(store).num_lists(),
        item < old(store).num_items(),
        old(store).container(item as int) is None,
        !old(store).is_end(item as int),
    ensures
        final(store).wf(),
        ({
            let c = old(store).cursor(list as int);
            let p = first_greater(old(store).values(list as int), old(store).value(item as int)) as int;
            &&& final(store).seq(list as int) == old(store).seq(list as int).insert(p, item)
            &&& final(store).cursor(list as int) == cursor_after_insert(c, p)
        }),
        final(store).container(item as int) == Some(list),
        final(store).frame(old(store), list as int, item as int),
{
    let ghost o = *old(store);
    let ghost s = o.seq(list as int);
    let ghost c = o.cursor(list as int);
    let ghost vals = o.values(list as int);
    let v = store.items[item].item_value;
    let e = store.lists[list].list_end;
    proof {
        assert(o.list_wf(list as int));
        o.lemma_wf();
        assert forall|j: int| 0 <= j < s.len() implies #[trigger] vals[j] == o.value(s[j] as int) by {}
    }
    let mut it: ItemHandle = e;
    let mut nxt: ItemHandle = store.items[e].next;
    let ghost mut k: int = 0;
    if v == portMAX_DELAY {
        it = store.items[e].prev;
        nxt = e;
        proof {
            k = s.len() as int;
        }
    } else {
        loop
            invariant_except_break
                0 <= k <= s.len(),
                it == (if k == 0 { e } else { s[k - 1] }),
                nxt == (if k == s.len() { e } else { s[k] }),
                forall|j: int| 0 <= j < k ==> #[trigger] vals[j] <= v,
            invariant
                store.wf(),
                *store == o,
                list < store.num_lists(),
                e == o.lists@[list as int].list_end,
                v != portMAX_DELAY,
                v == o.value(item as int),
                s == o.seq(list as int),
                vals.len() == s.len(),
                forall|j: int| 0 <= j < s.len() ==> #[trigger] vals[j] == o.value(s[j] as int),
            ensures
                is_first_greater(vals, v, k),
                it == (if k == 0 { e } else { s[k - 1] }),
                nxt == (if k == s.len() { e } else { s[k] }),
            decreases s.len() - k,
        {
            proof {
                assert(o.list_wf(list as int));
                if k < s.len() {
                    assert(o.node_ok(list as int, k));
                }
            }
            if store.items[nxt].item_value > v {
                break;
            }
            it = nxt;
            nxt = store.items[nxt].next;
            proof {
                k = k + 1;
            }
        }
    }
    proof {
        lemma_first_greater(vals, v, k);
        assert(o.list_wf(list as int));
        if v == portMAX_DELAY {
            assert(is_first_greater(vals, v, k));
        }
    }
    store.link_at(list, item, it, nxt, Ghost(k));
    proof {
        store.lemma_wf();
        assert(store.lists@[list as int].list_end == o.lists@[list as int].list_end) by {
            assert(store.end_of(list as int) == o.end_of(list as int));
        }
        if c >= 0 {
            let idx = o.lists@[list as int].index;
            let j = choose|j: int| 0 <= j < s.len() && s[j] == idx;
            o.lemma_cursor_at(list as int, j);
            let t = store.seq(list as int);
            if k <= c {
                assert(t[c + 1] == idx);
                store.lemma_cursor_at(list as int, c + 1);
            } else {
                assert(t[c] == idx);
                store.lemma_cursor_at(list as int, c);
            }
        }
    }
}

/// Removes `item` from the list that holds it and returns the number of
/// items left there.  A cursor on the removed item falls back to its
/// predecessor.
pub fn list_remove(store: &mut ListStore, item: ItemHandle) -> (r: UBaseType)
    requires
        old(store).wf(),
        item < old(store).num_items(),
        old(store).container(item as int) is Some,
    ensures
        final(store).wf(),
        ({
            let l = old(store).container(item as int)->0 as int;
            let s = old(store).seq(l);
            let k = position_in(s, item);
            &&& 0 <= k < s.len()
            &&& s[k] == item
            &&& final(store).seq(l) == s.remove(k)
            &&& final(store).cursor(l) == cursor_after_remove(old(store).cursor(l), k)
            &&& r == s.len() - 1
            &&& final(store).frame(old(store), l, item as int)
        }),
        final(store).container(item as int) is None,
{
    let ghost o = *old(store);
    let l = store.items[item].container.unwrap();
    let ghost s = o.seq(l as int);
    let ghost c = o.cursor(l as int);
    let ghost k = position_in(s, item);
    proof {
        o.lemma_wf();
        assert(s.contains(item));
        assert(0 <= k < s.len() && s[k] == item);
        assert(o.list_wf(l as int));
    }
    let r = store.unlink(l, item, Ghost(k));
    proof {
        store.lemma_wf();
        let t = store.seq(l as int);
        let idx = o.lists@[l as int].index;
        let e = o.lists@[l as int].list_end;
        assert(store.lists@[l as int].list_end == e) by {
            assert(store.end_of(l as int) == o.end_of(l as int));
        }
        if c < 0 {
            assert(idx == e);
            assert(store.lists@[l as int].index == e);
        }
        if c >= 0 {
            let j = choose|j: int| 0 <= j < s.len() && s[j] == idx;
            o.lemma_cursor_at(l as int, j);
            if c == k {
                if k > 0 {
                    assert(t[k - 1] == s[k - 1]);
                    store.lemma_cursor_at(l as int, k - 1);
                }
            } else if c > k {
                assert(t[c - 1] == s[c]);
                store.lemma_cursor_at(l as int, c - 1);
            } else {
                assert(t[c] == s[c]);
                store.lemma_cursor_at(l as int, c);
            }
        }
    }
    r
}

/// Moves the cursor of `list` one item on, past the end marker if need be,
/// and returns the owner of the item it lands on: the tasks of a list take
/// turns this way.
pub fn get_owner_of_next_entry(store: &mut ListStore, list: ListHandle) -> (r: usize)
    requires
        old(store).wf(),
        list < old(store).num_lists(),
        old(store).seq(list as int).len() > 0,
        old(store).owner(
            old(store).seq(list as int)[ListStore::next_cursor(
                old(store).cursor(list as int),
                old(store).seq(list as int).len() as int,
            )] as int,
        ) is Some,
    ensures
        final(store).wf(),
        ({
            let n = old(store).seq(list as int).len() as int;
            let c2 = ListStore::next_cursor(old(store).cursor(list as int), n);
            &&& final(store).cursor(list as int) == c2
            &&& Some(r) == old(store).owner(old(store).seq(list as int)[c2] as int)
        }),
        final(store).seq(list as int) == old(store).seq(list as int),
        final(store).frame(old(store), list as int, -1),
{
    let ghost o = *old(store);
    let ghost s = o.seq(list as int);
    let ghost c = o.cursor(list as int);
    let ghost li = list as int;
    let e = store.lists[list].list_end;
    let idx0 = store.lists[list].index;
    proof {
        o.lemma_wf();
        assert(o.list_wf(li));
        if idx0 != e {
            let j = choose|j: int| 0 <= j < s.len() && s[j] == idx0;
            o.lemma_cursor_at(li, j);
            assert(o.node_ok(li, j));
        }
    }
    let mut idx = store.items[idx0].next;
    if idx == e {
        idx = store.items[e].next;
    }
    let ghost c2 = ListStore::next_cursor(c, s.len() as int);
    assert(idx == s[c2]);
    let mut hl = store.lists[list];
    hl.index = idx;
    store.lists.set(list, hl);
    proof {
        assert forall|k: int| 0 <= k < store.lists@.len() implies #[trigger] store.list_wf(k) by {
            assert(o.list_wf(k));
            assert forall|i: int| 0 <= i < store.contents@[k].len() implies #[trigger] store.node_ok(k, i) by {
                assert(o.node_ok(k, i));
            }
        }
        assert(store.wf());
        store.lemma_cursor_at(li, c2);
        assert forall|k: int| 0 <= k < store.lists@.len() && k != li implies
            #[trigger] store.seq(k) == o.seq(k) && store.cursor(k) == o.cursor(k) by {
            assert(store.lists@[k] == o.lists@[k]);
        }
        assert forall|y: int| 0 <= y < store.items@.len() implies
            #[trigger] store.is_end(y) == o.is_end(y) by {
            if store.is_end(y) {
                let k = choose|k: int| 0 <= k < store.lists@.len() && #[trigger] store.lists@[k].list_end == y;
                assert(o.lists@[k].list_end == y);
            }
            if o.is_end(y) {
                let k = choose|k: int| 0 <= k < o.lists@.len() && #[trigger] o.lists@[k].list_end == y;
                assert(store.lists@[k].list_end == y);
            }
        }
        assert forall|k: int| 0 <= k < store.lists@.len() implies
            #[trigger] store.end_of(k) == o.end_of(k) by {}
    }
    store.items[idx].owner.unwrap()
}

/// The owner of the first item of `list`.
pub fn get_owner_of_head_entry(store: &ListStore, list: ListHandle) -> (r: usize)
    requires
        store.wf(),
        list < store.num_lists(),
        store.seq(list as int).len() > 0,
        store.owner(store.seq(list as int)[0] as int) is Some,
    ensures
        Some(r) == store.owner(store.seq(list as int)[0] as int),
{
    proof {
        assert(store.list_wf(list as int));
    }
    proof {
        assert(store.node_ok(list as int, 0));
    }
    let e = store.lists[list].list_end;
    let first = store.items[e].next;
    store.items[first].owner.unwrap()
}

/// A new empty list in `store`.
pub fn vListInitialise(store: &mut ListStore) -> (l: ListHandle)
    requires
        old(store).wf(),
        old(store).num_items() < usize::MAX,
        old(store).num_lists() < usize::MAX,
    ensures
        final(store).wf(),
        l == old(store).num_lists(),
        final(store).num_lists() == old(store).num_lists() + 1,
        final(store).num_items() == old(store).num_items() + 1,
        final(store).seq(l as int) == Seq::<ItemHandle>::empty(),
        final(store).cursor(l as int) == -1,
        final(store).end_of(l as int) == old(store).num_items(),
        final(store).is_end(old(store).num_items() as int),
        final(store).value(old(store).num_items() as int) == portMAX_DELAY,
        final(store).owner(old(store).num_items() as int) is None,
        final(store).container(old(store).num_items() as int) is None,
        forall|k: int|
            #![trigger final(store).seq(k)]
            #![trigger final(store).cursor(k)]
            #![trigger final(store).end_of(k)]
            0 <= k < old(store).num_lists() ==> final(store).seq(k) == old(store).seq(k)
                && final(store).cursor(k) == old(store).cursor(k) && final(store).end_of(k)
                == old(store).end_of(k),
        forall|y: int|
            #![trigger final(store).value(y)]
            #![trigger final(store).owner(y)]
            #![trigger final(store).container(y)]
            #![trigger final(store).is_end(y)]
            0 <= y < old(store).num_items() ==> final(store).value(y) == old(store).value(y)
                && final(store).owner(y) == old(store).owner(y) && final(store).container(y)
                == old(store).container(y) && final(store).is_end(y) == old(store).is_end(y),
{
    store.new_list()
}

/// A new item in `store`: value `portMAX_DELAY`, no owner, in no list.
pub fn vListInitialiseItem(store: &mut ListStore) -> (x: ItemHandle)
    requires
        old(store).wf(),
        old(store).num_items() < usize::MAX,
    ensures
        final(store).wf(),
        x == old(store).num_items(),
        final(store).num_items() == old(store).num_items() + 1,
        final(store).num_lists() == old(store).num_lists(),
        final(store).value(x as int) == portMAX_DELAY,
        final(store).owner(x as int) is None,
        final(store).container(x as int) is None,
        !final(store).is_end(x as int),
        forall|k: int|
            #![trigger final(store).seq(k)]
            #![trigger final(store).cursor(k)]
            #![trigger final(store).end_of(k)]
            0 <= k < old(store).num_lists() ==> final(store).seq(k) == old(store).seq(k)
                && final(store).cursor(k) == old(store).cursor(k),
        forall|y: int|
            #![trigger final(store).value(y)]
            #![trigger final(store).owner(y)]
            #![trigger final(store).container(y)]
            #![trigger final(store).is_end(y)]
            0 <= y < old(store).num_items() ==> final(store).value(y) == old(store).value(y)
                && final(store).owner(y) == old(store).owner(y) && final(store).container(y)
                == old(store).container(y) && final(store).is_end(y) == old(store).is_end(y),
{
    let x = store.add_item(ListItem::default());
    x
}

/// Sorted insertion; the same as `list_insert`.
pub fn vListInsert(store: &mut ListStore, list: ListHandle, item: ItemHandle)
    requires
        old(store).wf(),
        list < old(store).num_lists(),
        item < old(store).num_items(),
        old(store).container(item as int) is None,
        !old(store).is_end(item as int),
    ensures
        final(store).wf(),
        ({
            let c = old(store).cursor(list as int);
            let p = first_greater(old(store).values(list as int), old(store).value(item as int)) as int;
            &&& final(store).seq(list as int) == old(store).seq(list as int).insert(p, item)
            &&& final(store).cursor(list as int) == cursor_after_insert(c, p)
        }),
        final(store).container(item as int) == Some(list),
        final(store).frame(old(store), list as int, item as int),
{
    list_insert(store, list, item)
}

/// Insertion before the cursor; the same as `list_insert_end`.
pub fn vListInsertEnd(store: &mut ListStore, list: ListHandle, item: ItemHandle)
    requires
        old(store).wf(),
        list < old(store).num_lists(),
        item < old(store).num_items(),
        old(store).container(item as int) is None,
        !old(store).is_end(item as int),
    ensures
        final(store).wf(),
        ({
            let c = old(store).cursor(list as int);
            let p = if c < 0 { old(store).seq(list as int).len() as int } else { c };
            &&& final(store).seq(list as int) == old(store).seq(list as int).insert(p, item)
            &&& final(store).cursor(list as int) == cursor_after_insert(c, p)
        }),
        final(store).container(item as int) == Some(list),
        final(store).frame(old(store), list as int, item as int),
{
    list_insert_end(store, list, item)
}

/// Removal; the same as `list_remove`.
pub fn uxListRemove(store: &mut ListStore, item: ItemHandle) -> (r: UBaseType)
    requires
        old(store).wf(),
        item < old(store).num_items(),
        old(store).container(item as int) is Some,
    ensures
        final(store).wf(),
        ({
            let l = old(store).container(item as int)->0 as int;
            let s = old(store).seq(l);
            let k = position_in(s, item);
            &&& 0 <= k < s.len()
            &&& s[k] == item
            &&& final(store).seq(l) == s.remove(k)
            &&& final(store).cursor(l) == cursor_after_remove(old(store).cursor(l), k)
            &&& r == s.len() - 1
            &&& final(store).frame(old(store), l, item as int)
        }),
        final(store).container(item as int) is None,
{
    list_remove(store, item)
}

/// The values `vals` never decrease.
pub open spec fn sorted_values(vals: Seq<TickType>) -> bool {
    forall|i: int, j: int| 0 <= i <= j < vals.len() ==> vals[i] <= vals[j]
}

/// `first_greater` lands where `is_first_greater` says.
proof fn lemma_first_greater_is(vals: Seq<TickType>, v: TickType)
    ensures
        is_first_greater(vals, v, first_greater(vals, v) as int),
    decreases vals.len(),
{
    if vals.len() > 0 && vals[0] <= v {
        let t = vals.drop_first();
        lemma_first_greater_is(t, v);
        let p = first_greater(t, v) as int;
        assert forall|j: int| 0 <= j < p + 1 implies #[trigger] vals[j] <= v by {
            if j > 0 {
                assert(vals[j] == t[j - 1]);
            }
        }
        if p + 1 < vals.len() {
            assert(vals[p + 1] == t[p]);
        }
    }
}

/// A sorted insertion keeps a sorted sequence of values sorted.
pub proof fn law_sorted_insert(vals: Seq<TickType>, v: TickType)
    requires
        sorted_values(vals),
    ensures
        sorted_values(vals.insert(first_greater(vals, v) as int, v)),
{
    lemma_first_greater_is(vals, v);
    let p = first_greater(vals, v) as int;
    let w = vals.insert(p, v);
    assert forall|i: int, j: int| 0 <= i <= j < w.len() implies w[i] <= w[j] by {
        if j < p {
        } else if j == p {
            if i < p {
                assert(vals[i] <= v);
            }
        } else if i < p {
            assert(vals[i] <= v);
            assert(vals[p] > v);
            assert(vals[p] <= vals[j - 1]);
        } else if i == p {
            assert(vals[p] > v);
            assert(vals[p] <= vals[j - 1]);
        } else {
        }
    }
}

/// `list_insert` keeps a list sorted by value: when the values of list `l`
/// were sorted, they still are once `x` went in where `list_insert` puts
/// it.
pub proof fn law_list_insert_keeps_sorted(before: &ListStore, after: &ListStore, l: int, x: ItemHandle)
    requires
        before.wf(),
        0 <= l < before.num_lists(),
        after.num_items() == before.num_items(),
        x < before.num_items(),
        before.container(x as int) is None,
        sorted_values(before.values(l)),
        after.seq(l) == before.seq(l).insert(first_greater(before.values(l), before.value(x as int)) as int, x),
        forall|y: int| 0 <= y < before.num_items() ==> #[trigger] after.value(y) == before.value(y),
    ensures
        sorted_values(after.values(l)),
{
    before.lemma_wf();
    let vals = before.values(l);
    let p = first_greater(vals, before.value(x as int)) as int;
    law_sorted_insert(vals, before.value(x as int));
    lemma_first_greater_is(vals, before.value(x as int));
    assert(after.values(l) =~= vals.insert(p, before.value(x as int))) by {
        assert forall|i: int| 0 <= i < after.seq(l).len() implies #[trigger] after.values(l)[i] == vals.insert(
            p,
            before.value(x as int),
        )[i] by {
            if i < p {
                assert(after.seq(l)[i] == before.seq(l)[i]);
            } else if i > p {
                assert(after.seq(l)[i] == before.seq(l)[i - 1]);
            }
        }
    }
}

/// An item of value `portMAX_DELAY`, the value a new item has, sorts after
/// every item of a list.
pub proof fn law_max_delay_sorts_last(vals: Seq<TickType>)
    ensures
        first_greater(vals, portMAX_DELAY) == vals.len(),
{
    lemma_first_greater(vals, portMAX_DELAY, vals.len() as int);
}

/// The cursor of a list of `n` items after `k` calls of
/// `get_owner_of_next_entry` from `c`.
pub open spec fn cursor_after(c: int, n: int, k: nat) -> int
    decreases k,
{
    if k == 0 {
        c
    } else {
        ListStore::next_cursor(cursor_after(c, n, (k - 1) as nat), n)
    }
}

/// One step of the cursor is one step modulo the length.
proof fn lemma_next_cursor_mod(x: int, n: int)
    requires
        n > 0,
        -1 <= x < n,
    ensures
        ListStore::next_cursor(x, n) == (x + 1) % n,
{
    if x + 1 < n {
        vstd::arithmetic::div_mod::lemma_small_mod((x + 1) as nat, n as nat);
    } else {
        vstd::arithmetic::div_mod::lemma_mod_self_0(n);
    }
}

/// `k >= 1` steps from `c` land on `(c + k) mod n`.
proof fn lemma_cursor_after(c: int, n: int, k: nat)
    requires
        n > 0,
        -1 <= c < n,
        k >= 1,
    ensures
        cursor_after(c, n, k) == (c + k) % n,
    decreases k,
{
    if k == 1 {
        lemma_next_cursor_mod(c, n);
    } else {
        lemma_cursor_after(c, n, (k - 1) as nat);
        let x = cursor_after(c, n, (k - 1) as nat);
        lemma_next_cursor_mod(x, n);
        vstd::arithmetic::div_mod::lemma_add_mod_noop(c + k - 1, 1, n);
        vstd::arithmetic::div_mod::lemma_add_mod_noop(x, 1, n);
        vstd::arithmetic::div_mod::lemma_mod_twice(c + k - 1, n);
    }
}

/// The tasks of a list take turns: `k >= 1` calls of
/// `get_owner_of_next_entry` from cursor `c` land on position `(c + k) mod
/// n`, so every item comes up once in `n` calls and the cursor is then back
/// where it was.
pub proof fn law_round_robin(c: int, n: int, k: nat)
    requires
        n > 0,
        -1 <= c < n,
        k >= 1,
    ensures
        cursor_after(c, n, k) == (c + k) % n,
        c >= 0 ==> cursor_after(c, n, n as nat) == c,
{
    lemma_cursor_after(c, n, k);
    lemma_cursor_after(c, n, n as nat);
    if c >= 0 {
        vstd::arithmetic::div_mod::lemma_mod_add_multiples_vanish(c, n);
        vstd::arithmetic::div_mod::lemma_small_mod(c as nat, n as nat);
    }
}

} // verus!
