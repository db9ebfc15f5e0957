//! The configuration tree of entries and the walk over it.

use vstd::prelude::*;

verus! {

/// A node of the configuration: where a value is stored and how it is
/// obtained. The children are held with their keys; in a well-formed entry
/// no key occurs twice (see [`Entry::wf`]). Where a value ends up is
/// decided by its path, not by the place of its entry.
#[derive(Debug)]
pub struct Entry {
    pub convert: Option<String>,
    pub children: Option<Vec<(u32, Entry)>>,
    pub data_type: Option<String>,
    pub json_path: Option<String>,
    pub literal: Option<String>,
    pub name: String,
    pub oid: Vec<u32>,
    pub unit: Option<String>,
}

/// The entries of a keyed list, in its order.
pub open spec fn entries_of(p: Seq<(u32, Entry)>) -> Seq<Entry> {
    Seq::new(p.len(), |i: int| p[i].1)
}

/// The children of an entry, in the order in which they are held.
pub open spec fn children_of(e: Entry) -> Seq<Entry> {
    match e.children {
        Some(c) => entries_of(c@),
        None => Seq::empty(),
    }
}

/// The entries below `e`, in the order in which the walk visits them.
pub open spec fn below(e: Entry) -> Seq<Entry>
    decreases e,
{
    match e.children {
        Some(c) => walk_pairs(c@, c@.len() as int),
        None => Seq::empty(),
    }
}

/// The walk over the first `n` entries of a keyed list and all that is
/// below them: the last entry first, then what is below it, then the rest.
pub open spec fn walk_pairs(p: Seq<(u32, Entry)>, n: int) -> Seq<Entry>
    decreases p, n,
{
    if 0 < n <= p.len() {
        seq![p[n - 1].1] + below(p[n - 1].1) + walk_pairs(p, n - 1)
    } else {
        Seq::empty()
    }
}

/// The walk that a work list stands for: its last entry, then what is
/// below that entry, then the walk of the rest of the list.
pub open spec fn walk_stack(st: Seq<Entry>) -> Seq<Entry>
    decreases st.len(),
{
    if st.len() == 0 {
        Seq::empty()
    } else {
        seq![st.last()] + below(st.last()) + walk_stack(st.drop_last())
    }
}

/// The walk of two work lists joined is the walk of the second, then that
/// of the first.
pub proof fn lemma_walk_stack_concat(a: Seq<Entry>, b: Seq<Entry>)
    ensures
        walk_stack(a + b) == walk_stack(b) + walk_stack(a),
    decreases b.len(),
{
    if b.len() == 0 {
        assert(a + b =~= a);
        assert(walk_stack(b) + walk_stack(a) =~= walk_stack(a));
    } else {
        assert((a + b).drop_last() =~= a + b.drop_last());
        assert((a + b).last() == b.last());
        lemma_walk_stack_concat(a, b.drop_last());
        assert(walk_stack(a + b) =~= walk_stack(b) + walk_stack(a));
    }
}

/// A work list made of the first `n` entries of a keyed list walks as the
/// keyed list does.
pub proof fn lemma_walk_stack_pairs(p: Seq<(u32, Entry)>, n: int)
    requires
        0 <= n <= p.len(),
    ensures
        walk_stack(entries_of(p).take(n)) == walk_pairs(p, n),
    decreases n,
{
    if n > 0 {
        let st = entries_of(p).take(n);
        assert(st.drop_last() =~= entries_of(p).take(n - 1));
        assert(st.last() == p[n - 1].1);
        lemma_walk_stack_pairs(p, n - 1);
    }
}

/// The number of entries in the tree under `e`, `e` counted.
pub open spec fn nodes(e: Entry) -> nat
    decreases e,
{
    match e.children {
        Some(c) => 1 + nodes_in(c@, c@.len() as int),
        None => 1,
    }
}

/// The number of entries in the trees under the first `n` entries of a
/// keyed list.
pub open spec fn nodes_in(p: Seq<(u32, Entry)>, n: int) -> nat
    decreases p, n,
{
    if 0 < n <= p.len() {
        nodes(p[n - 1].1) + nodes_in(p, n - 1)
    } else {
        0
    }
}

/// The walk is as long as there are entries: none is visited twice unless
/// one is left out.
pub proof fn lemma_walk_counts(p: Seq<(u32, Entry)>, n: int)
    requires
        0 <= n <= p.len(),
    ensures
        walk_pairs(p, n).len() == nodes_in(p, n),
    decreases p, n,
{
    if n > 0 {
        lemma_below_counts(p[n - 1].1);
        lemma_walk_counts(p, n - 1);
    }
}

/// Below an entry the walk is as long as there are entries.
pub proof fn lemma_below_counts(e: Entry)
    ensures
        below(e).len() + 1 == nodes(e),
    decreases e,
{
    match e.children {
        Some(c) => {
            lemma_walk_counts(c@, c@.len() as int);
        },
        None => {},
    }
}

/// The walk leaves nothing out: it holds each entry of the list, and all
/// that the walk below that entry holds.
pub proof fn lemma_walk_holds(p: Seq<(u32, Entry)>, n: int, j: int)
    requires
        0 <= j < n <= p.len(),
    ensures
        walk_pairs(p, n).contains(p[j].1),
        forall|x: Entry| below(p[j].1).contains(x) ==> walk_pairs(p, n).contains(x),
    decreases n,
{
    let w = walk_pairs(p, n);
    let head = seq![p[n - 1].1] + below(p[n - 1].1);
    let tail = walk_pairs(p, n - 1);
    assert(w == head + tail);
    if j == n - 1 {
        assert(w[0] == p[j].1);
        assert forall|x: Entry| below(p[j].1).contains(x) implies w.contains(x) by {
            let k = choose|k: int| 0 <= k < below(p[j].1).len() && below(p[j].1)[k] == x;
            assert(w[k + 1] == x);
        }
    } else {
        lemma_walk_holds(p, n - 1, j);
        let k = choose|k: int| 0 <= k < tail.len() && tail[k] == p[j].1;
        assert(w[head.len() + k] == p[j].1);
        assert forall|x: Entry| below(p[j].1).contains(x) implies w.contains(x) by {
            assert(walk_pairs(p, n - 1).contains(x));
            let m = choose|m: int| 0 <= m < tail.len() && tail[m] == x;
            assert(w[head.len() + m] == x);
        }
    }
}

/// No key occurs twice in the keyed list.
pub open spec fn distinct_keys(p: Seq<(u32, Entry)>) -> bool {
    forall|i: int, j: int| 0 <= i < j < p.len() ==> (#[trigger] p[i]).0 != (#[trigger] p[j]).0
}

/// No key occurs twice among the children of the entry.
pub open spec fn distinct_children(e: Entry) -> bool {
    match e.children {
        Some(c) => distinct_keys(c@),
        None => true,
    }
}

/// The keyed list is a mapping, and so are the children of every entry in
/// the trees under it: nowhere does a key occur twice among siblings.
pub open spec fn well_keyed(p: Seq<(u32, Entry)>) -> bool {
    &&& distinct_keys(p)
    &&& forall|k: int|
        0 <= k < walk_pairs(p, p.len() as int).len() ==> distinct_children(
            #[trigger] walk_pairs(p, p.len() as int)[k],
        )
}

impl Entry {
    /// Nowhere in the tree under the entry does a key occur twice among
    /// siblings.
    pub open spec fn wf(&self) -> bool {
        &&& distinct_children(*self)
        &&& forall|k: int| 0 <= k < below(*self).len() ==> distinct_children(#[trigger] below(*self)[k])
    }
}

/// Whether no key occurs twice in the keyed list.
pub fn keys_distinct(list: &Vec<(u32, Entry)>) -> (r: bool)
    ensures
        r == distinct_keys(list@),
{
    let n = list.len();
    let mut i: usize = 0;
    while i < n
        invariant
            n == list@.len(),
            0 <= i <= n,
            forall|a: int, b: int| 0 <= a < b < n && a < i ==> (#[trigger] list@[a]).0 != (
            #[trigger] list@[b]).0,
        decreases n - i,
    {
        let mut j: usize = i + 1;
        while j < n
            invariant
                n == list@.len(),
                i < j <= n,
                forall|b: int| i < b < j ==> list@[i as int].0 != (#[trigger] list@[b]).0,
            decreases n - j,
        {
            if list[i].0 == list[j].0 {
                assert(list@[i as int].0 == list@[j as int].0);
                return false;
            }
            j += 1;
        }
        i += 1;
    }
    true
}

/// Whether no key occurs twice among the children of the entry.
pub fn children_distinct(e: &Entry) -> (r: bool)
    ensures
        r == distinct_children(*e),
{
    match &e.children {
        Some(c) => keys_distinct(c),
        None => true,
    }
}

/// The walk over a tree of entries, with an explicit work list.
pub struct RecursiveIterator<'a> {
    // These items will be visited in the future.
    stack: Vec<&'a Entry>,
}

impl<'a> View for RecursiveIterator<'a> {
    type V = Seq<Entry>;

    /// The work list: the entries that wait to be visited, the next one
    /// last.
    closed spec fn view(&self) -> Seq<Entry> {
        Seq::new(self.stack@.len(), |i: int| *self.stack@[i])
    }
}

impl<'a> RecursiveIterator<'a> {
    /// The entries that are still to come, in the order in which `next`
    /// will hand them out.
    pub open spec fn remaining(&self) -> Seq<Entry> {
        walk_stack(self@)
    }

    /// A walk over `root` and all that is below it.
    pub fn new(root: &'a Vec<(u32, Entry)>) -> (it: Self)
        ensures
            it@ == entries_of(root@),
            it.remaining() == walk_pairs(root@, root@.len() as int),
    {
        let mut stack: Vec<&'a Entry> = Vec::new();
        let mut i: usize = 0;
        while i < root.len()
            invariant
                0 <= i <= root.len(),
                stack@.len() == i,
                forall|j: int| 0 <= j < i ==> *stack@[j] == root@[j].1,
            decreases root.len() - i,
        {
            stack.push(&root[i].1);
            i += 1;
        }
        let it = RecursiveIterator { stack };
        proof {
            assert(it@ =~= entries_of(root@));
            assert(entries_of(root@).take(root@.len() as int) =~= entries_of(root@));
            lemma_walk_stack_pairs(root@, root@.len() as int);
        }
        it
    }

    /// Hands out the next entry of the walk and puts its children on the
    /// work list; `None` when the walk is over.
    pub fn next(&mut self) -> (r: Option<&'a Entry>)
        ensures
            match r {
                Some(e) => {
                    &&& old(self)@.len() > 0
                    &&& *e == old(self)@.last()
                    &&& final(self)@ == old(self)@.drop_last() + children_of(*e)
                    &&& old(self).remaining() == seq![*e] + final(self).remaining()
                },
                None => {
                    &&& old(self)@.len() == 0
                    &&& final(self)@ == old(self)@
                    &&& old(self).remaining().len() == 0
                },
            },
    {
        let ghost before = self@;
        match self.stack.pop() {
            None => {
                assert(self@ =~= before);
                None
            },
            Some(entry) => {
                let ghost rest = self@;
                assert(rest =~= before.drop_last());
                assert(*entry == before.last());
                match &entry.children {
                    None => {
                        assert(self@ =~= rest + children_of(*entry));
                    },
                    Some(children) => {
                        let mut i: usize = 0;
                        while i < children.len()
                            invariant
                                0 <= i <= children.len(),
                                self@ == rest + entries_of(children@).take(i as int),
                            decreases children.len() - i,
                        {
                            let ghost prev = self@;
                            self.stack.push(&children[i].1);
                            assert(self@ =~= prev.push(children@[i as int].1));
                            assert(entries_of(children@).take(i as int + 1) =~= entries_of(
                                children@,
                            ).take(i as int).push(children@[i as int].1));
                            assert(self@ =~= rest + entries_of(children@).take(i as int + 1));
                            i += 1;
                        }
                        assert(entries_of(children@).take(children@.len() as int) =~= entries_of(
                            children@,
                        ));
                        proof {
                            lemma_walk_stack_pairs(children@, children@.len() as int);
                        }
                    },
                }
                proof {
                    lemma_walk_stack_concat(rest, children_of(*entry));
                    assert(walk_stack(children_of(*entry)) == below(*entry));
                    assert(walk_stack(before) =~= seq![*entry] + walk_stack(self@));
                }
                Some(entry)
            },
        }
    }
}

/// Whether the keyed list is a mapping, and the children of every entry
/// under it too.
pub fn is_well_keyed(root: &Vec<(u32, Entry)>) -> (r: bool)
    ensures
        r == well_keyed(root@),
{
    if !keys_distinct(root) {
        return false;
    }
    let mut walk = RecursiveIterator::new(root);
    let ghost order = walk.remaining();
    let ghost mut i: int = 0;
    assert(order.skip(0) =~= order);
    loop
        invariant
            order == walk_pairs(root@, root@.len() as int),
            distinct_keys(root@),
            0 <= i <= order.len(),
            order.skip(i) == walk.remaining(),
            forall|k: int| 0 <= k < i ==> distinct_children(#[trigger] order[k]),
        ensures
            well_keyed(root@),
        decreases walk.remaining().len(),
    {
        let ghost rest = walk.remaining();
        match walk.next() {
            None => {
                break ;
            },
            Some(entry) => {
                assert(rest == seq![*entry] + walk.remaining());
                assert(rest[0] == *entry);
                assert(order[i] == order.skip(i)[0]);
                assert(walk.remaining() =~= rest.skip(1));
                assert(order.skip(i).skip(1) =~= order.skip(i + 1));
                if !children_distinct(entry) {
                    assert(!distinct_children(order[i]));
                    return false;
                }
                proof {
                    i = i + 1;
                }
            },
        }
    }
    true
}

} // verus!
