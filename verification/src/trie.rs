//! The trie of pattern segments that stores subscriptions and finds the
//! subscribers whose patterns match a topic.

use vstd::prelude::*;
use vstd::laws_eq::obeys_concrete_eq;
use vstd::pervasive::strictly_cloned;

use crate::pattern::{
    Segment, SegmentView, lemma_match_step, multi_only_last, pattern_matches, segment_views,
};
use crate::registry::value_semantics;
use crate::topic::string_views;

verus! {

/// One trie node: the path from the root spells the segments of a pattern prefix.
///
/// Children and subscriber sets are vectors kept free of duplicates (see
/// `wf`) rather than hash maps and hash sets: vstd's specifications of the
/// hashed collections hold only for key types whose hashing it models
/// (integers and the like), not for `String` keys or an arbitrary handle type.
#[derive(Debug)]
pub(crate) struct Node<S> {
    /// Literal-segment children, keyed by the literal.
    children: Vec<(String, Node<S>)>,
    /// Child for the single-level wildcard `+`.
    single: Option<Box<Node<S>>>,
    /// Subscribers whose pattern ends with `#` right below this node.
    multi: Vec<S>,
    /// Subscribers whose pattern ends at this node.
    subscribers: Vec<S>,
}

impl<S> Node<S> {
    /// `x` is stored under the pattern path `p` below this node.
    pub(crate) closed spec fn holds(self, p: Seq<SegmentView>, x: S) -> bool
        decreases p.len(),
    {
        if p.len() == 0 {
            self.subscribers@.contains(x)
        } else {
            match p[0] {
                SegmentView::Multi => p.len() == 1 && self.multi@.contains(x),
                SegmentView::Single => match self.single {
                    Some(c) => c.holds(p.drop_first(), x),
                    None => false,
                },
                SegmentView::Literal(k) => exists|i: int|
                    0 <= i < self.children@.len() && (#[trigger] self.children@[i]).0@ == k
                        && self.children@[i].1.holds(p.drop_first(), x),
            }
        }
    }

    /// Something is stored at or below this node.
    pub(crate) closed spec fn stores_something(self) -> bool {
        exists|p: Seq<SegmentView>, x: S| self.holds(p, x)
    }

    /// No subscriber is stored twice in one place, no two children share a
    /// key, and no branch below the node is left empty.
    pub(crate) closed spec fn wf(self) -> bool
        decreases self,
    {
        &&& self.multi@.no_duplicates()
        &&& self.subscribers@.no_duplicates()
        &&& forall|i: int, j: int|
            0 <= i < j < self.children@.len() ==> (#[trigger] self.children@[i]).0@
                != (#[trigger] self.children@[j]).0@
        &&& forall|i: int|
            0 <= i < self.children@.len() ==> (#[trigger] self.children@[i]).1.wf()
                && self.children@[i].1.stores_something()
        &&& match self.single {
            Some(c) => c.wf() && c.stores_something(),
            None => true,
        }
    }

    /// A node that stores nothing.
    pub(crate) fn new() -> (r: Node<S>)
        ensures
            r.wf(),
            forall|p: Seq<SegmentView>, x: S| !r.holds(p, x),
    {
        let r = Node { children: Vec::new(), single: None, multi: Vec::new(), subscribers: Vec::new() };
        assert forall|p: Seq<SegmentView>, x: S| !r.holds(p, x) by {
            if p.len() > 0 {
                match p[0] {
                    SegmentView::Literal(k) => {},
                    _ => {},
                }
            }
        }
        r
    }

    /// The position of the child keyed by `key`, if any.
    fn find_child(&self, key: &String) -> (r: Option<usize>)
        ensures
            match r {
                Some(i) => i < self.children@.len() && self.children@[i as int].0@ == key@,
                None => forall|i: int|
                    0 <= i < self.children@.len() ==> (#[trigger] self.children@[i]).0@ != key@,
            },
    {
        let n = self.children.len();
        let mut i: usize = 0;
        while i < n
            invariant
                n == self.children@.len(),
                i <= n,
                forall|k: int| 0 <= k < i ==> (#[trigger] self.children@[k]).0@ != key@,
            decreases n - i,
        {
            if self.children[i].0 == *key {
                return Some(i);
            }
            i = i + 1;
        }
        None
    }

    /// Nothing is stored at or below this node.
    fn is_empty(&self) -> (r: bool)
        requires
            self.wf(),
        ensures
            r <==> !self.stores_something(),
    {
        let r = self.children.len() == 0 && self.single.is_none() && self.multi.len() == 0
            && self.subscribers.len() == 0;
        if r {
            assert forall|p: Seq<SegmentView>, x: S| !self.holds(p, x) by {
                if p.len() > 0 {
                    match p[0] {
                        SegmentView::Literal(k) => {},
                        _ => {},
                    }
                }
            }
        } else {
            proof {
                if self.subscribers@.len() > 0 {
                    assert(self.holds(Seq::<SegmentView>::empty(), self.subscribers@[0]));
                } else if self.multi@.len() > 0 {
                    assert(self.holds(seq![SegmentView::Multi], self.multi@[0]));
                } else if self.children@.len() > 0 {
                    let c = self.children@[0];
                    assert(c.1.stores_something());
                    let (q, x) = choose|q: Seq<SegmentView>, x: S| c.1.holds(q, x);
                    let p = seq![SegmentView::Literal(c.0@)] + q;
                    assert(p.drop_first() =~= q);
                    assert(self.holds(p, x));
                } else {
                    let c = self.single.unwrap();
                    assert(c.stores_something());
                    let (q, x) = choose|q: Seq<SegmentView>, x: S| c.holds(q, x);
                    let p = seq![SegmentView::Single] + q;
                    assert(p.drop_first() =~= q);
                    assert(self.holds(p, x));
                }
            }
        }
        r
    }
}

/// Whether `v` holds `x`.
fn vec_contains<S: Clone + PartialEq>(v: &Vec<S>, x: &S) -> (r: bool)
    requires
        value_semantics::<S>(),
    ensures
        r == v@.contains(*x),
{
    let n = v.len();
    let mut i: usize = 0;
    while i < n
        invariant
            n == v@.len(),
            i <= n,
            value_semantics::<S>(),
            forall|k: int| 0 <= k < i ==> v@[k] != *x,
        decreases n - i,
    {
        proof {
            reveal(obeys_concrete_eq);
        }
        if v[i] == *x {
            return true;
        }
        i = i + 1;
    }
    false
}

/// The position of `x` in `v`, if any.
fn vec_position<S: Clone + PartialEq>(v: &Vec<S>, x: &S) -> (r: Option<usize>)
    requires
        value_semantics::<S>(),
    ensures
        match r {
            Some(i) => i < v@.len() && v@[i as int] == *x,
            None => !v@.contains(*x),
        },
{
    let n = v.len();
    let mut i: usize = 0;
    while i < n
        invariant
            n == v@.len(),
            i <= n,
            value_semantics::<S>(),
            forall|k: int| 0 <= k < i ==> v@[k] != *x,
        decreases n - i,
    {
        proof {
            reveal(obeys_concrete_eq);
        }
        if v[i] == *x {
            return Some(i);
        }
        i = i + 1;
    }
    None
}

/// A copy of `x`, equal to it.
fn copy_of<S: Clone + PartialEq>(x: &S) -> (r: S)
    requires
        value_semantics::<S>(),
    ensures
        r == *x,
{
    let r = x.clone();
    assert(strictly_cloned(*x, r));
    r
}

/// Adds `x` to the duplicate-free `v` unless it is already there.
fn insert_value<S: Clone + PartialEq>(v: &mut Vec<S>, x: &S)
    requires
        value_semantics::<S>(),
        old(v)@.no_duplicates(),
    ensures
        final(v)@.no_duplicates(),
        forall|y: S| #[trigger] final(v)@.contains(y) <==> old(v)@.contains(y) || y == *x,
{
    if !vec_contains(v, x) {
        let c = copy_of(x);
        v.push(c);
        assert forall|y: S| #[trigger] v@.contains(y) <==> old(v)@.contains(y) || y == *x by {
            if v@.contains(y) {
                let k = choose|k: int| 0 <= k < v@.len() && v@[k] == y;
                if k < old(v)@.len() {
                    assert(old(v)@[k] == y);
                }
            }
            if old(v)@.contains(y) {
                let k = choose|k: int| 0 <= k < old(v)@.len() && old(v)@[k] == y;
                assert(v@[k] == y);
            }
            if y == *x {
                assert(v@[v@.len() - 1] == y);
            }
        }
    }
}

/// Removes `x` from the duplicate-free `v` if it is there.
fn remove_value<S: Clone + PartialEq>(v: &mut Vec<S>, x: &S)
    requires
        value_semantics::<S>(),
        old(v)@.no_duplicates(),
    ensures
        final(v)@.no_duplicates(),
        forall|y: S| #[trigger] final(v)@.contains(y) <==> old(v)@.contains(y) && y != *x,
{
    if let Some(i) = vec_position(v, x) {
        v.remove(i);
        assert forall|y: S| #[trigger] v@.contains(y) <==> old(v)@.contains(y) && y != *x by {
            if v@.contains(y) {
                let k = choose|k: int| 0 <= k < v@.len() && v@[k] == y;
                if k < i {
                    assert(old(v)@[k] == y);
                } else {
                    assert(old(v)@[k + 1] == y);
                }
            }
            if old(v)@.contains(y) && y != *x {
                let k = choose|k: int| 0 <= k < old(v)@.len() && old(v)@[k] == y;
                if k < i {
                    assert(v@[k] == y);
                } else {
                    assert(k != i);
                    assert(v@[k - 1] == y);
                }
            }
        }
    }
}

/// A pattern path splits into its first segment and the rest.
proof fn lemma_path_split(p: Seq<SegmentView>, q: Seq<SegmentView>)
    requires
        q.len() > 0,
    ensures
        p == q <==> (p.len() > 0 && p[0] == q[0] && p.drop_first() == q.drop_first()),
{
    if p.len() > 0 && p[0] == q[0] && p.drop_first() == q.drop_first() {
        assert(p =~= seq![p[0]] + p.drop_first());
        assert(q =~= seq![q[0]] + q.drop_first());
    }
}

/// Whether a node holds `x` under `p` after `(target, s)` was added to it
/// (`adding`) or taken out of it (otherwise).
spec fn changed_holds<S>(
    before: bool,
    p: Seq<SegmentView>,
    x: S,
    target: Seq<SegmentView>,
    s: S,
    adding: bool,
) -> bool {
    if adding {
        before || (p == target && x == s)
    } else {
        before && !(p == target && x == s)
    }
}

/// Replacing the child at position `i` (keyed `key`) by one in which `s` was
/// added under (or taken out of) `target.drop_first()` does the same to the
/// node under `target`.
proof fn lemma_literal_child_update<S>(
    old: Node<S>,
    new: Node<S>,
    i: int,
    key: Seq<char>,
    target: Seq<SegmentView>,
    s: S,
    adding: bool,
)
    requires
        old.wf(),
        0 <= i < old.children@.len(),
        old.children@[i].0@ == key,
        new.children@.len() == old.children@.len(),
        forall|j: int| 0 <= j < old.children@.len() && j != i ==> new.children@[j] == old.children@[j],
        new.children@[i].0@ == key,
        new.children@[i].1.wf(),
        new.children@[i].1.stores_something(),
        new.single == old.single,
        new.multi == old.multi,
        new.subscribers == old.subscribers,
        target.len() > 0,
        target[0] == SegmentView::Literal(key),
        forall|p: Seq<SegmentView>, x: S|
            #[trigger] new.children@[i].1.holds(p, x) <==> changed_holds(
                old.children@[i].1.holds(p, x),
                p,
                x,
                target.drop_first(),
                s,
                adding,
            ),
    ensures
        new.wf(),
        forall|p: Seq<SegmentView>, x: S|
            #[trigger] new.holds(p, x) <==> changed_holds(old.holds(p, x), p, x, target, s, adding),
{
    assert forall|a: int, b: int| 0 <= a < b < new.children@.len() implies (#[trigger] new.children@[a]).0@
        != (#[trigger] new.children@[b]).0@ by {
        assert(old.children@[a].0@ != old.children@[b].0@);
    }
    assert forall|j: int| 0 <= j < new.children@.len() implies (#[trigger] new.children@[j]).1.wf()
        && new.children@[j].1.stores_something() by {
        if j != i {
            assert(old.children@[j].1.wf() && old.children@[j].1.stores_something());
        }
    }
    assert forall|p: Seq<SegmentView>, x: S|
        #[trigger] new.holds(p, x) <==> changed_holds(old.holds(p, x), p, x, target, s, adding) by {
        lemma_path_split(p, target);
        if p.len() > 0 {
            match p[0] {
                SegmentView::Literal(k) => {
                    let q = p.drop_first();
                    if k == key {
                        assert(new.holds(p, x) == new.children@[i].1.holds(q, x)) by {
                            if new.holds(p, x) {
                                let j = choose|j: int|
                                    0 <= j < new.children@.len() && (#[trigger] new.children@[j]).0@ == k
                                        && new.children@[j].1.holds(q, x);
                                if j != i {
                                    assert(old.children@[j].0@ != old.children@[i].0@) by {
                                        if j < i {
                                            assert(old.children@[j].0@ != old.children@[i].0@);
                                        } else {
                                            assert(old.children@[i].0@ != old.children@[j].0@);
                                        }
                                    }
                                }
                            }
                        }
                        assert(old.holds(p, x) == old.children@[i].1.holds(q, x)) by {
                            if old.holds(p, x) {
                                let j = choose|j: int|
                                    0 <= j < old.children@.len() && (#[trigger] old.children@[j]).0@ == k
                                        && old.children@[j].1.holds(q, x);
                                if j != i {
                                    assert(old.children@[j].0@ != old.children@[i].0@) by {
                                        if j < i {
                                            assert(old.children@[j].0@ != old.children@[i].0@);
                                        } else {
                                            assert(old.children@[i].0@ != old.children@[j].0@);
                                        }
                                    }
                                }
                            }
                        }
                        if p == target && x == s {
                            assert(q == target.drop_first());
                        }
                    } else {
                        if new.holds(p, x) {
                            let j = choose|j: int|
                                0 <= j < new.children@.len() && (#[trigger] new.children@[j]).0@ == k
                                    && new.children@[j].1.holds(q, x);
                            assert(j != i);
                            assert(old.children@[j] == new.children@[j]);
                        }
                        if old.holds(p, x) {
                            let j = choose|j: int|
                                0 <= j < old.children@.len() && (#[trigger] old.children@[j]).0@ == k
                                    && old.children@[j].1.holds(q, x);
                            assert(j != i);
                            assert(old.children@[j] == new.children@[j]);
                        }
                    }
                },
                _ => {},
            }
        }
    }
}

/// Adding a child keyed `key`, which no child had, that stores exactly `s`
/// under `target.drop_first()` adds `s` under `target` to the node.
proof fn lemma_literal_child_added<S>(
    old: Node<S>,
    new: Node<S>,
    key: Seq<char>,
    target: Seq<SegmentView>,
    s: S,
)
    requires
        old.wf(),
        forall|j: int| 0 <= j < old.children@.len() ==> (#[trigger] old.children@[j]).0@ != key,
        new.children@.len() == old.children@.len() + 1,
        forall|j: int| 0 <= j < old.children@.len() ==> new.children@[j] == old.children@[j],
        new.children@.last().0@ == key,
        new.children@.last().1.wf(),
        new.single == old.single,
        new.multi == old.multi,
        new.subscribers == old.subscribers,
        target.len() > 0,
        target[0] == SegmentView::Literal(key),
        forall|p: Seq<SegmentView>, x: S|
            #[trigger] new.children@.last().1.holds(p, x) <==> (p == target.drop_first() && x == s),
    ensures
        new.wf(),
        forall|p: Seq<SegmentView>, x: S|
            #[trigger] new.holds(p, x) <==> old.holds(p, x) || (p == target && x == s),
{
    let last = old.children@.len() as int;
    assert forall|a: int, b: int| 0 <= a < b < new.children@.len() implies (#[trigger] new.children@[a]).0@
        != (#[trigger] new.children@[b]).0@ by {
        if b == last {
            assert(old.children@[a].0@ != key);
        } else {
            assert(old.children@[a].0@ != old.children@[b].0@);
        }
    }
    assert(new.children@[last].1.holds(target.drop_first(), s));
    assert forall|j: int| 0 <= j < new.children@.len() implies (#[trigger] new.children@[j]).1.wf()
        && new.children@[j].1.stores_something() by {
        if j != last {
            assert(old.children@[j].1.wf() && old.children@[j].1.stores_something());
        }
    }
    assert forall|p: Seq<SegmentView>, x: S|
        #[trigger] new.holds(p, x) <==> old.holds(p, x) || (p == target && x == s) by {
        lemma_path_split(p, target);
        if p.len() > 0 {
            match p[0] {
                SegmentView::Literal(k) => {
                    let q = p.drop_first();
                    if new.holds(p, x) {
                        let j = choose|j: int|
                            0 <= j < new.children@.len() && (#[trigger] new.children@[j]).0@ == k
                                && new.children@[j].1.holds(q, x);
                        if j != last {
                            assert(old.children@[j] == new.children@[j]);
                        }
                    }
                    if old.holds(p, x) {
                        let j = choose|j: int|
                            0 <= j < old.children@.len() && (#[trigger] old.children@[j]).0@ == k
                                && old.children@[j].1.holds(q, x);
                        assert(old.children@[j] == new.children@[j]);
                    }
                    if p == target && x == s {
                        assert(new.children@[last].0@ == k);
                        assert(new.children@[last].1.holds(q, x));
                    }
                },
                _ => {},
            }
        }
    }
}

/// Registers `subscriber` under the pattern path `segments[pi..]` below `node`.
pub(crate) fn insert_pattern<S: Clone + PartialEq>(
    node: &mut Node<S>,
    segments: &[Segment],
    pi: usize,
    subscriber: &S,
)
    requires
        value_semantics::<S>(),
        old(node).wf(),
        pi <= segments@.len(),
        multi_only_last(segment_views(segments@)),
    ensures
        final(node).wf(),
        forall|p: Seq<SegmentView>, x: S|
            #[trigger] final(node).holds(p, x) <==> old(node).holds(p, x) || (p == segment_views(
                segments@,
            ).skip(pi as int) && x == *subscriber),
    decreases segments@.len() - pi,
{
    let ghost target = segment_views(segments@).skip(pi as int);
    let ghost old_node = *node;
    if pi == segments.len() {
        insert_value(&mut node.subscribers, subscriber);
        assert(target =~= Seq::<SegmentView>::empty());
        assert forall|p: Seq<SegmentView>, x: S|
            #[trigger] node.holds(p, x) <==> old_node.holds(p, x) || (p == target && x == *subscriber) by {
            if p.len() > 0 {
                assert(p != target);
            } else {
                assert(p =~= target);
            }
        }
        return;
    }
    assert(target[0] == segments@[pi as int]@);
    match &segments[pi] {
        Segment::Multi => {
            insert_value(&mut node.multi, subscriber);
            proof {
                assert(pi == segments@.len() - 1) by {
                    if pi < segments@.len() - 1 {
                        assert(!(segment_views(segments@)[pi as int] is Multi));
                    }
                }
                assert(target =~= seq![SegmentView::Multi]);
                assert forall|p: Seq<SegmentView>, x: S|
                    #[trigger] node.holds(p, x) <==> old_node.holds(p, x) || (p == target && x
                        == *subscriber) by {
                    lemma_path_split(p, target);
                    if p.len() > 0 {
                        match p[0] {
                            SegmentView::Multi => {
                                if p.len() == 1 {
                                    assert(p.drop_first() =~= target.drop_first());
                                }
                            },
                            _ => {},
                        }
                    }
                }
            }
        },
        Segment::Single => {
            let mut child = match node.single.take() {
                Some(b) => *b,
                None => Node::new(),
            };
            let ghost old_child = child;
            insert_pattern(&mut child, segments, pi + 1, subscriber);
            node.single = Some(Box::new(child));
            proof {
                assert(target.drop_first() =~= segment_views(segments@).skip(pi + 1));
                assert(child.holds(target.drop_first(), *subscriber));
                assert forall|p: Seq<SegmentView>, x: S|
                    #[trigger] node.holds(p, x) <==> old_node.holds(p, x) || (p == target && x
                        == *subscriber) by {
                    lemma_path_split(p, target);
                    if p.len() > 0 {
                        match p[0] {
                            SegmentView::Single => {
                                assert(node.holds(p, x) == child.holds(p.drop_first(), x));
                                assert(old_node.holds(p, x) == old_child.holds(p.drop_first(), x));
                            },
                            SegmentView::Literal(k) => {
                                assert(node.children == old_node.children);
                            },
                            _ => {},
                        }
                    }
                }
            }
        },
        Segment::Literal(lit) => {
            match node.find_child(lit) {
                Some(i) => {
                    let mut entry: (String, Node<S>) = (String::new(), Node::new());
                    node.children.set_and_swap(i, &mut entry);
                    let ghost old_child = entry.1;
                    insert_pattern(&mut entry.1, segments, pi + 1, subscriber);
                    let ghost new_entry = entry;
                    node.children.set(i, entry);
                    proof {
                        assert(node.children@ == old_node.children@.update(i as int, new_entry));
                        assert(old_node.children@[i as int].1 == old_child);
                        assert(target.drop_first() =~= segment_views(segments@).skip(pi + 1));
                        assert(new_entry.1.holds(target.drop_first(), *subscriber));
                        lemma_literal_child_update(old_node, *node, i as int, lit@, target, *subscriber, true);
                    }
                },
                None => {
                    let mut child = Node::new();
                    let ghost old_child = child;
                    insert_pattern(&mut child, segments, pi + 1, subscriber);
                    let key = lit.clone();
                    node.children.push((key, child));
                    proof {
                        assert(target.drop_first() =~= segment_views(segments@).skip(pi + 1));
                        lemma_literal_child_added(old_node, *node, lit@, target, *subscriber);
                    }
                },
            }
        },
    }
}

/// Dropping the child at position `i` (keyed `key`) once taking `s` out from
/// under `target.drop_first()` left it storing nothing takes `s` out from
/// under `target` in the node.
proof fn lemma_emptied_child_dropped<S>(
    old: Node<S>,
    new: Node<S>,
    i: int,
    emptied: Node<S>,
    key: Seq<char>,
    target: Seq<SegmentView>,
    s: S,
)
    requires
        old.wf(),
        0 <= i < old.children@.len(),
        old.children@[i].0@ == key,
        forall|p: Seq<SegmentView>, x: S| !emptied.holds(p, x),
        forall|p: Seq<SegmentView>, x: S|
            #[trigger] emptied.holds(p, x) <==> old.children@[i].1.holds(p, x) && !(p
                == target.drop_first() && x == s),
        new.children@ == old.children@.remove(i),
        new.single == old.single,
        new.multi == old.multi,
        new.subscribers == old.subscribers,
        target.len() > 0,
        target[0] == SegmentView::Literal(key),
    ensures
        new.wf(),
        forall|p: Seq<SegmentView>, x: S|
            #[trigger] new.holds(p, x) <==> old.holds(p, x) && !(p == target && x == s),
{
    assert forall|a: int, b: int| 0 <= a < b < new.children@.len() implies (#[trigger] new.children@[a]).0@
        != (#[trigger] new.children@[b]).0@ by {
        let oa = if a < i { a } else { a + 1 };
        let ob = if b < i { b } else { b + 1 };
        assert(new.children@[a] == old.children@[oa]);
        assert(new.children@[b] == old.children@[ob]);
        assert(old.children@[oa].0@ != old.children@[ob].0@);
    }
    assert forall|j: int| 0 <= j < new.children@.len() implies (#[trigger] new.children@[j]).1.wf()
        && new.children@[j].1.stores_something() by {
        let oj = if j < i { j } else { j + 1 };
        assert(new.children@[j] == old.children@[oj]);
        assert(old.children@[oj].1.wf() && old.children@[oj].1.stores_something());
    }
    assert forall|p: Seq<SegmentView>, x: S|
        #[trigger] new.holds(p, x) <==> old.holds(p, x) && !(p == target && x == s) by {
        lemma_path_split(p, target);
        if p.len() > 0 {
            match p[0] {
                SegmentView::Literal(k) => {
                    let q = p.drop_first();
                    if new.holds(p, x) {
                        let j = choose|j: int|
                            0 <= j < new.children@.len() && (#[trigger] new.children@[j]).0@ == k
                                && new.children@[j].1.holds(q, x);
                        let oj = if j < i { j } else { j + 1 };
                        assert(new.children@[j] == old.children@[oj]);
                        assert(oj != i);
                        assert(k != key) by {
                            if oj < i {
                                assert(old.children@[oj].0@ != old.children@[i].0@);
                            } else {
                                assert(old.children@[i].0@ != old.children@[oj].0@);
                            }
                        }
                    }
                    if old.holds(p, x) {
                        let j = choose|j: int|
                            0 <= j < old.children@.len() && (#[trigger] old.children@[j]).0@ == k
                                && old.children@[j].1.holds(q, x);
                        if j == i {
                            assert(!emptied.holds(q, x));
                            assert(q == target.drop_first() && x == s);
                        } else {
                            let nj = if j < i { j } else { j - 1 };
                            assert(new.children@[nj] == old.children@[j]);
                        }
                    }
                },
                _ => {},
            }
        }
    }
}

/// Takes `subscriber` out from under the pattern path `segments[pi..]` below
/// `node`, dropping children left empty.
pub(crate) fn remove_pattern<S: Clone + PartialEq>(
    node: &mut Node<S>,
    segments: &[Segment],
    pi: usize,
    subscriber: &S,
)
    requires
        value_semantics::<S>(),
        old(node).wf(),
        pi <= segments@.len(),
        multi_only_last(segment_views(segments@)),
    ensures
        final(node).wf(),
        forall|p: Seq<SegmentView>, x: S|
            #[trigger] final(node).holds(p, x) <==> old(node).holds(p, x) && !(p == segment_views(
                segments@,
            ).skip(pi as int) && x == *subscriber),
    decreases segments@.len() - pi,
{
    let ghost target = segment_views(segments@).skip(pi as int);
    let ghost old_node = *node;
    if pi == segments.len() {
        remove_value(&mut node.subscribers, subscriber);
        assert(target =~= Seq::<SegmentView>::empty());
        assert forall|p: Seq<SegmentView>, x: S|
            #[trigger] node.holds(p, x) <==> old_node.holds(p, x) && !(p == target && x == *subscriber) by {
            if p.len() > 0 {
                assert(p != target);
            } else {
                assert(p =~= target);
            }
        }
        return;
    }
    assert(target[0] == segments@[pi as int]@);
    match &segments[pi] {
        Segment::Multi => {
            remove_value(&mut node.multi, subscriber);
            proof {
                assert(pi == segments@.len() - 1) by {
                    if pi < segments@.len() - 1 {
                        assert(!(segment_views(segments@)[pi as int] is Multi));
                    }
                }
                assert(target =~= seq![SegmentView::Multi]);
                assert forall|p: Seq<SegmentView>, x: S|
                    #[trigger] node.holds(p, x) <==> old_node.holds(p, x) && !(p == target && x
                        == *subscriber) by {
                    lemma_path_split(p, target);
                    if p.len() > 0 {
                        match p[0] {
                            SegmentView::Multi => {
                                if p.len() == 1 {
                                    assert(p.drop_first() =~= target.drop_first());
                                }
                            },
                            _ => {},
                        }
                    }
                }
            }
        },
        Segment::Single => {
            match node.single.take() {
                Some(b) => {
                    let mut child = *b;
                    let ghost old_child = child;
                    remove_pattern(&mut child, segments, pi + 1, subscriber);
                    let empty = child.is_empty();
                    if !empty {
                        node.single = Some(Box::new(child));
                    }
                    proof {
                        assert(target.drop_first() =~= segment_views(segments@).skip(pi + 1));
                        assert forall|p: Seq<SegmentView>, x: S|
                            #[trigger] node.holds(p, x) <==> old_node.holds(p, x) && !(p == target
                                && x == *subscriber) by {
                            lemma_path_split(p, target);
                            if p.len() > 0 {
                                match p[0] {
                                    SegmentView::Single => {
                                        assert(old_node.holds(p, x) == old_child.holds(p.drop_first(), x));
                                        if !empty {
                                            assert(node.holds(p, x) == child.holds(p.drop_first(), x));
                                        } else {
                                            assert(!child.holds(p.drop_first(), x));
                                        }
                                    },
                                    SegmentView::Literal(k) => {
                                        assert(node.children == old_node.children);
                                    },
                                    _ => {},
                                }
                            }
                        }
                    }
                },
                None => {
                    proof {
                        assert forall|p: Seq<SegmentView>, x: S|
                            #[trigger] node.holds(p, x) <==> old_node.holds(p, x) && !(p == target
                                && x == *subscriber) by {
                            lemma_path_split(p, target);
                            if p.len() > 0 {
                                match p[0] {
                                    SegmentView::Literal(k) => {
                                        assert(node.children == old_node.children);
                                    },
                                    _ => {},
                                }
                            }
                        }
                    }
                },
            }
        },
        Segment::Literal(lit) => {
            match node.find_child(lit) {
                Some(i) => {
                    let mut entry: (String, Node<S>) = (String::new(), Node::new());
                    node.children.set_and_swap(i, &mut entry);
                    remove_pattern(&mut entry.1, segments, pi + 1, subscriber);
                    proof {
                        assert(target.drop_first() =~= segment_views(segments@).skip(pi + 1));
                    }
                    if entry.1.is_empty() {
                        let ghost emptied = entry.1;
                        node.children.remove(i);
                        proof {
                            assert(node.children@ =~= old_node.children@.remove(i as int));
                            lemma_emptied_child_dropped(old_node, *node, i as int, emptied, lit@, target, *subscriber);
                        }
                    } else {
                        let ghost new_entry = entry;
                        node.children.set(i, entry);
                        proof {
                            assert(node.children@ == old_node.children@.update(i as int, new_entry));
                            lemma_literal_child_update(old_node, *node, i as int, lit@, target, *subscriber, false);
                        }
                    }
                },
                None => {
                    proof {
                        assert forall|p: Seq<SegmentView>, x: S|
                            #[trigger] node.holds(p, x) <==> old_node.holds(p, x) && !(p == target
                                && x == *subscriber) by {
                            if p == target && old_node.holds(p, x) {
                                let j = choose|j: int|
                                    0 <= j < old_node.children@.len() && (#[trigger] old_node.children@[j]).0@
                                        == lit@ && old_node.children@[j].1.holds(p.drop_first(), x);
                                assert(old_node.children@[j].0@ != lit@);
                            }
                        }
                    }
                },
            }
        },
    }
}

/// The patterns under which `node` stores `x` and that match the levels `t`.
pub(crate) open spec fn matched<S>(node: Node<S>, t: Seq<Seq<char>>, x: S) -> Set<Seq<SegmentView>> {
    Set::new(|p: Seq<SegmentView>| node.holds(p, x) && pattern_matches(p, t))
}

/// `{[#]}` when `x` is stored under `#` right below `node`, else nothing.
spec fn multi_part<S>(node: Node<S>, x: S) -> Set<Seq<SegmentView>> {
    if node.multi@.contains(x) {
        set![seq![SegmentView::Multi]]
    } else {
        Set::empty()
    }
}

/// `{[]}` when `x` is stored at `node` itself, else nothing.
spec fn here_part<S>(node: Node<S>, x: S) -> Set<Seq<SegmentView>> {
    if node.subscribers@.contains(x) {
        set![Seq::<SegmentView>::empty()]
    } else {
        Set::empty()
    }
}

/// Every path in `m`, with `g` put in front.
spec fn prefixed(m: Set<Seq<SegmentView>>, g: SegmentView) -> Set<Seq<SegmentView>> {
    m.map(|q: Seq<SegmentView>| seq![g] + q)
}

/// A stored path has `#` only in last position.
proof fn lemma_holds_multi_last<S>(node: Node<S>, p: Seq<SegmentView>, x: S)
    requires
        node.holds(p, x),
    ensures
        multi_only_last(p),
    decreases p.len(),
{
    if p.len() > 0 {
        let q = p.drop_first();
        match p[0] {
            SegmentView::Multi => {},
            SegmentView::Single => {
                let c = node.single.unwrap();
                lemma_holds_multi_last(*c, q, x);
            },
            SegmentView::Literal(k) => {
                let j = choose|j: int|
                    0 <= j < node.children@.len() && (#[trigger] node.children@[j]).0@ == k
                        && node.children@[j].1.holds(q, x);
                lemma_holds_multi_last(node.children@[j].1, q, x);
            },
        }
        assert forall|i: int| 0 <= i < p.len() - 1 implies !(#[trigger] p[i] is Multi) by {
            if i > 0 {
                assert(p[i] == q[i - 1]);
            }
        }
    }
}

/// Putting `g` in front of `q`: the path starts with `g` and continues with `q`.
proof fn lemma_prefixed_contains(m: Set<Seq<SegmentView>>, g: SegmentView, p: Seq<SegmentView>)
    ensures
        prefixed(m, g).contains(p) <==> (p.len() > 0 && p[0] == g && m.contains(p.drop_first())),
{
    if p.len() > 0 && p[0] == g && m.contains(p.drop_first()) {
        assert(seq![g] + p.drop_first() =~= p);
    }
    if prefixed(m, g).contains(p) {
        let q = choose|q: Seq<SegmentView>| m.contains(q) && seq![g] + q == p;
        assert((seq![g] + q).drop_first() =~= q);
    }
}

/// Prefixing a finite set keeps its size.
proof fn lemma_prefixed_len(m: Set<Seq<SegmentView>>, g: SegmentView)
    requires
        m.finite(),
    ensures
        prefixed(m, g).finite(),
        prefixed(m, g).len() == m.len(),
{
    let f = |q: Seq<SegmentView>| seq![g] + q;
    assert(vstd::relations::injective_on(f, m)) by {
        assert forall|a: Seq<SegmentView>, b: Seq<SegmentView>|
            m.contains(a) && m.contains(b) && #[trigger] f(a) == #[trigger] f(b) implies a == b by {
            assert(f(a).drop_first() =~= a);
            assert(f(b).drop_first() =~= b);
        }
    }
    vstd::set_lib::lemma_map_size(m, prefixed(m, g), f);
}

/// At the end of the topic, `x` matches through `#` right here or by ending here.
proof fn lemma_matched_at_end<S>(node: Node<S>, t: Seq<Seq<char>>, x: S)
    requires
        t.len() == 0,
    ensures
        matched(node, t, x) == multi_part(node, x) + here_part(node, x),
{
    assert forall|p: Seq<SegmentView>|
        #[trigger] matched(node, t, x).contains(p) <==> (multi_part(node, x) + here_part(node, x)).contains(p) by {
        if node.holds(p, x) {
            lemma_holds_multi_last(node, p, x);
            lemma_match_step(p, t);
        }
        if p.len() > 0 && p[0] is Multi && p.len() == 1 {
            assert(p =~= seq![SegmentView::Multi]);
        }
        if p.len() == 0 {
            assert(p =~= Seq::<SegmentView>::empty());
            lemma_match_step(p, t);
        }
        if p == seq![SegmentView::Multi] {
            lemma_match_step(p, t);
        }
    }
    assert(matched(node, t, x) =~= multi_part(node, x) + here_part(node, x));
}

/// Before the end of the topic, `x` matches through `#` right here, through
/// the child keyed by the next level, or through the `+` child.
proof fn lemma_matched_below<S>(node: Node<S>, t: Seq<Seq<char>>, x: S, li: Option<int>)
    requires
        node.wf(),
        t.len() > 0,
        match li {
            Some(i) => 0 <= i < node.children@.len() && node.children@[i].0@ == t[0],
            None => forall|j: int|
                0 <= j < node.children@.len() ==> (#[trigger] node.children@[j]).0@ != t[0],
        },
    ensures
        matched(node, t, x) == multi_part(node, x) + literal_part(node, t, x, li) + single_part(
            node,
            t,
            x,
        ),
{
    let u = t.drop_first();
    let rhs = multi_part(node, x) + literal_part(node, t, x, li) + single_part(node, t, x);
    assert forall|p: Seq<SegmentView>| #[trigger] matched(node, t, x).contains(p) <==> rhs.contains(p) by {
        if p.len() == 0 {
            lemma_match_step(p, t);
            if let Some(i) = li {
                lemma_prefixed_contains(matched(node.children@[i].1, u, x), SegmentView::Literal(t[0]), p);
            }
            if let Some(c) = node.single {
                lemma_prefixed_contains(matched(*c, u, x), SegmentView::Single, p);
            }
        } else {
            let q = p.drop_first();
            if let Some(i) = li {
                lemma_prefixed_contains(matched(node.children@[i].1, u, x), SegmentView::Literal(t[0]), p);
            }
            if let Some(c) = node.single {
                lemma_prefixed_contains(matched(*c, u, x), SegmentView::Single, p);
            }
            if node.holds(p, x) {
                lemma_holds_multi_last(node, p, x);
                lemma_match_step(p, t);
            }
            match p[0] {
                SegmentView::Multi => {
                    if p.len() == 1 {
                        assert(p =~= seq![SegmentView::Multi]);
                        lemma_match_step(p, t);
                    }
                },
                SegmentView::Single => {
                    if let Some(c) = node.single {
                        if c.holds(q, x) {
                            lemma_holds_multi_last(*c, q, x);
                            lemma_holds_multi_last(node, p, x);
                            lemma_match_step(p, t);
                        }
                    }
                },
                SegmentView::Literal(k) => {
                    if node.holds(p, x) {
                        let j = choose|j: int|
                            0 <= j < node.children@.len() && (#[trigger] node.children@[j]).0@ == k
                                && node.children@[j].1.holds(q, x);
                        if k == t[0] {
                            match li {
                                Some(i) => {
                                    if j != i {
                                        if j < i {
                                            assert(node.children@[j].0@ != node.children@[i].0@);
                                        } else {
                                            assert(node.children@[i].0@ != node.children@[j].0@);
                                        }
                                    }
                                },
                                None => {
                                    assert(node.children@[j].0@ != t[0]);
                                },
                            }
                        }
                    }
                    if let Some(i) = li {
                        if k == t[0] && node.children@[i].1.holds(q, x) {
                            assert(node.holds(p, x));
                            lemma_holds_multi_last(node, p, x);
                            lemma_match_step(p, t);
                        }
                    }
                },
            }
        }
    }
    assert(matched(node, t, x) =~= rhs);
}

/// The matches through the child keyed by the next level, if there is one.
spec fn literal_part<S>(node: Node<S>, t: Seq<Seq<char>>, x: S, li: Option<int>) -> Set<Seq<SegmentView>> {
    match li {
        Some(i) => prefixed(matched(node.children@[i].1, t.drop_first(), x), SegmentView::Literal(t[0])),
        None => Set::empty(),
    }
}

/// The matches through the `+` child, if there is one.
spec fn single_part<S>(node: Node<S>, t: Seq<Seq<char>>, x: S) -> Set<Seq<SegmentView>> {
    match node.single {
        Some(c) => prefixed(matched(*c, t.drop_first(), x), SegmentView::Single),
        None => Set::empty(),
    }
}

/// A prefix of a prefix is a prefix.
proof fn lemma_prefix_trans<S>(a: Seq<S>, b: Seq<S>, c: Seq<S>)
    requires
        b.len() >= a.len(),
        b.take(a.len() as int) == a,
        c.len() >= b.len(),
        c.take(b.len() as int) == b,
    ensures
        c.take(a.len() as int) == a,
{
    assert forall|i: int| 0 <= i < a.len() implies c.take(a.len() as int)[i] == a[i] by {
        assert(c.take(b.len() as int)[i] == c[i]);
        assert(b.take(a.len() as int)[i] == b[i]);
    }
    assert(c.take(a.len() as int) =~= a);
}

/// Appends copies of every element of `src` to `out`.
fn append_all<S: Clone + PartialEq>(out: &mut Vec<S>, src: &Vec<S>)
    requires
        value_semantics::<S>(),
    ensures
        final(out)@ == old(out)@ + src@,
{
    let n = src.len();
    let mut i: usize = 0;
    while i < n
        invariant
            value_semantics::<S>(),
            n == src@.len(),
            i <= n,
            out@ == old(out)@ + src@.take(i as int),
        decreases n - i,
    {
        let c = copy_of(&src[i]);
        out.push(c);
        assert(src@.take(i + 1) =~= src@.take(i as int).push(src@[i as int]));
        assert(old(out)@ + src@.take(i + 1) =~= (old(out)@ + src@.take(i as int)).push(src@[i as int]));
        i = i + 1;
    }
    assert(src@.take(n as int) =~= src@);
}

/// In a duplicate-free sequence an element occurs once or not at all.
proof fn lemma_count_unique<S>(s: Seq<S>, x: S)
    requires
        s.no_duplicates(),
    ensures
        s.to_multiset().count(x) == if s.contains(x) { 1nat } else { 0nat },
{
    broadcast use vstd::seq_lib::group_to_multiset_ensures;

    s.lemma_multiset_has_no_duplicates();
}

/// Sizes of the small sets used when counting matches.
proof fn lemma_part_sizes<S>(node: Node<S>, x: S)
    ensures
        multi_part(node, x).finite(),
        multi_part(node, x).len() == if node.multi@.contains(x) { 1nat } else { 0nat },
        here_part(node, x).finite(),
        here_part(node, x).len() == if node.subscribers@.contains(x) { 1nat } else { 0nat },
{
}

/// Appends every subscriber stored below `node` whose pattern matches the
/// topic levels from `depth` on, once per matching pattern.
pub(crate) fn collect_matches<S: Clone + PartialEq>(
    node: &Node<S>,
    topic: &[String],
    depth: usize,
    out: &mut Vec<S>,
)
    requires
        value_semantics::<S>(),
        node.wf(),
        depth <= topic@.len(),
    ensures
        final(out)@.len() >= old(out)@.len(),
        final(out)@.take(old(out)@.len() as int) == old(out)@,
        forall|x: S| #[trigger] matched(*node, string_views(topic@).skip(depth as int), x).finite(),
        forall|x: S|
            #[trigger] final(out)@.to_multiset().count(x) == old(out)@.to_multiset().count(x) + matched(
                *node,
                string_views(topic@).skip(depth as int),
                x,
            ).len(),
    decreases topic@.len() - depth,
{
    broadcast use vstd::seq_lib::group_to_multiset_ensures;

    let ghost t = string_views(topic@).skip(depth as int);
    let ghost start = out@;
    append_all(out, &node.multi);
    let ghost after_multi = out@;
    assert(after_multi.take(start.len() as int) =~= start);
    assert forall|x: S| #[trigger] after_multi.to_multiset().count(x) == start.to_multiset().count(x)
        + multi_part(*node, x).len() by {
        vstd::seq_lib::lemma_multiset_commutative(start, node.multi@);
        lemma_count_unique(node.multi@, x);
        lemma_part_sizes(*node, x);
    }
    if depth == topic.len() {
        append_all(out, &node.subscribers);
        assert(out@.take(start.len() as int) =~= start);
        assert forall|x: S|
            #![trigger out@.to_multiset().count(x)]
            #![trigger matched(*node, t, x)]
            matched(*node, t, x).finite() && out@.to_multiset().count(x)
            == start.to_multiset().count(x) + matched(*node, t, x).len() by {
            vstd::seq_lib::lemma_multiset_commutative(after_multi, node.subscribers@);
            lemma_count_unique(node.subscribers@, x);
            lemma_part_sizes(*node, x);
            lemma_matched_at_end(*node, t, x);
            assert(multi_part(*node, x).disjoint(here_part(*node, x))) by {
                assert forall|p: Seq<SegmentView>| multi_part(*node, x).contains(p) implies !here_part(
                    *node,
                    x,
                ).contains(p) by {
                    assert(p.len() == 1);
                }
            }
            vstd::set_lib::lemma_set_disjoint_lens(multi_part(*node, x), here_part(*node, x));
        }
        return;
    }
    let seg = &topic[depth];
    assert(t.len() > 0 && t[0] == seg@);
    assert(t.drop_first() =~= string_views(topic@).skip(depth + 1));
    let found = node.find_child(seg);
    let ghost li: Option<int> = match found {
        Some(i) => Some(i as int),
        None => None,
    };
    match found {
        Some(i) => {
            collect_matches(&node.children[i].1, topic, depth + 1, out);
        },
        None => {
            assert(out@.take(after_multi.len() as int) =~= after_multi);
        },
    }
    let ghost after_literal = out@;
    proof {
        lemma_prefix_trans(start, after_multi, after_literal);
    }
    assert forall|x: S| #[trigger] literal_part(*node, t, x, li).finite() && after_literal.to_multiset().count(x)
        == after_multi.to_multiset().count(x) + literal_part(*node, t, x, li).len() by {
        match li {
            Some(i) => {
                assert(matched(node.children@[i].1, t.drop_first(), x).finite());
                lemma_prefixed_len(matched(node.children@[i].1, t.drop_first(), x), SegmentView::Literal(t[0]));
            },
            None => {},
        }
    }
    match &node.single {
        Some(child) => {
            collect_matches(child, topic, depth + 1, out);
        },
        None => {
            assert(out@.take(after_literal.len() as int) =~= after_literal);
        },
    }
    proof {
        lemma_prefix_trans(start, after_literal, out@);
    }
    assert forall|x: S|
        #![trigger out@.to_multiset().count(x)]
        #![trigger matched(*node, t, x)]
        matched(*node, t, x).finite() && out@.to_multiset().count(x)
        == start.to_multiset().count(x) + matched(*node, t, x).len() by {
        match node.single {
            Some(c) => {
                assert(matched(*c, t.drop_first(), x).finite());
                lemma_prefixed_len(matched(*c, t.drop_first(), x), SegmentView::Single);
            },
            None => {},
        }
        assert(single_part(*node, t, x).finite());
        assert(out@.to_multiset().count(x) == after_literal.to_multiset().count(x) + single_part(*node, t, x).len());
        assert(literal_part(*node, t, x, li).finite());
        lemma_part_sizes(*node, x);
        lemma_matched_below(*node, t, x, li);
        let a = multi_part(*node, x);
        let b = literal_part(*node, t, x, li);
        let c = single_part(*node, t, x);
        assert(a.disjoint(b)) by {
            assert forall|p: Seq<SegmentView>| a.contains(p) implies !b.contains(p) by {
                if let Some(i) = li {
                    lemma_prefixed_contains(matched(node.children@[i].1, t.drop_first(), x), SegmentView::Literal(t[0]), p);
                }
            }
        }
        assert((a + b).disjoint(c)) by {
            assert forall|p: Seq<SegmentView>| (a + b).contains(p) implies !c.contains(p) by {
                if let Some(i) = li {
                    lemma_prefixed_contains(matched(node.children@[i].1, t.drop_first(), x), SegmentView::Literal(t[0]), p);
                }
                if let Some(cc) = node.single {
                    lemma_prefixed_contains(matched(*cc, t.drop_first(), x), SegmentView::Single, p);
                }
            }
        }
        vstd::set_lib::lemma_set_disjoint_lens(a, b);
        vstd::set_lib::lemma_set_disjoint_lens(a + b, c);
    }
}

} // verus!
