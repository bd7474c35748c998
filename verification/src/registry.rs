//! Subscription registry: the trie of subscriptions plus a reverse index
//! from each subscriber to its patterns.

use vstd::prelude::*;
use vstd::laws_eq::obeys_concrete_eq;
use vstd::pervasive::strictly_cloned;

use crate::pattern::{Pattern, PatternView, SegmentView, pattern_matches, segment_views};
use crate::topic::{Topic, string_views};
use crate::trie::{Node, collect_matches, insert_pattern, matched, remove_pattern};

verus! {

/// Subscriber handles behave as plain values: `==` on them is equality, and a
/// clone equals its original. Integers, for example, qualify.
pub open spec fn value_semantics<S: Clone + PartialEq>() -> bool {
    &&& obeys_concrete_eq::<S>()
    &&& forall|a: S, b: S| #[trigger] strictly_cloned(a, b) ==> a == b
}

/// What a [`Registry`] stands for.
#[verifier::reject_recursive_types(S)]
pub struct RegistryView<S> {
    /// The (pattern segments, subscriber) pairs the trie stores: these decide matching.
    pub entries: Set<(Seq<SegmentView>, S)>,
    /// For each subscriber, the patterns it was registered under.
    pub patterns: Map<S, Set<PatternView>>,
}

/// `s` is registered under the pattern `p`.
pub open spec fn is_subscribed<S>(v: RegistryView<S>, p: PatternView, s: S) -> bool {
    v.patterns.contains_key(s) && v.patterns[s].contains(p)
}

/// The registry after `subscribe(p, s)`.
pub open spec fn after_subscribe<S>(v: RegistryView<S>, p: PatternView, s: S) -> RegistryView<S> {
    RegistryView {
        entries: v.entries.insert((p.segments, s)),
        patterns: v.patterns.insert(
            s,
            if v.patterns.contains_key(s) {
                v.patterns[s].insert(p)
            } else {
                set![p]
            },
        ),
    }
}

/// The registry after `unsubscribe(p, s)`: the route of `p`'s levels to `s`
/// goes only when no other pattern of `s` with the same levels stays registered.
pub open spec fn after_unsubscribe<S>(v: RegistryView<S>, p: PatternView, s: S) -> RegistryView<S> {
    if !is_subscribed(v, p, s) {
        v
    } else {
        RegistryView {
            entries: if exists|q: PatternView|
                v.patterns[s].remove(p).contains(q) && q.segments == p.segments {
                v.entries
            } else {
                v.entries.remove((p.segments, s))
            },
            patterns: if v.patterns[s].remove(p).is_empty() {
                v.patterns.remove(s)
            } else {
                v.patterns.insert(s, v.patterns[s].remove(p))
            },
        }
    }
}

/// The registry after `unsubscribe_all(s)`.
pub open spec fn after_unsubscribe_all<S>(v: RegistryView<S>, s: S) -> RegistryView<S> {
    if !v.patterns.contains_key(s) {
        v
    } else {
        RegistryView {
            entries: v.entries.filter(
                |e: (Seq<SegmentView>, S)|
                    !(e.1 == s && exists|q: PatternView| v.patterns[s].contains(q) && q.segments == e.0),
            ),
            patterns: v.patterns.remove(s),
        }
    }
}

/// The patterns under which `x` is stored that match the topic levels `t`.
pub open spec fn matching_patterns<S>(v: RegistryView<S>, t: Seq<Seq<char>>, x: S) -> Set<Seq<SegmentView>> {
    Set::new(|p: Seq<SegmentView>| v.entries.contains((p, x)) && pattern_matches(p, t))
}

/// Every stored pair comes from a pattern in the reverse index.
pub open spec fn index_covers_entries<S>(v: RegistryView<S>) -> bool {
    forall|p: Seq<SegmentView>, x: S|
        #[trigger] v.entries.contains((p, x)) ==> v.patterns.contains_key(x) && exists|q: PatternView|
            v.patterns[x].contains(q) && q.segments == p
}

/// Each subscriber listed in the reverse index has a finite, non-empty set of patterns.
pub open spec fn index_sets_nonempty<S>(v: RegistryView<S>) -> bool {
    forall|s: S|
        #[trigger] v.patterns.contains_key(s) ==> v.patterns[s].finite() && !v.patterns[s].is_empty()
}

/// Every registered pattern routes its levels to its subscriber.
pub open spec fn index_routes_registered<S>(v: RegistryView<S>) -> bool {
    forall|s: S, q: PatternView|
        v.patterns.contains_key(s) && #[trigger] v.patterns[s].contains(q) ==> v.entries.contains(
            (q.segments, s),
        )
}

/// The shape of every reachable registry: the stored routes are exactly the
/// levels of the registered patterns, and each listed subscriber has patterns.
pub open spec fn consistent<S>(v: RegistryView<S>) -> bool {
    &&& index_covers_entries(v)
    &&& index_routes_registered(v)
    &&& index_sets_nonempty(v)
}

/// The state of a registry: the trie of routes and the reverse index.
///
/// The reverse index is a vector of (subscriber, patterns) entries with
/// distinct subscribers and duplicate-free pattern lists, rather than a hash
/// map of hash sets: vstd's hashed-collection specifications cover only key
/// types whose hashing it models, not an arbitrary handle type or `Pattern`.
#[derive(Debug)]
struct Inner<S> {
    root: Node<S>,
    /// Reverse index: each subscriber with the patterns it is registered under.
    by_subscriber: Vec<(S, Vec<Pattern>)>,
}

impl<S> View for Inner<S> {
    type V = RegistryView<S>;

    closed spec fn view(&self) -> RegistryView<S> {
        RegistryView {
            entries: Set::new(|e: (Seq<SegmentView>, S)| self.root.holds(e.0, e.1)),
            patterns: index_view(self.by_subscriber@),
        }
    }
}

impl<S: Clone + Eq + std::hash::Hash> Inner<S> {
    /// The registry's invariant: handles with value semantics; a trie with
    /// distinct child keys, no subscriber stored twice in one place and no
    /// empty branch; a reverse index with one entry per subscriber holding a
    /// non-empty list of distinct well-formed patterns; and every stored pair
    /// accounted for by the index.
    closed spec fn wf(&self) -> bool {
        &&& value_semantics::<S>()
        &&& self.root.wf()
        &&& keys_distinct(self.by_subscriber@)
        &&& entries_ok(self.by_subscriber@)
        &&& index_covers_entries(self@)
        &&& index_routes_registered(self@)
    }

    /// Create an empty registry.
    fn new() -> (r: Inner<S>)
        requires
            value_semantics::<S>(),
        ensures
            r.wf(),
            r@.entries == Set::<(Seq<SegmentView>, S)>::empty(),
            r@.patterns == Map::<S, Set<PatternView>>::empty(),
    {
        let r = Inner { root: Node::new(), by_subscriber: Vec::new() };
        assert(r@.entries =~= Set::<(Seq<SegmentView>, S)>::empty());
        assert(r@.patterns =~= Map::<S, Set<PatternView>>::empty());
        r
    }

    /// Register `subscriber` under `pattern`.
    ///
    /// Subscribing the same `(pattern, subscriber)` pair again changes nothing.
    fn subscribe(&mut self, pattern: Pattern, subscriber: S)
        requires
            old(self).wf(),
        ensures
            final(self).wf(),
            final(self)@ == after_subscribe(old(self)@, pattern@, subscriber),
    {
        proof {
            use_type_invariant(&pattern);
        }
        let ghost old_view = self@;
        let ghost old_index = self.by_subscriber@;
        let ghost segs = pattern@.segments;
        let ghost pv = pattern@;
        let ghost pat = pattern;
        let path = pattern.segments();
        insert_pattern(&mut self.root, path, 0, &subscriber);
        proof {
            assert(segment_views(path@).skip(0) =~= segs);
            assert(self@.entries =~= old_view.entries.insert((segs, subscriber)));
        }
        let ghost new_set: Set<PatternView> = if old_view.patterns.contains_key(subscriber) {
            old_view.patterns[subscriber].insert(pv)
        } else {
            set![pv]
        };
        match self.find_subscriber(&subscriber) {
            Some(i) => {
                proof {
                    lemma_index_lookup(old_index, i as int);
                }
                let (s, mut pats) = self.by_subscriber.remove(i);
                let ghost old_pats = pats@;
                proof {
                    lemma_index_drop(old_index, i as int);
                }
                if pattern_position(&pats, &pattern).is_none() {
                    pats.push(pattern);
                    proof {
                        lemma_pattern_set_push(old_pats, pat);
                        assert(pats@.map_values(|p: Pattern| p@) =~= old_pats.map_values(|p: Pattern| p@).push(pv));
                        let mv = old_pats.map_values(|p: Pattern| p@);
                        assert forall|j: int| 0 <= j < mv.len() implies #[trigger] mv[j] != pv by {
                            assert(old_pats[j]@ != pv);
                        }
                    }
                } else {
                    proof {
                        lemma_pattern_set_contains(old_pats, pv);
                        assert(pattern_set(old_pats).insert(pv) =~= pattern_set(old_pats));
                    }
                }
                let ghost mid = self.by_subscriber@;
                proof {
                    assert(pattern_set(pats@) == new_set);
                    assert forall|k: int| 0 <= k < mid.len() implies (#[trigger] mid[k]).0 != s by {
                        let ok = if k < i { k } else { k + 1 };
                        assert(mid[k] == old_index[ok]);
                        assert(ok != i);
                        if ok < i {
                            assert(old_index[ok].0 != old_index[i as int].0);
                        } else {
                            assert(old_index[i as int].0 != old_index[ok].0);
                        }
                    }
                }
                let ghost last_pats = pats@;
                proof {
                    assert(last_pats.len() > 0);
                    assert(last_pats.map_values(|p: Pattern| p@).no_duplicates());
                    assert forall|j: int| 0 <= j < last_pats.len() implies (#[trigger] last_pats[j]).inv() by {
                        if j < old_pats.len() {
                            assert(old_pats[j] == old_index[i as int].1@[j]);
                        }
                    }
                }
                self.by_subscriber.push((s, pats));
                proof {
                    lemma_entries_ok_remove(old_index, i as int);
                    assert(entry_ok(last_pats));
                    lemma_entries_ok_push(mid, (s, pats));
                    lemma_index_push(mid, (s, pats));
                    assert(self@.patterns =~= old_view.patterns.insert(subscriber, new_set));
                }
            },
            None => {
                let mut pats: Vec<Pattern> = Vec::new();
                pats.push(pattern);
                proof {
                    assert(pats@.map_values(|p: Pattern| p@) =~= seq![pv]);
                    assert(pats@ =~= seq![pat]);
                    assert(pats@[0]@ == pv);
                    assert(pattern_set(pats@) =~= set![pv]) by {
                        lemma_pattern_set_contains(pats@, pv);
                        assert forall|q: PatternView| pattern_set(pats@).contains(q) implies q == pv by {
                            lemma_pattern_set_contains(pats@, q);
                        }
                    }
                    assert(!old_view.patterns.contains_key(subscriber));
                    lemma_index_push(old_index, (subscriber, pats));
                    assert(pats@[0].inv());
                }
                self.by_subscriber.push((subscriber, pats));
                proof {
                    lemma_entries_ok_push(old_index, (subscriber, pats));
                }
            },
        }
        proof {
            assert(self@ == after_subscribe(old_view, pv, subscriber));
            lemma_subscribe_consistent(old_view, pv, subscriber);
        }
    }

    /// Remove `subscriber` from `pattern`.
    ///
    /// Returns `true` if the subscription existed.
    fn unsubscribe(&mut self, pattern: &Pattern, subscriber: &S) -> (r: bool)
        requires
            old(self).wf(),
        ensures
            final(self).wf(),
            r == is_subscribed(old(self)@, pattern@, *subscriber),
            final(self)@ == after_unsubscribe(old(self)@, pattern@, *subscriber),
    {
        let ghost old_view = self@;
        let ghost old_index = self.by_subscriber@;
        let ghost pv = pattern@;
        let i = match self.find_subscriber(subscriber) {
            Some(i) => i,
            None => {
                return false;
            },
        };
        proof {
            lemma_index_lookup(old_index, i as int);
        }
        let j = match pattern_position(&self.by_subscriber[i].1, pattern) {
            Some(j) => j,
            None => {
                proof {
                    lemma_pattern_set_contains(old_index[i as int].1@, pv);
                }
                return false;
            },
        };
        proof {
            lemma_pattern_set_contains(old_index[i as int].1@, pv);
            lemma_index_drop(old_index, i as int);
        }
        let (s, mut pats) = self.by_subscriber.remove(i);
        let ghost old_pats = pats@;
        pats.remove(j);
        proof {
            lemma_pattern_set_remove(old_pats, j as int);
            assert(old_pats[j as int]@ == pv);
        }
        let ghost new_set = pattern_set(pats@);
        let shared = shares_levels(&pats, pattern);
        proof {
            assert(old_pats == old_index[i as int].1@);
            assert(old_view.patterns[*subscriber] == pattern_set(old_pats));
            assert(new_set == old_view.patterns[*subscriber].remove(pv));
            if shared {
                let k = choose|k: int| 0 <= k < pats@.len() && (#[trigger] pats@[k])@.segments == pv.segments;
                lemma_pattern_set_contains(pats@, pats@[k]@);
            }
            if exists|q: PatternView| new_set.contains(q) && q.segments == pv.segments {
                let q = choose|q: PatternView| new_set.contains(q) && q.segments == pv.segments;
                lemma_pattern_set_contains(pats@, q);
            }
            assert(shared == exists|q: PatternView|
                old_view.patterns[*subscriber].remove(pv).contains(q) && q.segments == pv.segments);
        }
        let ghost mid = self.by_subscriber@;
        if pats.len() > 0 {
            proof {
                assert forall|k: int| 0 <= k < mid.len() implies (#[trigger] mid[k]).0 != s by {
                    let ok = if k < i { k } else { k + 1 };
                    assert(mid[k] == old_index[ok]);
                    if ok < i {
                        assert(old_index[ok].0 != old_index[i as int].0);
                    } else {
                        assert(old_index[i as int].0 != old_index[ok].0);
                    }
                }
                assert forall|k: int| 0 <= k < pats@.len() implies (#[trigger] pats@[k]).inv() by {
                    let ok = if k < j { k } else { k + 1 };
                    assert(pats@[k] == old_pats[ok]);
                }
                assert(pats@[0]@ == pats@.map_values(|p: Pattern| p@)[0]);
                assert(pattern_set(pats@).contains(pats@[0]@));
            }
            self.by_subscriber.push((s, pats));
            proof {
                lemma_index_push(mid, (s, pats));
                assert(!new_set.is_empty());
                assert(self@.patterns =~= old_view.patterns.insert(*subscriber, new_set));
                lemma_entries_ok_remove(old_index, i as int);
                lemma_entries_ok_push(mid, (s, pats));
            }
        } else {
            proof {
                assert(new_set =~= Set::<PatternView>::empty()) by {
                    assert forall|q: PatternView| !new_set.contains(q) by {
                        lemma_pattern_set_contains(pats@, q);
                    }
                }
                lemma_entries_ok_remove(old_index, i as int);
            }
        }
        if !shared {
            proof {
                use_type_invariant(pattern);
            }
            let path = pattern.segments();
            remove_pattern(&mut self.root, path, 0, subscriber);
            proof {
                assert(segment_views(path@).skip(0) =~= pv.segments);
                assert(self@.entries =~= old_view.entries.remove((pv.segments, *subscriber)));
            }
        } else {
            assert(self@.entries =~= old_view.entries);
        }
        proof {
            assert(self@ == after_unsubscribe(old_view, pv, *subscriber));
            lemma_unsubscribe_consistent(old_view, pv, *subscriber);
        }
        true
    }

    /// Remove `subscriber` from every pattern it is registered under.
    ///
    /// Returns the number of patterns removed.
    fn unsubscribe_all(&mut self, subscriber: &S) -> (r: usize)
        requires
            old(self).wf(),
        ensures
            final(self).wf(),
            r == if old(self)@.patterns.contains_key(*subscriber) {
                old(self)@.patterns[*subscriber].len()
            } else {
                0
            },
            final(self)@ == after_unsubscribe_all(old(self)@, *subscriber),
    {
        let ghost old_view = self@;
        let ghost old_index = self.by_subscriber@;
        let ghost old_root = self.root;
        let i = match self.find_subscriber(subscriber) {
            Some(i) => i,
            None => {
                return 0;
            },
        };
        proof {
            lemma_index_lookup(old_index, i as int);
            lemma_index_drop(old_index, i as int);
        }
        let (s, pats) = self.by_subscriber.remove(i);
        let count = pats.len();
        let ghost pset = pattern_set(pats@);
        let ghost new_index = self.by_subscriber@;
        assert(new_index == old_index.remove(i as int));
        assert(old_index[i as int].0 == *subscriber);
        proof {
            pats@.map_values(|p: Pattern| p@).unique_seq_to_set();
            lemma_entries_ok_remove(old_index, i as int);
        }
        let mut k: usize = 0;
        while k < count
            invariant
                value_semantics::<S>(),
                count == pats@.len(),
                k <= count,
                forall|m: int| 0 <= m < pats@.len() ==> (#[trigger] pats@[m]).inv(),
                self.by_subscriber@ == new_index,
                self.root.wf(),
                forall|p: Seq<SegmentView>, x: S|
                    #[trigger] self.root.holds(p, x) <==> old_root.holds(p, x) && !(x == *subscriber
                        && exists|m: int| 0 <= m < k && (#[trigger] pats@[m])@.segments == p),
            decreases count - k,
        {
            let ghost before = self.root;
            proof {
                assert(pats@[k as int].inv());
            }
            let path = pats[k].segments();
            remove_pattern(&mut self.root, path, 0, subscriber);
            proof {
                let seg = pats@[k as int]@.segments;
                assert(segment_views(path@).skip(0) =~= seg);
                assert forall|p: Seq<SegmentView>, x: S|
                    #[trigger] self.root.holds(p, x) <==> old_root.holds(p, x) && !(x == *subscriber
                        && exists|m: int| 0 <= m < k + 1 && (#[trigger] pats@[m])@.segments == p) by {
                    if x == *subscriber && p == seg {
                        assert(pats@[k as int]@.segments == p);
                    }
                    if x == *subscriber && exists|m: int| 0 <= m < k + 1 && (#[trigger] pats@[m])@.segments == p {
                        let m = choose|m: int| 0 <= m < k + 1 && (#[trigger] pats@[m])@.segments == p;
                        if m < k {
                            assert(exists|m: int| 0 <= m < k && (#[trigger] pats@[m])@.segments == p);
                        }
                    }
                }
            }
            k = k + 1;
        }
        proof {
            assert(old_view.patterns[*subscriber] == pset);
            let target = after_unsubscribe_all(old_view, *subscriber);
            assert forall|e: (Seq<SegmentView>, S)| self@.entries.contains(e) <==> target.entries.contains(e) by {
                let p = e.0;
                let x = e.1;
                assert(self@.entries.contains(e) == self.root.holds(p, x));
                assert(old_view.entries.contains(e) == old_root.holds(p, x));
                if exists|q: PatternView| pset.contains(q) && q.segments == p {
                    let q = choose|q: PatternView| pset.contains(q) && q.segments == p;
                    lemma_pattern_set_contains(pats@, q);
                    let m = choose|m: int| 0 <= m < pats@.len() && (#[trigger] pats@[m])@ == q;
                    assert(pats@[m]@.segments == p);
                }
                if exists|m: int| 0 <= m < count && (#[trigger] pats@[m])@.segments == p {
                    let m = choose|m: int| 0 <= m < count && (#[trigger] pats@[m])@.segments == p;
                    lemma_pattern_set_contains(pats@, pats@[m]@);
                    assert(pset.contains(pats@[m]@));
                }
            }
            assert(self@.entries =~= target.entries);
            assert(self.by_subscriber@ == new_index);
            assert(self@.patterns == index_view(new_index));
            assert(self@.patterns =~= target.patterns);
            lemma_unsubscribe_all_consistent(old_view, *subscriber);
            assert(pset.len() == pats@.len()) by {
                assert(pats@.map_values(|p: Pattern| p@).len() == pats@.len());
            }
        }
        count
    }

    /// Every subscriber whose pattern matches `topic`, in unspecified order.
    ///
    /// A subscriber appears once per stored pattern of it that matches: the
    /// number of copies of `x` is the number of matching patterns `x` is
    /// stored under, so `x` appears at all exactly when one of them matches.
    fn matching(&self, topic: &Topic) -> (r: Vec<S>)
        requires
            self.wf(),
        ensures
            forall|x: S| #[trigger] matching_patterns(self@, topic@.segments, x).finite(),
            forall|x: S|
                #[trigger] r@.to_multiset().count(x) == matching_patterns(self@, topic@.segments, x).len(),
            forall|x: S|
                #[trigger] r@.contains(x) <==> exists|p: Seq<SegmentView>|
                    self@.entries.contains((p, x)) && pattern_matches(p, topic@.segments),
    {
        broadcast use vstd::seq_lib::group_to_multiset_ensures;

        let mut out: Vec<S> = Vec::new();
        let levels = topic.segments();
        collect_matches(&self.root, levels, 0, &mut out);
        proof {
            let t = topic@.segments;
            assert(string_views(levels@).skip(0) =~= t);
            assert(Seq::<S>::empty().to_multiset() =~= vstd::multiset::Multiset::<S>::empty());
            assert forall|x: S|
                #![trigger matching_patterns(self@, t, x)]
                #![trigger out@.to_multiset().count(x)]
                #![trigger out@.contains(x)]
                matching_patterns(self@, t, x).finite() && out@.to_multiset().count(x)
                    == matching_patterns(self@, t, x).len() && (out@.contains(x) <==> exists|p: Seq<SegmentView>|
                    self@.entries.contains((p, x)) && pattern_matches(p, t)) by {
                assert(matching_patterns(self@, t, x) =~= matched(self.root, t, x));
                let m = matching_patterns(self@, t, x);
                assert(m.finite());
                assert(out@.to_multiset().count(x) == m.len());
                assert(out@.contains(x) <==> out@.to_multiset().count(x) > 0);
                if exists|p: Seq<SegmentView>| self@.entries.contains((p, x)) && pattern_matches(p, t) {
                    let p = choose|p: Seq<SegmentView>| self@.entries.contains((p, x)) && pattern_matches(p, t);
                    assert(m.contains(p));
                    vstd::set_lib::lemma_set_empty_equivalency_len(m);
                }
                if m.len() > 0 {
                    vstd::set_lib::lemma_set_empty_equivalency_len(m);
                    let p = m.choose();
                    assert(m.contains(p));
                }
            }
        }
        out
    }

    /// Calls `f` once with each subscriber that `matching` returns for `topic`,
    /// together with `payload`.
    ///
    /// This performs no delivery, queuing, or backpressure: it only fans the
    /// match set out to the callback. `f` need only accept the subscribers
    /// that one of their routes matches, with `payload`: no other call is made.
    fn fanout<T, F: FnMut(&S, &T)>(&self, topic: &Topic, payload: &T, f: F)
        requires
            self.wf(),
            forall|x: S|
                (exists|p: Seq<SegmentView>|
                    self@.entries.contains((p, x)) && pattern_matches(p, topic@.segments))
                    ==> #[trigger] call_requires(f, (&x, payload)),
        ensures
            forall|x: S|
                (exists|p: Seq<SegmentView>|
                    self@.entries.contains((p, x)) && pattern_matches(p, topic@.segments))
                    ==> call_ensures(f, (&x, payload), ()),
    {
        let mut g = f;
        let subscribers = self.matching(topic);
        let n = subscribers.len();
        let mut i: usize = 0;
        while i < n
            invariant
                n == subscribers@.len(),
                i <= n,
                g == f,
                forall|x: S|
                    (exists|p: Seq<SegmentView>|
                        self@.entries.contains((p, x)) && pattern_matches(p, topic@.segments))
                        ==> #[trigger] call_requires(f, (&x, payload)),
                forall|x: S|
                    #[trigger] subscribers@.contains(x) <==> exists|p: Seq<SegmentView>|
                        self@.entries.contains((p, x)) && pattern_matches(p, topic@.segments),
                forall|j: int| 0 <= j < i ==> call_ensures(f, (&subscribers@[j], payload), ()),
            decreases n - i,
        {
            assert(subscribers@.contains(subscribers@[i as int]));
            g(&subscribers[i], payload);
            i = i + 1;
        }
        assert forall|x: S|
            (exists|p: Seq<SegmentView>|
                self@.entries.contains((p, x)) && pattern_matches(p, topic@.segments))
                implies call_ensures(f, (&x, payload), ()) by {
            assert(subscribers@.contains(x));
            let j = choose|j: int| 0 <= j < subscribers@.len() && subscribers@[j] == x;
            assert(call_ensures(f, (&subscribers@[j], payload), ()));
        }
    }

    /// A well-formed state has the shape of every reachable registry.
    proof fn lemma_consistent(&self)
        requires
            self.wf(),
        ensures
            consistent(self@),
    {
        assert forall|s: S| #[trigger] self@.patterns.contains_key(s) implies self@.patterns[s].finite()
            && !self@.patterns[s].is_empty() by {
            let v = self.by_subscriber@;
            let i = choose|i: int| 0 <= i < v.len() && (#[trigger] v[i]).0 == s;
            lemma_index_lookup(v, i);
            let ps = v[i].1@;
            assert(ps.len() > 0);
            lemma_pattern_set_contains(ps, ps[0]@);
            assert(self@.patterns[s].contains(ps[0]@));
            vstd::seq_lib::seq_to_set_is_finite(ps.map_values(|p: Pattern| p@));
        }
    }

    /// The position of `s` in the reverse index, if any.
    fn find_subscriber(&self, s: &S) -> (r: Option<usize>)
        requires
            value_semantics::<S>(),
        ensures
            match r {
                Some(i) => i < self.by_subscriber@.len() && self.by_subscriber@[i as int].0 == *s,
                None => forall|i: int|
                    0 <= i < self.by_subscriber@.len() ==> (#[trigger] self.by_subscriber@[i]).0 != *s,
            },
    {
        let n = self.by_subscriber.len();
        let mut i: usize = 0;
        while i < n
            invariant
                value_semantics::<S>(),
                n == self.by_subscriber@.len(),
                i <= n,
                forall|k: int| 0 <= k < i ==> (#[trigger] self.by_subscriber@[k]).0 != *s,
            decreases n - i,
        {
            proof {
                reveal(obeys_concrete_eq);
            }
            if self.by_subscriber[i].0 == *s {
                return Some(i);
            }
            i = i + 1;
        }
        None
    }
}

/// A registry mapping subscription patterns to subscriber handles.
///
/// `S` is an opaque subscriber handle chosen by the caller (an ID, for example).
#[derive(Debug)]
pub struct Registry<S: Clone + Eq + std::hash::Hash> {
    inner: Inner<S>,
}

impl<S: Clone + Eq + std::hash::Hash> View for Registry<S> {
    type V = RegistryView<S>;

    closed spec fn view(&self) -> RegistryView<S> {
        self.inner@
    }
}

impl<S: Clone + Eq + std::hash::Hash> Registry<S> {
    /// Every registry is in a well-formed state.
    #[verifier::type_invariant]
    closed spec fn inv(self) -> bool {
        self.inner.wf()
    }

    /// Create an empty registry.
    ///
    /// Handles must behave as plain values (`value_semantics`): `==` is
    /// equality and a clone equals its original. Verified callers can show
    /// this for integer handles; vstd gives no such law for `&str` or
    /// `String`, so with those handles the proved contracts rest on their
    /// `==` and `clone` behaving that way.
    pub fn new() -> (r: Registry<S>)
        requires
            value_semantics::<S>(),
        ensures
            r@.entries == Set::<(Seq<SegmentView>, S)>::empty(),
            r@.patterns == Map::<S, Set<PatternView>>::empty(),
            consistent(r@),
    {
        let inner = Inner::new();
        proof {
            inner.lemma_consistent();
        }
        Registry { inner }
    }

    /// Takes the state out, leaving an empty one in its place.
    fn take_inner(&mut self) -> (r: Inner<S>)
        ensures
            r.wf(),
            r@ == old(self)@,
    {
        proof {
            use_type_invariant(&*self);
        }
        let mut inner = Inner::new();
        std::mem::swap(&mut self.inner, &mut inner);
        inner
    }

    /// Register `subscriber` under `pattern`.
    ///
    /// Subscribing a `(pattern, subscriber)` pair that is already registered changes nothing.
    pub fn subscribe(&mut self, pattern: Pattern, subscriber: S)
        ensures
            final(self)@ == after_subscribe(old(self)@, pattern@, subscriber),
            consistent(final(self)@),
    {
        let mut inner = self.take_inner();
        inner.subscribe(pattern, subscriber);
        proof {
            inner.lemma_consistent();
        }
        self.inner = inner;
    }

    /// Remove `subscriber` from `pattern`.
    ///
    /// Returns `true` if the subscription existed. The levels of `pattern`
    /// keep routing to `subscriber` while another of its registered patterns
    /// has the same levels.
    pub fn unsubscribe(&mut self, pattern: &Pattern, subscriber: &S) -> (r: bool)
        ensures
            r == is_subscribed(old(self)@, pattern@, *subscriber),
            final(self)@ == after_unsubscribe(old(self)@, pattern@, *subscriber),
            consistent(final(self)@),
    {
        let mut inner = self.take_inner();
        let r = inner.unsubscribe(pattern, subscriber);
        proof {
            inner.lemma_consistent();
        }
        self.inner = inner;
        r
    }

    /// Remove `subscriber` from every pattern it is registered under.
    ///
    /// Returns the number of patterns removed.
    pub fn unsubscribe_all(&mut self, subscriber: &S) -> (r: usize)
        ensures
            r == if old(self)@.patterns.contains_key(*subscriber) {
                old(self)@.patterns[*subscriber].len()
            } else {
                0
            },
            final(self)@ == after_unsubscribe_all(old(self)@, *subscriber),
            consistent(final(self)@),
    {
        let mut inner = self.take_inner();
        let r = inner.unsubscribe_all(subscriber);
        proof {
            inner.lemma_consistent();
        }
        self.inner = inner;
        r
    }

    /// Every subscriber whose pattern matches `topic`, in unspecified order.
    ///
    /// A subscriber appears once per route of it that matches: the number of
    /// copies of `x` is the number of matching levels `x` is stored under, so
    /// `x` appears at all exactly when one of its patterns matches (see
    /// `law_matching_follows_registrations`).
    pub fn matching(&self, topic: &Topic) -> (r: Vec<S>)
        ensures
            consistent(self@),
            forall|x: S| #[trigger] matching_patterns(self@, topic@.segments, x).finite(),
            forall|x: S|
                #[trigger] r@.to_multiset().count(x) == matching_patterns(self@, topic@.segments, x).len(),
            forall|x: S|
                #[trigger] r@.contains(x) <==> exists|p: Seq<SegmentView>|
                    self@.entries.contains((p, x)) && pattern_matches(p, topic@.segments),
    {
        proof {
            use_type_invariant(self);
            self.inner.lemma_consistent();
        }
        self.inner.matching(topic)
    }

    /// Calls `f` once with each subscriber that `matching` returns for `topic`,
    /// together with `payload`.
    ///
    /// This performs no delivery, queuing, or backpressure: it only fans the
    /// match set out to the callback. `f` need only accept the subscribers that
    /// one of their routes matches, with `payload`: no other call is made. Every
    /// such subscriber has been passed to `f` by the time it returns. How many
    /// times each is passed (once per matching route) is not stated here, as a
    /// call of `f` is taken to leave `f` unchanged.
    pub fn fanout<T, F: FnMut(&S, &T)>(&self, topic: &Topic, payload: &T, f: F)
        requires
            forall|x: S|
                (exists|p: Seq<SegmentView>|
                    self@.entries.contains((p, x)) && pattern_matches(p, topic@.segments))
                    ==> #[trigger] call_requires(f, (&x, payload)),
        ensures
            forall|x: S|
                (exists|p: Seq<SegmentView>|
                    self@.entries.contains((p, x)) && pattern_matches(p, topic@.segments))
                    ==> call_ensures(f, (&x, payload), ()),
    {
        proof {
            use_type_invariant(self);
        }
        self.inner.fanout(topic, payload, f)
    }
}

/// Law: subscribing the same `(pattern, subscriber)` pair twice is the same as once.
pub proof fn law_subscribe_idempotent<S>(v: RegistryView<S>, p: PatternView, s: S)
    ensures
        after_subscribe(after_subscribe(v, p, s), p, s) == after_subscribe(v, p, s),
{
    let once = after_subscribe(v, p, s);
    let twice = after_subscribe(once, p, s);
    assert(twice.entries =~= once.entries);
    assert(once.patterns[s].insert(p) =~= once.patterns[s]);
    assert(twice.patterns =~= once.patterns);
}

/// Law: after `subscribe(p, s)`, `s` is registered under `p`, and `p` routes
/// every topic it matches to `s`.
pub proof fn law_subscribe_then_matches<S>(v: RegistryView<S>, p: PatternView, s: S, t: Seq<Seq<char>>)
    ensures
        is_subscribed(after_subscribe(v, p, s), p, s),
        pattern_matches(p.segments, t) ==> matching_patterns(after_subscribe(v, p, s), t, s).contains(
            p.segments,
        ),
{
}

/// Law: subscribing or unsubscribing `s` leaves what every other subscriber matches unchanged.
pub proof fn law_other_subscribers_unaffected<S>(
    v: RegistryView<S>,
    p: PatternView,
    s: S,
    x: S,
    t: Seq<Seq<char>>,
)
    requires
        x != s,
    ensures
        matching_patterns(after_subscribe(v, p, s), t, x) == matching_patterns(v, t, x),
        matching_patterns(after_unsubscribe(v, p, s), t, x) == matching_patterns(v, t, x),
        matching_patterns(after_unsubscribe_all(v, s), t, x) == matching_patterns(v, t, x),
{
    assert(matching_patterns(after_subscribe(v, p, s), t, x) =~= matching_patterns(v, t, x));
    assert(matching_patterns(after_unsubscribe(v, p, s), t, x) =~= matching_patterns(v, t, x));
    assert(matching_patterns(after_unsubscribe_all(v, s), t, x) =~= matching_patterns(v, t, x));
}

/// Law: after `unsubscribe(p, s)`, `s` is no longer registered under `p`,
/// and the levels of `p` still route to `s` exactly when another pattern of
/// `s` with those levels stays registered.
pub proof fn law_unsubscribe_removes<S>(v: RegistryView<S>, p: PatternView, s: S)
    requires
        consistent(v),
        is_subscribed(v, p, s),
    ensures
        !is_subscribed(after_unsubscribe(v, p, s), p, s),
        after_unsubscribe(v, p, s).entries.contains((p.segments, s)) <==> exists|q: PatternView|
            is_subscribed(after_unsubscribe(v, p, s), q, s) && q.segments == p.segments,
{
    let w = after_unsubscribe(v, p, s);
    let rest = v.patterns[s].remove(p);
    assert forall|q: PatternView| is_subscribed(w, q, s) <==> rest.contains(q) by {
        if rest.is_empty() {
            assert(!rest.contains(q));
        }
    }
    if exists|q: PatternView| rest.contains(q) && q.segments == p.segments {
        let q = choose|q: PatternView| rest.contains(q) && q.segments == p.segments;
        assert(is_subscribed(w, q, s));
    }
}

/// Law: subscribing a pair that is already registered changes nothing.
pub proof fn law_subscribe_registered_is_noop<S>(v: RegistryView<S>, p: PatternView, s: S)
    requires
        consistent(v),
        is_subscribed(v, p, s),
    ensures
        after_subscribe(v, p, s) == v,
{
    let w = after_subscribe(v, p, s);
    assert(v.entries.contains((p.segments, s)));
    assert(w.entries =~= v.entries);
    assert(v.patterns[s].insert(p) =~= v.patterns[s]);
    assert(w.patterns =~= v.patterns);
}

/// Law: a subscription made and then taken back leaves the registry as it was.
pub proof fn law_unsubscribe_undoes_subscribe<S>(v: RegistryView<S>, p: PatternView, s: S)
    requires
        consistent(v),
        !is_subscribed(v, p, s),
    ensures
        after_unsubscribe(after_subscribe(v, p, s), p, s) == v,
{
    let w = after_subscribe(v, p, s);
    let u = after_unsubscribe(w, p, s);
    let rest = w.patterns[s].remove(p);
    if v.patterns.contains_key(s) {
        assert(rest =~= v.patterns[s]);
        assert(!v.patterns[s].is_empty());
        assert(u.patterns =~= v.patterns);
    } else {
        assert(rest =~= Set::<PatternView>::empty());
        assert(u.patterns =~= v.patterns);
    }
    if exists|q: PatternView| rest.contains(q) && q.segments == p.segments {
        let q = choose|q: PatternView| rest.contains(q) && q.segments == p.segments;
        assert(v.patterns.contains_key(s) && v.patterns[s].contains(q));
        assert(v.entries.contains((p.segments, s)));
        assert(u.entries =~= v.entries);
    } else {
        assert(!v.entries.contains((p.segments, s))) by {
            if v.entries.contains((p.segments, s)) {
                let r = choose|r: PatternView| v.patterns[s].contains(r) && r.segments == p.segments;
                assert(rest.contains(r));
            }
        }
        assert(u.entries =~= v.entries);
    }
}

/// The registered patterns of `x` that match the topic levels `t`.
pub open spec fn registered_matching<S>(v: RegistryView<S>, t: Seq<Seq<char>>, x: S) -> Set<PatternView> {
    if v.patterns.contains_key(x) {
        v.patterns[x].filter(|q: PatternView| pattern_matches(q.segments, t))
    } else {
        Set::empty()
    }
}

/// Law: in a reachable registry the routes that match a topic for `x` are the
/// levels of `x`'s registered patterns that match it; so `matching` returns
/// `x` exactly when one of them matches, and at most once per such pattern.
pub proof fn law_matching_follows_registrations<S>(v: RegistryView<S>, t: Seq<Seq<char>>, x: S)
    requires
        consistent(v),
    ensures
        matching_patterns(v, t, x) == registered_matching(v, t, x).map(|q: PatternView| q.segments),
        registered_matching(v, t, x).finite(),
        matching_patterns(v, t, x).finite(),
        registered_matching(v, t, x).len() == 0 ==> matching_patterns(v, t, x).len() == 0,
        registered_matching(v, t, x).len() >= 1 ==> 1 <= matching_patterns(v, t, x).len()
            <= registered_matching(v, t, x).len(),
{
    let reg = registered_matching(v, t, x);
    let f = |q: PatternView| q.segments;
    let m = matching_patterns(v, t, x);
    assert forall|p: Seq<SegmentView>| m.contains(p) <==> reg.map(f).contains(p) by {
        if m.contains(p) {
            let q = choose|q: PatternView| v.patterns[x].contains(q) && q.segments == p;
            assert(reg.contains(q) && f(q) == p);
        }
        if reg.map(f).contains(p) {
            let q = choose|q: PatternView| reg.contains(q) && f(q) == p;
            assert(v.entries.contains((q.segments, x)));
        }
    }
    assert(m =~= reg.map(f));
    if v.patterns.contains_key(x) {
        v.patterns[x].lemma_len_filter(|q: PatternView| pattern_matches(q.segments, t));
    }
    vstd::set_lib::lemma_map_size_bound(reg, m, f);
    vstd::set_lib::lemma_set_empty_equivalency_len(reg);
    vstd::set_lib::lemma_set_empty_equivalency_len(m);
    if reg.len() >= 1 {
        let q = reg.choose();
        assert(m.contains(f(q)));
    }
}

/// Law: after `unsubscribe_all(s)` in a reachable registry, `s` is registered
/// under nothing and no topic is routed to it.
pub proof fn law_unsubscribe_all_silences<S>(v: RegistryView<S>, s: S, t: Seq<Seq<char>>)
    requires
        index_covers_entries(v),
    ensures
        !after_unsubscribe_all(v, s).patterns.contains_key(s),
        matching_patterns(after_unsubscribe_all(v, s), t, s) == Set::<Seq<SegmentView>>::empty(),
{
    let w = after_unsubscribe_all(v, s);
    assert forall|p: Seq<SegmentView>| !matching_patterns(w, t, s).contains(p) by {
        if w.entries.contains((p, s)) {
            assert(v.entries.contains((p, s)));
            assert(v.patterns.contains_key(s));
        }
    }
    assert(matching_patterns(w, t, s) =~= Set::<Seq<SegmentView>>::empty());
}

/// The patterns of a pattern list, as a set of their views.
pub open spec fn pattern_set(v: Seq<Pattern>) -> Set<PatternView> {
    v.map_values(|p: Pattern| p@).to_set()
}

/// The reverse index as a map from each subscriber to its set of patterns.
spec fn index_view<S>(v: Seq<(S, Vec<Pattern>)>) -> Map<S, Set<PatternView>> {
    Map::new(
        |s: S| exists|i: int| 0 <= i < v.len() && (#[trigger] v[i]).0 == s,
        |s: S| pattern_set(v[choose|i: int| 0 <= i < v.len() && (#[trigger] v[i]).0 == s].1@),
    )
}

/// No subscriber has two entries in the reverse index.
spec fn keys_distinct<S>(v: Seq<(S, Vec<Pattern>)>) -> bool {
    forall|i: int, j: int| 0 <= i < j < v.len() ==> (#[trigger] v[i]).0 != (#[trigger] v[j]).0
}

/// A pattern list as the reverse index keeps it: non-empty, no two patterns
/// alike, each well-formed.
spec fn entry_ok(pats: Seq<Pattern>) -> bool {
    &&& pats.len() > 0
    &&& pats.map_values(|p: Pattern| p@).no_duplicates()
    &&& forall|j: int| 0 <= j < pats.len() ==> (#[trigger] pats[j]).inv()
}

/// Every pattern list of the reverse index is kept as [`entry_ok`] says.
spec fn entries_ok<S>(v: Seq<(S, Vec<Pattern>)>) -> bool {
    forall|i: int| 0 <= i < v.len() ==> entry_ok((#[trigger] v[i]).1@)
}

/// Taking an entry out keeps the others as they were.
proof fn lemma_entries_ok_remove<S>(v: Seq<(S, Vec<Pattern>)>, i: int)
    requires
        entries_ok(v),
        0 <= i < v.len(),
    ensures
        entries_ok(v.remove(i)),
{
    assert forall|k: int| 0 <= k < v.remove(i).len() implies entry_ok((#[trigger] v.remove(i)[k]).1@) by {
        let ok = if k < i { k } else { k + 1 };
        assert(v.remove(i)[k] == v[ok]);
    }
}

/// Appending a well-kept entry keeps the index well kept.
proof fn lemma_entries_ok_push<S>(v: Seq<(S, Vec<Pattern>)>, e: (S, Vec<Pattern>))
    requires
        entries_ok(v),
        entry_ok(e.1@),
    ensures
        entries_ok(v.push(e)),
{
    assert forall|k: int| 0 <= k < v.push(e).len() implies entry_ok((#[trigger] v.push(e)[k]).1@) by {
        if k < v.len() {
            assert(v.push(e)[k] == v[k]);
        }
    }
}

/// Looking a subscriber up in the reverse index finds its own entry.
proof fn lemma_index_lookup<S>(v: Seq<(S, Vec<Pattern>)>, i: int)
    requires
        keys_distinct(v),
        0 <= i < v.len(),
    ensures
        index_view(v).contains_key(v[i].0),
        index_view(v)[v[i].0] == pattern_set(v[i].1@),
{
    let s = v[i].0;
    assert(index_view(v).dom().contains(s));
    let j = choose|j: int| 0 <= j < v.len() && (#[trigger] v[j]).0 == s;
    if j != i {
        if j < i {
            assert(v[j].0 != v[i].0);
        } else {
            assert(v[i].0 != v[j].0);
        }
    }
}

/// Adding a pattern to a list adds its view to the list's set.
proof fn lemma_pattern_set_push(v: Seq<Pattern>, p: Pattern)
    ensures
        pattern_set(v.push(p)) == pattern_set(v).insert(p@),
{
    assert(v.push(p).map_values(|q: Pattern| q@) =~= v.map_values(|q: Pattern| q@).push(p@));
    v.map_values(|q: Pattern| q@).lemma_push_to_set_commute(p@);
}

/// A pattern's view is in the set exactly when some pattern of the list has that view.
proof fn lemma_pattern_set_contains(v: Seq<Pattern>, pv: PatternView)
    ensures
        pattern_set(v).contains(pv) <==> exists|j: int| 0 <= j < v.len() && (#[trigger] v[j])@ == pv,
{
    let m = v.map_values(|q: Pattern| q@);
    if pattern_set(v).contains(pv) {
        assert(m.contains(pv));
        let j = choose|j: int| 0 <= j < m.len() && m[j] == pv;
        assert(v[j]@ == pv);
    }
    if exists|j: int| 0 <= j < v.len() && (#[trigger] v[j])@ == pv {
        let j = choose|j: int| 0 <= j < v.len() && (#[trigger] v[j])@ == pv;
        assert(m[j] == pv);
        assert(m.contains(pv));
    }
}

/// Removing one pattern from a duplicate-free list removes its view from the set.
proof fn lemma_pattern_set_remove(v: Seq<Pattern>, j: int)
    requires
        0 <= j < v.len(),
        v.map_values(|p: Pattern| p@).no_duplicates(),
    ensures
        pattern_set(v.remove(j)) == pattern_set(v).remove(v[j]@),
        v.remove(j).map_values(|p: Pattern| p@).no_duplicates(),
{
    let m = v.map_values(|p: Pattern| p@);
    let w = v.remove(j);
    assert(w.map_values(|p: Pattern| p@) =~= m.remove(j));
    assert forall|q: PatternView| pattern_set(w).contains(q) <==> pattern_set(v).remove(v[j]@).contains(q) by {
        lemma_pattern_set_contains(w, q);
        lemma_pattern_set_contains(v, q);
        if pattern_set(w).contains(q) {
            let k = choose|k: int| 0 <= k < w.len() && (#[trigger] w[k])@ == q;
            let ok = if k < j { k } else { k + 1 };
            assert(w[k] == v[ok]);
            assert(m[ok] != m[j]);
        }
        if pattern_set(v).remove(v[j]@).contains(q) {
            let k = choose|k: int| 0 <= k < v.len() && (#[trigger] v[k])@ == q;
            assert(k != j);
            let nk = if k < j { k } else { k - 1 };
            assert(w[nk] == v[k]);
        }
    }
    assert(pattern_set(w) =~= pattern_set(v).remove(v[j]@));
}

/// Taking entry `i` out of the reverse index drops its subscriber from the map.
proof fn lemma_index_drop<S>(v: Seq<(S, Vec<Pattern>)>, i: int)
    requires
        keys_distinct(v),
        0 <= i < v.len(),
    ensures
        keys_distinct(v.remove(i)),
        index_view(v.remove(i)) == index_view(v).remove(v[i].0),
        forall|k: int| 0 <= k < v.remove(i).len() ==> #[trigger] v.remove(i)[k] == v[if k < i { k } else { k + 1 }],
{
    let w = v.remove(i);
    assert forall|k: int| 0 <= k < w.len() implies #[trigger] w[k] == v[if k < i { k } else { k + 1 }] by {}
    assert forall|a: int, b: int| 0 <= a < b < w.len() implies (#[trigger] w[a]).0 != (#[trigger] w[b]).0 by {
        let oa = if a < i { a } else { a + 1 };
        let ob = if b < i { b } else { b + 1 };
        assert(w[a] == v[oa] && w[b] == v[ob]);
        assert(v[oa].0 != v[ob].0);
    }
    let lhs = index_view(w);
    let rhs = index_view(v).remove(v[i].0);
    assert forall|s: S| lhs.contains_key(s) <==> rhs.contains_key(s) by {
        if lhs.contains_key(s) {
            let k = choose|k: int| 0 <= k < w.len() && (#[trigger] w[k]).0 == s;
            let ok = if k < i { k } else { k + 1 };
            assert(v[ok].0 == s);
            assert(ok != i);
            assert(v[i].0 != s) by {
                if ok < i {
                    assert(v[ok].0 != v[i].0);
                } else {
                    assert(v[i].0 != v[ok].0);
                }
            }
        }
        if rhs.contains_key(s) {
            let k = choose|k: int| 0 <= k < v.len() && (#[trigger] v[k]).0 == s;
            assert(k != i);
            let nk = if k < i { k } else { k - 1 };
            assert(w[nk].0 == s);
        }
    }
    assert forall|s: S| #[trigger] lhs.contains_key(s) implies lhs[s] == rhs[s] by {
        let k = choose|k: int| 0 <= k < w.len() && (#[trigger] w[k]).0 == s;
        let ok = if k < i { k } else { k + 1 };
        lemma_index_lookup(w, k);
        lemma_index_lookup(v, ok);
    }
    assert(lhs =~= rhs);
}

/// Appending an entry for a subscriber not yet in the reverse index adds it to the map.
proof fn lemma_index_push<S>(v: Seq<(S, Vec<Pattern>)>, e: (S, Vec<Pattern>))
    requires
        keys_distinct(v),
        forall|i: int| 0 <= i < v.len() ==> (#[trigger] v[i]).0 != e.0,
    ensures
        keys_distinct(v.push(e)),
        index_view(v.push(e)) == index_view(v).insert(e.0, pattern_set(e.1@)),
{
    let w = v.push(e);
    assert forall|a: int, b: int| 0 <= a < b < w.len() implies (#[trigger] w[a]).0 != (#[trigger] w[b]).0 by {
        if b == v.len() {
            assert(v[a].0 != e.0);
        } else {
            assert(v[a].0 != v[b].0);
        }
    }
    let lhs = index_view(w);
    let rhs = index_view(v).insert(e.0, pattern_set(e.1@));
    assert forall|s: S| lhs.contains_key(s) <==> rhs.contains_key(s) by {
        if lhs.contains_key(s) {
            let k = choose|k: int| 0 <= k < w.len() && (#[trigger] w[k]).0 == s;
            if k < v.len() {
                assert(v[k].0 == s);
            }
        }
        if rhs.contains_key(s) {
            if s == e.0 {
                assert(w[v.len() as int].0 == s);
            } else {
                let k = choose|k: int| 0 <= k < v.len() && (#[trigger] v[k]).0 == s;
                assert(w[k].0 == s);
            }
        }
    }
    assert forall|s: S| #[trigger] lhs.contains_key(s) implies lhs[s] == rhs[s] by {
        let k = choose|k: int| 0 <= k < w.len() && (#[trigger] w[k]).0 == s;
        lemma_index_lookup(w, k);
        if k < v.len() {
            lemma_index_lookup(v, k);
        }
    }
    assert(lhs =~= rhs);
}

/// Whether some pattern of `v` has the same levels as `p`.
fn shares_levels(v: &Vec<Pattern>, p: &Pattern) -> (r: bool)
    ensures
        r == exists|j: int| 0 <= j < v@.len() && (#[trigger] v@[j])@.segments == p@.segments,
{
    let n = v.len();
    let mut j: usize = 0;
    while j < n
        invariant
            n == v@.len(),
            j <= n,
            forall|k: int| 0 <= k < j ==> (#[trigger] v@[k])@.segments != p@.segments,
        decreases n - j,
    {
        if v[j].same_levels(p) {
            return true;
        }
        j = j + 1;
    }
    false
}

/// The position of a pattern equal to `p` in `v`, if any.
fn pattern_position(v: &Vec<Pattern>, p: &Pattern) -> (r: Option<usize>)
    ensures
        match r {
            Some(j) => j < v@.len() && v@[j as int]@ == p@,
            None => forall|j: int| 0 <= j < v@.len() ==> (#[trigger] v@[j])@ != p@,
        },
{
    let n = v.len();
    let mut j: usize = 0;
    while j < n
        invariant
            n == v@.len(),
            j <= n,
            forall|k: int| 0 <= k < j ==> (#[trigger] v@[k])@ != p@,
        decreases n - j,
    {
        if v[j].same_as(p) {
            return Some(j);
        }
        j = j + 1;
    }
    None
}

/// Subscribing keeps the stored routes exactly those of the registered patterns.
proof fn lemma_subscribe_consistent<S>(v: RegistryView<S>, p: PatternView, s: S)
    requires
        index_covers_entries(v),
        index_routes_registered(v),
    ensures
        index_covers_entries(after_subscribe(v, p, s)),
        index_routes_registered(after_subscribe(v, p, s)),
{
    let w = after_subscribe(v, p, s);
    assert forall|q: Seq<SegmentView>, x: S| #[trigger] w.entries.contains((q, x)) implies w.patterns.contains_key(x)
        && exists|r: PatternView| w.patterns[x].contains(r) && r.segments == q by {
        if (q, x) == (p.segments, s) {
            assert(w.patterns[x].contains(p));
        } else {
            assert(v.entries.contains((q, x)));
            let r = choose|r: PatternView| v.patterns[x].contains(r) && r.segments == q;
            assert(w.patterns[x].contains(r));
        }
    }
    assert forall|x: S, q: PatternView|
        w.patterns.contains_key(x) && #[trigger] w.patterns[x].contains(q) implies w.entries.contains(
        (q.segments, x),
    ) by {
        if !(x == s && q == p) {
            assert(v.patterns.contains_key(x) && v.patterns[x].contains(q));
        }
    }
}

/// Unsubscribing keeps the stored routes exactly those of the registered patterns.
proof fn lemma_unsubscribe_consistent<S>(v: RegistryView<S>, p: PatternView, s: S)
    requires
        index_covers_entries(v),
        index_routes_registered(v),
    ensures
        index_covers_entries(after_unsubscribe(v, p, s)),
        index_routes_registered(after_unsubscribe(v, p, s)),
{
    let w = after_unsubscribe(v, p, s);
    if is_subscribed(v, p, s) {
        let rest = v.patterns[s].remove(p);
        let shared = exists|q: PatternView| rest.contains(q) && q.segments == p.segments;
        assert forall|q: Seq<SegmentView>, x: S| #[trigger] w.entries.contains((q, x)) implies w.patterns.contains_key(x)
            && exists|r: PatternView| w.patterns[x].contains(r) && r.segments == q by {
            assert(v.entries.contains((q, x)));
            let r = choose|r: PatternView| v.patterns[x].contains(r) && r.segments == q;
            if x == s {
                if r == p {
                    assert(shared);
                    let r2 = choose|r2: PatternView| rest.contains(r2) && r2.segments == p.segments;
                    assert(w.patterns[x].contains(r2));
                } else {
                    assert(rest.contains(r));
                    assert(w.patterns[x].contains(r));
                }
            } else {
                assert(w.patterns[x].contains(r));
            }
        }
        assert forall|x: S, q: PatternView|
            w.patterns.contains_key(x) && #[trigger] w.patterns[x].contains(q) implies w.entries.contains(
            (q.segments, x),
        ) by {
            assert(v.patterns[x].contains(q));
            assert(v.entries.contains((q.segments, x)));
            if x == s && q.segments == p.segments {
                assert(rest.contains(q));
                assert(shared);
            }
        }
    }
}

/// Unsubscribing a subscriber everywhere keeps the stored routes exactly
/// those of the registered patterns.
proof fn lemma_unsubscribe_all_consistent<S>(v: RegistryView<S>, s: S)
    requires
        index_covers_entries(v),
        index_routes_registered(v),
    ensures
        index_covers_entries(after_unsubscribe_all(v, s)),
        index_routes_registered(after_unsubscribe_all(v, s)),
{
    let w = after_unsubscribe_all(v, s);
    if v.patterns.contains_key(s) {
        assert forall|q: Seq<SegmentView>, x: S| #[trigger] w.entries.contains((q, x)) implies w.patterns.contains_key(x)
            && exists|r: PatternView| w.patterns[x].contains(r) && r.segments == q by {
            assert(v.entries.contains((q, x)));
            let r = choose|r: PatternView| v.patterns[x].contains(r) && r.segments == q;
            assert(x != s);
            assert(w.patterns[x].contains(r));
        }
        assert forall|x: S, q: PatternView|
            w.patterns.contains_key(x) && #[trigger] w.patterns[x].contains(q) implies w.entries.contains(
            (q.segments, x),
        ) by {
            assert(x != s);
            assert(v.patterns[x].contains(q));
            assert(v.entries.contains((q.segments, x)));
        }
    }
}

} // verus!

