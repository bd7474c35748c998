use std::collections::HashSet;

use quill::{Pattern, Registry, Topic};

fn pat(s: &str) -> Pattern {
    Pattern::parse(s).unwrap()
}

fn topic(s: &str) -> Topic {
    Topic::parse(s).unwrap()
}

fn matched_set(registry: &Registry<&'static str>, t: &str) -> HashSet<&'static str> {
    registry.matching(&topic(t)).into_iter().collect()
}

#[test]
fn subscribe_and_match() {
    let mut r = Registry::new();
    r.subscribe(pat("sensors/+/temp"), "a");
    assert_eq!(
        matched_set(&r, "sensors/kitchen/temp"),
        HashSet::from(["a"])
    );
    assert!(matched_set(&r, "sensors/kitchen/humidity").is_empty());
}

#[test]
fn multiple_subscribers_and_patterns() {
    let mut r = Registry::new();
    r.subscribe(pat("sensors/+/temp"), "exactish");
    r.subscribe(pat("sensors/#"), "multi");
    r.subscribe(pat("#"), "all");

    let set = matched_set(&r, "sensors/kitchen/temp");
    assert_eq!(set, HashSet::from(["exactish", "multi", "all"]));
}

#[test]
fn unsubscribe_removes_match() {
    let mut r = Registry::new();
    r.subscribe(pat("a/b"), "s1");
    r.subscribe(pat("a/#"), "s1");
    assert!(r.unsubscribe(&pat("a/b"), &"s1"));
    assert_eq!(matched_set(&r, "a/b"), HashSet::from(["s1"]));
    assert!(r.unsubscribe(&pat("a/#"), &"s1"));
    assert!(matched_set(&r, "a/b").is_empty());
    assert!(!r.unsubscribe(&pat("a/b"), &"s1"));
}

#[test]
fn unsubscribe_all() {
    let mut r = Registry::new();
    r.subscribe(pat("a/b"), "s1");
    r.subscribe(pat("x/#"), "s1");
    r.subscribe(pat("a/b"), "s2");
    assert_eq!(r.unsubscribe_all(&"s1"), 2);
    assert_eq!(matched_set(&r, "a/b"), HashSet::from(["s2"]));
    assert!(matched_set(&r, "x/y").is_empty());
}

#[test]
fn overlapping_plus_and_hash() {
    let mut r = Registry::new();
    r.subscribe(pat("sensors/+/temp"), "plus");
    r.subscribe(pat("sensors/#"), "hash");

    assert_eq!(
        matched_set(&r, "sensors/kitchen/temp"),
        HashSet::from(["plus", "hash"])
    );
    assert_eq!(matched_set(&r, "sensors/kitchen"), HashSet::from(["hash"]));
}

#[test]
fn hash_at_root() {
    let mut r = Registry::new();
    r.subscribe(pat("#"), "all");
    assert_eq!(matched_set(&r, "any/thing"), HashSet::from(["all"]));
}

#[test]
fn fanout_invokes_callback() {
    let mut r = Registry::new();
    r.subscribe(pat("a/+"), 1);
    r.subscribe(pat("a/b"), 2);

    let mut seen = Vec::new();
    r.fanout(&topic("a/b"), &"payload", |sub, payload| {
        seen.push((*sub, *payload));
    });
    seen.sort_by_key(|(id, _)| *id);
    assert_eq!(seen, vec![(1, "payload"), (2, "payload")]);
}

// Further cases.

#[test]
fn subscribe_twice_is_noop() {
    let mut r = Registry::new();
    r.subscribe(pat("a/b"), 7u64);
    r.subscribe(pat("a/b"), 7u64);
    assert_eq!(r.matching(&topic("a/b")), vec![7u64]);
    assert!(r.unsubscribe(&pat("a/b"), &7u64));
    assert!(r.matching(&topic("a/b")).is_empty());
    assert!(!r.unsubscribe(&pat("a/b"), &7u64));
}

#[test]
fn one_copy_per_matching_pattern() {
    let mut r = Registry::new();
    r.subscribe(pat("a/b"), 1u32);
    r.subscribe(pat("a/+"), 1u32);
    r.subscribe(pat("#"), 1u32);
    r.subscribe(pat("a/c"), 1u32);
    r.subscribe(pat("a/b"), 2u32);
    let mut m = r.matching(&topic("a/b"));
    m.sort();
    assert_eq!(m, vec![1, 1, 1, 2]);
}

#[test]
fn unsubscribe_unknown_subscriber() {
    let mut r: Registry<u8> = Registry::new();
    assert!(!r.unsubscribe(&pat("a"), &1));
    assert_eq!(r.unsubscribe_all(&1), 0);
    r.subscribe(pat("a"), 1);
    assert!(!r.unsubscribe(&pat("b"), &1));
    assert_eq!(r.matching(&topic("a")), vec![1]);
}

#[test]
fn unsubscribe_all_silences_subscriber() {
    let mut r = Registry::new();
    r.subscribe(pat("#"), 5i64);
    r.subscribe(pat("a/+"), 5i64);
    r.subscribe(pat("a/b"), 6i64);
    assert_eq!(r.unsubscribe_all(&5), 2);
    assert_eq!(r.matching(&topic("a/b")), vec![6]);
    assert_eq!(r.unsubscribe_all(&5), 0);
}

#[test]
fn unsubscribe_prunes_and_resubscribe_works() {
    let mut r = Registry::new();
    r.subscribe(pat("a/b/c"), 1u16);
    assert!(r.unsubscribe(&pat("a/b/c"), &1));
    assert!(r.matching(&topic("a/b/c")).is_empty());
    r.subscribe(pat("a/b/c"), 2u16);
    assert_eq!(r.matching(&topic("a/b/c")), vec![2]);
}

#[test]
fn hash_matches_parent_level() {
    let mut r = Registry::new();
    r.subscribe(pat("a/#"), 3u8);
    assert_eq!(r.matching(&topic("a")), vec![3]);
    assert!(r.matching(&topic("b")).is_empty());
}

#[test]
fn fanout_with_no_match_calls_nothing() {
    let mut r = Registry::new();
    r.subscribe(pat("x"), 1u8);
    let mut calls = 0;
    r.fanout(&topic("y"), &(), |_, _| calls += 1);
    assert_eq!(calls, 0);
}

#[test]
fn other_subscribers_unaffected() {
    let mut r = Registry::new();
    r.subscribe(pat("a/+"), 1u32);
    r.subscribe(pat("a/b"), 2u32);
    r.subscribe(pat("#"), 2u32);
    assert!(r.unsubscribe(&pat("a/b"), &2));
    assert_eq!(r.unsubscribe_all(&2), 1);
    assert_eq!(r.matching(&topic("a/b")), vec![1]);
}

#[test]
fn subscribe_then_unsubscribe_restores_index() {
    let mut r = Registry::new();
    r.subscribe(pat("x"), 9u8);
    r.subscribe(pat("y/#"), 9u8);
    assert!(r.unsubscribe(&pat("y/#"), &9));
    assert_eq!(r.unsubscribe_all(&9), 1);
}

#[test]
fn twin_patterns_keep_their_shared_route() {
    let mut r = Registry::new();
    r.subscribe(Pattern::parse_with("a.b", '.').unwrap(), 1u8);
    r.subscribe(pat("a/b"), 1u8);
    assert_eq!(r.matching(&topic("a/b")), vec![1]);
    assert!(r.unsubscribe(&Pattern::parse_with("a.b", '.').unwrap(), &1));
    assert_eq!(r.matching(&topic("a/b")), vec![1]);
    assert!(r.unsubscribe(&pat("a/b"), &1));
    assert!(r.matching(&topic("a/b")).is_empty());
    assert_eq!(r.unsubscribe_all(&1), 0);
}

#[test]
fn twin_patterns_with_string_handles() {
    let mut r = Registry::new();
    r.subscribe(pat("a/b"), "s");
    r.subscribe(Pattern::parse_with("a.b", '.').unwrap(), "s");
    assert!(r.unsubscribe(&Pattern::parse_with("a.b", '.').unwrap(), &"s"));
    assert_eq!(r.matching(&topic("a/b")), vec!["s"]);
    assert!(r.unsubscribe(&pat("a/b"), &"s"));
    assert!(r.matching(&topic("a/b")).is_empty());
}

#[test]
fn subscribe_unsubscribe_keeps_twin_route() {
    let mut r = Registry::new();
    r.subscribe(Pattern::parse_with("x.y", '.').unwrap(), 4u8);
    r.subscribe(pat("x/y"), 4u8);
    assert!(r.unsubscribe(&pat("x/y"), &4));
    assert_eq!(r.matching(&topic("x/y")), vec![4]);
    assert_eq!(r.unsubscribe_all(&4), 1);
    assert!(r.matching(&topic("x/y")).is_empty());
}

#[test]
fn resubscribing_registered_pair_changes_nothing() {
    let mut r = Registry::new();
    r.subscribe(pat("a/+"), 2u8);
    r.subscribe(Pattern::parse_with("a.+", '.').unwrap(), 2u8);
    assert!(r.unsubscribe(&Pattern::parse_with("a.+", '.').unwrap(), &2));
    r.subscribe(pat("a/+"), 2u8);
    assert_eq!(r.matching(&topic("a/z")), vec![2]);
    assert!(r.unsubscribe(&pat("a/+"), &2));
    assert!(!r.unsubscribe(&pat("a/+"), &2));
}
