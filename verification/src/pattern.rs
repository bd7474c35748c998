//! Subscription patterns with MQTT-style wildcards.

use vstd::prelude::*;
use vstd::string::*;

use crate::topic::{
    DEFAULT_DELIMITER, ParseError, Topic, join_levels, lemma_join_push, lemma_join_split, lemma_split_ok_valid, law_rejoined_levels_reparse, split_levels,
    push_char, split_result, split_segments, string_views, valid_levels,
};

verus! {

/// One level of a [`Pattern`].
#[derive(Debug, PartialEq, Eq, Hash)]
pub enum Segment {
    /// Exact level match.
    Literal(String),
    /// Single-level wildcard (`+`): matches exactly one topic level.
    Single,
    /// Multi-level wildcard (`#`): matches zero or more remaining levels.
    /// It is always the final segment of a pattern.
    Multi,
}

/// What a [`Segment`] stands for.
pub enum SegmentView {
    Literal(Seq<char>),
    Single,
    Multi,
}

impl View for Segment {
    type V = SegmentView;

    open spec fn view(&self) -> SegmentView {
        match self {
            Segment::Literal(s) => SegmentView::Literal(s@),
            Segment::Single => SegmentView::Single,
            Segment::Multi => SegmentView::Multi,
        }
    }
}

/// The views of a sequence of segments.
pub open spec fn segment_views(v: Seq<Segment>) -> Seq<SegmentView> {
    v.map_values(|s: Segment| s@)
}

/// How one raw level of pattern text reads: `+` and `#` are wildcards when they
/// make up the whole level, anything else is a literal.
pub open spec fn classify(raw: Seq<char>) -> SegmentView {
    if raw == seq!['+'] {
        SegmentView::Single
    } else if raw == seq!['#'] {
        SegmentView::Multi
    } else {
        SegmentView::Literal(raw)
    }
}

/// The text a segment is written as.
pub open spec fn segment_text(seg: SegmentView) -> Seq<char> {
    match seg {
        SegmentView::Literal(s) => s,
        SegmentView::Single => seq!['+'],
        SegmentView::Multi => seq!['#'],
    }
}

/// `#` appears nowhere but in the final position.
pub open spec fn multi_only_last(segs: Seq<SegmentView>) -> bool {
    forall|i: int| 0 <= i < segs.len() - 1 ==> !(#[trigger] segs[i] is Multi)
}

/// A well-formed pattern: its texts are well-formed levels, each reads back as
/// the segment it came from, and `#` is final if present.
pub open spec fn valid_pattern(segs: Seq<SegmentView>, d: char) -> bool {
    &&& valid_levels(segs.map_values(|g: SegmentView| segment_text(g)), d)
    &&& forall|i: int| 0 <= i < segs.len() ==> classify(segment_text(#[trigger] segs[i])) == segs[i]
    &&& multi_only_last(segs)
}

/// What parsing pattern text gives: the errors of splitting, then
/// `MultiLevelNotFinal` when `#` stands anywhere but last, else the segments.
pub open spec fn pattern_parse_result(s: Seq<char>, d: char) -> Result<Seq<SegmentView>, ParseError> {
    match split_result(s, d) {
        Err(e) => Err(e),
        Ok(levels) => {
            let segs = levels.map_values(|l: Seq<char>| classify(l));
            if multi_only_last(segs) {
                Ok(segs)
            } else {
                Err(ParseError::MultiLevelNotFinal)
            }
        },
    }
}

/// Whether one pattern segment accepts one topic level.
pub open spec fn level_accepts(seg: SegmentView, level: Seq<char>) -> bool {
    match seg {
        SegmentView::Literal(k) => k == level,
        _ => true,
    }
}

/// MQTT matching: a pattern ending in `#` matches every topic whose first
/// levels are accepted by the segments before it (zero or more levels may
/// follow); any other pattern matches the topics with exactly as many levels,
/// each accepted by its segment (`+` accepts any level, a literal only itself).
pub open spec fn pattern_matches(p: Seq<SegmentView>, t: Seq<Seq<char>>) -> bool {
    if p.len() > 0 && p.last() is Multi {
        p.len() - 1 <= t.len() && forall|i: int| 0 <= i < p.len() - 1 ==> level_accepts(#[trigger] p[i], t[i])
    } else {
        p.len() == t.len() && forall|i: int| 0 <= i < p.len() ==> level_accepts(#[trigger] p[i], t[i])
    }
}

/// Matching level by level: the empty pattern matches only the empty topic,
/// a final `#` matches anything, and any other first segment must accept the
/// first level while the rest matches the rest.
pub proof fn lemma_match_step(p: Seq<SegmentView>, t: Seq<Seq<char>>)
    requires
        multi_only_last(p),
    ensures
        p.len() == 0 ==> (pattern_matches(p, t) <==> t.len() == 0),
        p.len() > 0 && p[0] is Multi ==> p.len() == 1 && pattern_matches(p, t),
        p.len() > 0 && !(p[0] is Multi) ==> (pattern_matches(p, t) <==> (t.len() > 0 && level_accepts(
            p[0],
            t[0],
        ) && pattern_matches(p.drop_first(), t.drop_first()))),
        p.len() > 0 ==> multi_only_last(p.drop_first()),
{
    if p.len() > 0 {
        let q = p.drop_first();
        assert forall|i: int| 0 <= i < q.len() - 1 implies !(#[trigger] q[i] is Multi) by {
            assert(q[i] == p[i + 1]);
        }
        if p[0] is Multi {
            if p.len() > 1 {
                assert(!(p[0] is Multi));
            }
        } else if t.len() > 0 {
            let u = t.drop_first();
            if p.last() is Multi {
                if pattern_matches(p, t) {
                    assert forall|i: int| 0 <= i < q.len() - 1 implies level_accepts(#[trigger] q[i], u[i]) by {
                        assert(level_accepts(p[i + 1], t[i + 1]));
                    }
                    assert(level_accepts(p[0], t[0]));
                }
                if level_accepts(p[0], t[0]) && pattern_matches(q, u) {
                    assert(q.len() > 0 && q.last() is Multi);
                    assert forall|i: int| 0 <= i < p.len() - 1 implies level_accepts(#[trigger] p[i], t[i]) by {
                        if i > 0 {
                            assert(level_accepts(q[i - 1], u[i - 1]));
                        }
                    }
                }
            } else {
                if pattern_matches(p, t) {
                    assert(q.len() == 0 || !(q.last() is Multi));
                    assert forall|i: int| 0 <= i < q.len() implies level_accepts(#[trigger] q[i], u[i]) by {
                        assert(level_accepts(p[i + 1], t[i + 1]));
                    }
                    assert(level_accepts(p[0], t[0]));
                }
                if level_accepts(p[0], t[0]) && pattern_matches(q, u) {
                    assert(q.len() == 0 || !(q.last() is Multi));
                    assert forall|i: int| 0 <= i < p.len() implies level_accepts(#[trigger] p[i], t[i]) by {
                        if i > 0 {
                            assert(level_accepts(q[i - 1], u[i - 1]));
                        }
                    }
                }
            }
        } else {
            if p.last() is Multi {
                assert(p.len() >= 2);
            }
        }
    }
}

impl Segment {
    /// Read one raw level of pattern text.
    fn from_raw(raw: &str) -> (r: Segment)
        ensures
            r@ == classify(raw@),
    {
        if raw.unicode_len() == 1 {
            let c = raw.get_char(0);
            if c == '+' {
                assert(raw@ =~= seq!['+']);
                return Segment::Single;
            }
            if c == '#' {
                assert(raw@ =~= seq!['#']);
                return Segment::Multi;
            }
        }
        let r = Segment::Literal(raw.to_owned());
        proof {
            if raw@ == seq!['+'] {
                assert(raw@[0] == '+');
            }
            if raw@ == seq!['#'] {
                assert(raw@[0] == '#');
            }
        }
        r
    }

    /// The segment as written in pattern text.
    pub fn to_string(&self) -> (r: String)
        ensures
            r@ == segment_text(self@),
    {
        match self {
            Segment::Literal(s) => s.clone(),
            Segment::Single => {
                let mut out = String::new();
                push_char(&mut out, '+');
                assert(out@ =~= seq!['+']);
                out
            },
            Segment::Multi => {
                let mut out = String::new();
                push_char(&mut out, '#');
                assert(out@ =~= seq!['#']);
                out
            },
        }
    }

    /// Whether two segments are the same.
    fn same_as(&self, other: &Segment) -> (r: bool)
        ensures
            r == (self@ == other@),
    {
        match self {
            Segment::Literal(a) => match other {
                Segment::Literal(b) => *a == *b,
                _ => false,
            },
            Segment::Single => match other {
                Segment::Single => true,
                _ => false,
            },
            Segment::Multi => match other {
                Segment::Multi => true,
                _ => false,
            },
        }
    }
}

impl Clone for Segment {
    fn clone(&self) -> (r: Segment)
        ensures
            r@ == self@,
    {
        match self {
            Segment::Literal(s) => Segment::Literal(s.clone()),
            Segment::Single => Segment::Single,
            Segment::Multi => Segment::Multi,
        }
    }
}

/// A subscription filter that may include wildcards.
///
/// `+` matches exactly one level; `#` matches the remainder of the topic
/// (including zero levels) and may only appear as the last segment.
#[derive(Debug, PartialEq, Eq, Hash)]
pub struct Pattern {
    segments: Vec<Segment>,
    delimiter: char,
}

/// What a [`Pattern`] stands for: its segments and the delimiter it was parsed with.
pub struct PatternView {
    pub segments: Seq<SegmentView>,
    pub delimiter: char,
}

impl View for Pattern {
    type V = PatternView;

    closed spec fn view(&self) -> PatternView {
        PatternView { segments: segment_views(self.segments@), delimiter: self.delimiter }
    }
}

/// The views of the pattern segments as the parse gives them.
pub open spec fn views_of(r: Result<Pattern, ParseError>) -> Result<Seq<SegmentView>, ParseError> {
    match r {
        Ok(p) => Ok(p@.segments),
        Err(e) => Err(e),
    }
}

impl Pattern {
    /// Every pattern is well-formed for its delimiter.
    #[verifier::type_invariant]
    pub open spec fn inv(self) -> bool {
        valid_pattern(self@.segments, self@.delimiter)
    }

    /// Parse `input` using the default delimiter `/`.
    pub fn parse(input: &str) -> (r: Result<Pattern, ParseError>)
        ensures
            views_of(r) == pattern_parse_result(input@, DEFAULT_DELIMITER),
            r is Ok ==> r->Ok_0@.delimiter == DEFAULT_DELIMITER,
    {
        Self::parse_with(input, DEFAULT_DELIMITER)
    }

    /// Parse `input` with the default delimiter, as a conversion from `&str`.
    pub fn try_from(value: &str) -> (r: Result<Pattern, ParseError>)
        ensures
            views_of(r) == pattern_parse_result(value@, DEFAULT_DELIMITER),
            r is Ok ==> r->Ok_0@.delimiter == DEFAULT_DELIMITER,
    {
        Self::parse(value)
    }

    /// Parse `input` using a custom level `delimiter`.
    pub fn parse_with(input: &str, delimiter: char) -> (r: Result<Pattern, ParseError>)
        ensures
            views_of(r) == pattern_parse_result(input@, delimiter),
            r is Ok ==> r->Ok_0@.delimiter == delimiter,
    {
        let raw = split_segments(input, delimiter)?;
        let ghost levels = string_views(raw@);
        let mut segments: Vec<Segment> = Vec::new();
        let n = raw.len();
        let mut i: usize = 0;
        while i < n
            invariant
                n == raw@.len(),
                levels == string_views(raw@),
                i <= n,
                segment_views(segments@) == levels.take(i as int).map_values(|l: Seq<char>| classify(l)),
            decreases n - i,
        {
            let seg = Segment::from_raw(raw[i].as_str());
            assert(levels[i as int] == raw@[i as int]@);
            let ghost before = segments@;
            segments.push(seg);
            assert(segments@ == before.push(seg));
            assert(segment_views(segments@) =~= segment_views(before).push(seg@));
            assert(levels.take(i + 1).map_values(|l: Seq<char>| classify(l)) =~= levels.take(
                i as int,
            ).map_values(|l: Seq<char>| classify(l)).push(classify(levels[i as int])));
            i = i + 1;
        }
        let ghost segs = levels.map_values(|l: Seq<char>| classify(l));
        assert(levels.take(n as int) =~= levels);
        assert(segment_views(segments@) == segs);
        validate_segments(&segments)?;
        proof {
            lemma_split_ok_valid(input@, delimiter);
            lemma_classified_levels_valid(levels, delimiter);
        }
        Ok(Pattern { segments, delimiter })
    }

    /// Borrowed pattern segments in order.
    pub fn segments(&self) -> (r: &[Segment])
        ensures
            segment_views(r@) == self@.segments,
    {
        self.segments.as_slice()
    }

    /// The delimiter used when this pattern was parsed.
    pub fn delimiter(&self) -> (r: char)
        ensures
            r == self@.delimiter,
    {
        self.delimiter
    }

    /// Returns `true` if this pattern matches `topic`.
    ///
    /// Matching compares levels only; the delimiters need not be equal.
    pub fn matches(&self, topic: &Topic) -> (r: bool)
        ensures
            r == pattern_matches(self@.segments, topic@.segments),
    {
        proof {
            use_type_invariant(self);
        }
        let levels = topic.segments();
        assert(segment_views(self.segments@).skip(0) =~= self@.segments);
        let r = matches_rec(self.segments.as_slice(), levels, 0, 0);
        assert(string_views(levels@).skip(0) =~= topic@.segments);
        proof {
            lemma_prefix_is_match(self@.segments, topic@.segments);
        }
        r
    }

    /// The pattern written out: each segment's text, with the delimiter between them.
    pub fn to_string(&self) -> (r: String)
        ensures
            r@ == join_levels(pattern_texts(self@.segments), self@.delimiter),
    {
        let ghost levels = pattern_texts(self@.segments);
        let mut out = String::new();
        let n = self.segments.len();
        let mut i: usize = 0;
        while i < n
            invariant
                n == self.segments@.len(),
                levels == pattern_texts(segment_views(self.segments@)),
                i <= n,
                i == 0 ==> out@ == Seq::<char>::empty(),
                i > 0 ==> out@ == join_levels(levels.take(i as int), self.delimiter),
            decreases n - i,
        {
            if i > 0 {
                push_char(&mut out, self.delimiter);
            }
            let text = self.segments[i].to_string();
            out.append(text.as_str());
            proof {
                assert(levels[i as int] == segment_text(self.segments@[i as int]@));
                if i > 0 {
                    lemma_join_push(levels.take(i as int), levels[i as int], self.delimiter);
                    assert(levels.take(i as int).push(levels[i as int]) =~= levels.take(i + 1));
                } else {
                    assert(levels.take(1) =~= seq![levels[0]]);
                    assert(out@ =~= levels[0]);
                }
            }
            i = i + 1;
        }
        assert(levels.take(n as int) =~= levels);
        out
    }

    /// Whether two patterns have the same segments and delimiter.
    pub(crate) fn same_as(&self, other: &Pattern) -> (r: bool)
        ensures
            r == (self@ == other@),
    {
        self.delimiter == other.delimiter && self.same_levels(other)
    }

    /// Whether two patterns have the same segments, whatever their delimiters.
    pub(crate) fn same_levels(&self, other: &Pattern) -> (r: bool)
        ensures
            r == (self@.segments == other@.segments),
    {
        let n = self.segments.len();
        if n != other.segments.len() {
            assert(self@.segments.len() != other@.segments.len());
            return false;
        }
        let mut i: usize = 0;
        while i < n
            invariant
                n == self.segments@.len(),
                n == other.segments@.len(),
                i <= n,
                forall|k: int| 0 <= k < i ==> self.segments@[k]@ == other.segments@[k]@,
            decreases n - i,
        {
            if !self.segments[i].same_as(&other.segments[i]) {
                assert(self@.segments[i as int] != other@.segments[i as int]);
                return false;
            }
            i = i + 1;
        }
        assert(self@.segments =~= other@.segments);
        true
    }
}

impl Clone for Pattern {
    fn clone(&self) -> (r: Pattern)
        ensures
            r@ == self@,
    {
        proof {
            use_type_invariant(self);
        }
        let segments = self.segments.clone();
        proof {
            assert(segment_views(segments@) =~= segment_views(self.segments@)) by {
                assert forall|i: int| 0 <= i < segments@.len() implies segments@[i]@ == self.segments@[i]@ by {
                    assert(cloned::<Segment>(self.segments@[i], segments@[i]));
                }
            }
        }
        Pattern { segments, delimiter: self.delimiter }
    }
}

/// The texts of a pattern's segments.
pub open spec fn pattern_texts(segs: Seq<SegmentView>) -> Seq<Seq<char>> {
    segs.map_values(|g: SegmentView| segment_text(g))
}

/// Law: printing a parsed pattern gives back the text it was parsed from.
pub proof fn law_pattern_text_round_trip(s: Seq<char>, d: char)
    requires
        pattern_parse_result(s, d) is Ok,
    ensures
        join_levels(pattern_texts(pattern_parse_result(s, d)->Ok_0), d) == s,
{
    lemma_split_ok_valid(s, d);
    let levels = split_levels(s, d);
    lemma_classified_levels_valid(levels, d);
    let segs = levels.map_values(|l: Seq<char>| classify(l));
    assert(pattern_texts(segs) =~= levels);
    lemma_join_split(s, d);
}

/// Law: parsing the text of a well-formed pattern gives back the same segments.
pub proof fn law_pattern_reparse(segs: Seq<SegmentView>, d: char)
    requires
        valid_pattern(segs, d),
    ensures
        pattern_parse_result(join_levels(pattern_texts(segs), d), d) == Ok::<Seq<SegmentView>, ParseError>(segs),
{
    let texts = pattern_texts(segs);
    law_rejoined_levels_reparse(texts, d);
    let back = texts.map_values(|l: Seq<char>| classify(l));
    assert forall|i: int| 0 <= i < segs.len() implies back[i] == segs[i] by {
        assert(classify(segment_text(segs[i])) == segs[i]);
    }
    assert(back =~= segs);
}

/// Law: the pattern `#` matches every topic.
pub proof fn law_hash_matches_every_topic(t: Seq<Seq<char>>)
    ensures
        pattern_matches(seq![SegmentView::Multi], t),
{
}

/// Law: `+` alone matches exactly the topics of one level.
pub proof fn law_plus_matches_one_level(t: Seq<Seq<char>>)
    ensures
        pattern_matches(seq![SegmentView::Single], t) <==> t.len() == 1,
{
}

/// Law: a pattern without wildcards matches exactly the topic with the same levels.
pub proof fn law_literal_pattern_matches_itself_only(segs: Seq<SegmentView>, t: Seq<Seq<char>>)
    requires
        forall|i: int| 0 <= i < segs.len() ==> #[trigger] segs[i] is Literal,
    ensures
        pattern_matches(segs, t) <==> t == pattern_texts(segs),
{
    if segs.len() > 0 {
        assert(!(segs.last() is Multi));
    }
    if pattern_matches(segs, t) {
        assert(t =~= pattern_texts(segs));
    }
    if t == pattern_texts(segs) {
        assert forall|i: int| 0 <= i < segs.len() implies level_accepts(#[trigger] segs[i], t[i]) by {
            assert(t[i] == segment_text(segs[i]));
        }
    }
}

/// Law: a final `#` lets any number of further levels follow, zero included:
/// `p` followed by `#` matches `t` exactly when `p` matches the first levels of `t`.
pub proof fn law_hash_matches_any_remainder(p: Seq<SegmentView>, t: Seq<Seq<char>>)
    requires
        forall|i: int| 0 <= i < p.len() ==> !(#[trigger] p[i] is Multi),
    ensures
        pattern_matches(p.push(SegmentView::Multi), t) <==> (p.len() <= t.len() && pattern_matches(
            p,
            t.take(p.len() as int),
        )),
{
    let q = p.push(SegmentView::Multi);
    assert(q.last() is Multi);
    if p.len() > 0 {
        assert(!(p.last() is Multi));
    }
    if pattern_matches(q, t) {
        assert forall|i: int| 0 <= i < p.len() implies level_accepts(#[trigger] p[i], t.take(p.len() as int)[i]) by {
            assert(q[i] == p[i]);
            assert(level_accepts(q[i], t[i]));
        }
    }
    if p.len() <= t.len() && pattern_matches(p, t.take(p.len() as int)) {
        assert forall|i: int| 0 <= i < q.len() - 1 implies level_accepts(#[trigger] q[i], t[i]) by {
            assert(q[i] == p[i]);
            assert(level_accepts(p[i], t.take(p.len() as int)[i]));
        }
    }
}

/// Checks that `#` appears only as the final segment.
fn validate_segments(segments: &[Segment]) -> (r: Result<(), ParseError>)
    ensures
        r is Ok <==> multi_only_last(segment_views(segments@)),
        r is Err ==> r == Err::<(), ParseError>(ParseError::MultiLevelNotFinal),
{
    let last = segments.len().saturating_sub(1);
    let n = segments.len();
    let mut i: usize = 0;
    while i < n
        invariant
            n == segments@.len(),
            last == if n == 0 { 0 } else { n - 1 },
            i <= n,
            forall|k: int| 0 <= k < i && k < n - 1 ==> !(#[trigger] segment_views(segments@)[k] is Multi),
        decreases n - i,
    {
        if matches!(segments[i], Segment::Multi) && i != last {
            assert(segment_views(segments@)[i as int] is Multi);
            return Err(ParseError::MultiLevelNotFinal);
        }
        i = i + 1;
    }
    Ok(())
}

/// No `#` among the first `m` segments of `p`.
pub open spec fn no_multi_before(p: Seq<SegmentView>, m: int) -> bool {
    forall|i: int| 0 <= i < m ==> !(#[trigger] p[i] is Multi)
}

/// Matching read from the front, for any segment list: the segments before
/// the first `#` accept the first levels of `t` (any further levels may
/// follow), or, when `p` has no `#`, `p` accepts `t` level by level.
pub open spec fn prefix_matches(p: Seq<SegmentView>, t: Seq<Seq<char>>) -> bool {
    ||| exists|m: int|
        0 <= m < p.len() && (#[trigger] p[m]) is Multi && no_multi_before(p, m) && m <= t.len()
            && forall|i: int| 0 <= i < m ==> level_accepts(#[trigger] p[i], t[i])
    ||| no_multi_before(p, p.len() as int) && p.len() == t.len() && forall|i: int|
        0 <= i < p.len() ==> level_accepts(#[trigger] p[i], t[i])
}

/// Reading from the front: the empty list matches only the empty topic, a
/// leading `#` matches anything, and any other first segment must accept the
/// first level while the rest matches the rest.
proof fn lemma_prefix_step(p: Seq<SegmentView>, t: Seq<Seq<char>>)
    ensures
        p.len() == 0 ==> (prefix_matches(p, t) <==> t.len() == 0),
        p.len() > 0 && p[0] is Multi ==> prefix_matches(p, t),
        p.len() > 0 && !(p[0] is Multi) ==> (prefix_matches(p, t) <==> (t.len() > 0 && level_accepts(
            p[0],
            t[0],
        ) && prefix_matches(p.drop_first(), t.drop_first()))),
{
    if p.len() == 0 {
        if prefix_matches(p, t) {
            if exists|m: int|
                0 <= m < p.len() && (#[trigger] p[m]) is Multi && no_multi_before(p, m) && m <= t.len()
                    && forall|i: int| 0 <= i < m ==> level_accepts(#[trigger] p[i], t[i]) {
                let m = choose|m: int|
                    0 <= m < p.len() && (#[trigger] p[m]) is Multi && no_multi_before(p, m) && m <= t.len()
                        && forall|i: int| 0 <= i < m ==> level_accepts(#[trigger] p[i], t[i]);
            }
        }
    } else if p[0] is Multi {
        assert(no_multi_before(p, 0));
        assert(p[0] is Multi);
    } else {
        let q = p.drop_first();
        let u = t.drop_first();
        // From the whole to the rest.
        if prefix_matches(p, t) {
            if exists|m: int|
                0 <= m < p.len() && (#[trigger] p[m]) is Multi && no_multi_before(p, m) && m <= t.len()
                    && forall|i: int| 0 <= i < m ==> level_accepts(#[trigger] p[i], t[i]) {
                let m = choose|m: int|
                    0 <= m < p.len() && (#[trigger] p[m]) is Multi && no_multi_before(p, m) && m <= t.len()
                        && forall|i: int| 0 <= i < m ==> level_accepts(#[trigger] p[i], t[i]);
                assert(m > 0);
                assert(level_accepts(p[0], t[0]));
                assert(q[m - 1] == p[m]);
                assert forall|i: int| 0 <= i < m - 1 implies !(#[trigger] q[i] is Multi) by {
                    assert(q[i] == p[i + 1]);
                }
                assert forall|i: int| 0 <= i < m - 1 implies level_accepts(#[trigger] q[i], u[i]) by {
                    assert(q[i] == p[i + 1]);
                    assert(level_accepts(p[i + 1], t[i + 1]));
                }
                assert(prefix_matches(q, u));
            } else {
                assert(level_accepts(p[0], t[0]));
                assert forall|i: int| 0 <= i < q.len() implies !(#[trigger] q[i] is Multi) by {
                    assert(q[i] == p[i + 1]);
                }
                assert forall|i: int| 0 <= i < q.len() implies level_accepts(#[trigger] q[i], u[i]) by {
                    assert(q[i] == p[i + 1]);
                    assert(level_accepts(p[i + 1], t[i + 1]));
                }
            }
        }
        // From the rest to the whole.
        if t.len() > 0 && level_accepts(p[0], t[0]) && prefix_matches(q, u) {
            if exists|m: int|
                0 <= m < q.len() && (#[trigger] q[m]) is Multi && no_multi_before(q, m) && m <= u.len()
                    && forall|i: int| 0 <= i < m ==> level_accepts(#[trigger] q[i], u[i]) {
                let m = choose|m: int|
                    0 <= m < q.len() && (#[trigger] q[m]) is Multi && no_multi_before(q, m) && m <= u.len()
                        && forall|i: int| 0 <= i < m ==> level_accepts(#[trigger] q[i], u[i]);
                assert(p[m + 1] == q[m]);
                assert forall|i: int| 0 <= i < m + 1 implies !(#[trigger] p[i] is Multi) by {
                    if i > 0 {
                        assert(p[i] == q[i - 1]);
                    }
                }
                assert forall|i: int| 0 <= i < m + 1 implies level_accepts(#[trigger] p[i], t[i]) by {
                    if i > 0 {
                        assert(p[i] == q[i - 1]);
                        assert(level_accepts(q[i - 1], u[i - 1]));
                    }
                }
                assert(prefix_matches(p, t));
            } else {
                assert forall|i: int| 0 <= i < p.len() implies !(#[trigger] p[i] is Multi) by {
                    if i > 0 {
                        assert(p[i] == q[i - 1]);
                    }
                }
                assert forall|i: int| 0 <= i < p.len() implies level_accepts(#[trigger] p[i], t[i]) by {
                    if i > 0 {
                        assert(p[i] == q[i - 1]);
                        assert(level_accepts(q[i - 1], u[i - 1]));
                    }
                }
            }
        }
    }
}

/// For a pattern whose `#` can only be last, reading from the front is MQTT matching.
proof fn lemma_prefix_is_match(p: Seq<SegmentView>, t: Seq<Seq<char>>)
    requires
        multi_only_last(p),
    ensures
        prefix_matches(p, t) == pattern_matches(p, t),
{
    if p.len() > 0 && p.last() is Multi {
        let m = p.len() - 1;
        assert(no_multi_before(p, m));
        assert(p[m] is Multi);
        if prefix_matches(p, t) {
            if exists|k: int|
                0 <= k < p.len() && (#[trigger] p[k]) is Multi && no_multi_before(p, k) && k <= t.len()
                    && forall|i: int| 0 <= i < k ==> level_accepts(#[trigger] p[i], t[i]) {
                let k = choose|k: int|
                    0 <= k < p.len() && (#[trigger] p[k]) is Multi && no_multi_before(p, k) && k <= t.len()
                        && forall|i: int| 0 <= i < k ==> level_accepts(#[trigger] p[i], t[i]);
                if k < m {
                    assert(!(p[k] is Multi));
                }
            } else {
                assert(!(p[m] is Multi));
            }
        }
    } else {
        if prefix_matches(p, t) {
            if exists|k: int|
                0 <= k < p.len() && (#[trigger] p[k]) is Multi && no_multi_before(p, k) && k <= t.len()
                    && forall|i: int| 0 <= i < k ==> level_accepts(#[trigger] p[i], t[i]) {
                let k = choose|k: int|
                    0 <= k < p.len() && (#[trigger] p[k]) is Multi && no_multi_before(p, k) && k <= t.len()
                        && forall|i: int| 0 <= i < k ==> level_accepts(#[trigger] p[i], t[i]);
                if k < p.len() - 1 {
                    assert(!(p[k] is Multi));
                }
            }
        }
        if pattern_matches(p, t) {
            assert forall|i: int| 0 <= i < p.len() implies !(#[trigger] p[i] is Multi) by {
                if i < p.len() - 1 {
                } else {
                    assert(p[i] == p.last());
                }
            }
        }
    }
}

/// Whether the pattern suffix starting at `pi` matches the topic suffix
/// starting at `ti`, reading from the front (a `#` matches whatever is left).
fn matches_rec(pat: &[Segment], topic: &[String], pi: usize, ti: usize) -> (r: bool)
    requires
        pi <= pat@.len(),
    ensures
        r == if ti <= topic@.len() {
            prefix_matches(segment_views(pat@).skip(pi as int), string_views(topic@).skip(ti as int))
        } else {
            pi < pat@.len() && pat@[pi as int] is Multi
        },
    decreases pat@.len() - pi,
{
    let ghost p = segment_views(pat@).skip(pi as int);
    proof {
        if pi < pat@.len() {
            assert(p.drop_first() =~= segment_views(pat@).skip(pi + 1));
            assert(p[0] == pat@[pi as int]@);
        }
        if ti <= topic@.len() {
            let t = string_views(topic@).skip(ti as int);
            lemma_prefix_step(p, t);
            if ti < topic@.len() {
                assert(t.drop_first() =~= string_views(topic@).skip(ti + 1));
                assert(t[0] == topic@[ti as int]@);
            }
        }
    }
    if pi == pat.len() {
        return ti == topic.len();
    }
    match &pat[pi] {
        Segment::Multi => true,
        Segment::Single => {
            if ti >= topic.len() {
                return false;
            }
            matches_rec(pat, topic, pi + 1, ti + 1)
        },
        Segment::Literal(lit) => {
            if ti >= topic.len() || topic[ti] != *lit {
                return false;
            }
            matches_rec(pat, topic, pi + 1, ti + 1)
        },
    }
}

/// Classified split pieces form a well-formed pattern once `#` is known to be final.
proof fn lemma_classified_levels_valid(levels: Seq<Seq<char>>, d: char)
    requires
        valid_levels(levels, d),
        multi_only_last(levels.map_values(|l: Seq<char>| classify(l))),
    ensures
        valid_pattern(levels.map_values(|l: Seq<char>| classify(l)), d),
{
    let segs = levels.map_values(|l: Seq<char>| classify(l));
    let texts = segs.map_values(|g: SegmentView| segment_text(g));
    assert forall|i: int| 0 <= i < levels.len() implies #[trigger] texts[i] == levels[i] by {}
    assert(texts =~= levels);
}

} // verus!
