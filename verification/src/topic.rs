//! Hierarchical topic paths and the splitting rules shared with patterns.

use vstd::prelude::*;
use vstd::string::*;

verus! {

/// Default level delimiter (MQTT-style).
pub const DEFAULT_DELIMITER: char = '/';

/// Error returned when parsing a [`Topic`] or a pattern.
#[derive(Debug, Clone, Copy, PartialEq, Eq, Structural)]
pub enum ParseError {
    /// The input string was empty.
    Empty,
    /// A level was empty (leading, trailing, or doubled delimiter).
    EmptySegment,
    /// A multi-level wildcard (`#`) appeared somewhere other than the final level.
    MultiLevelNotFinal,
}

impl ParseError {
    /// A human-readable description of the error.
    pub fn message(&self) -> (r: &'static str)
        ensures
            r@ == match self {
                ParseError::Empty => "topic or pattern must not be empty"@,
                ParseError::EmptySegment => "empty segment (leading, trailing, or doubled delimiter)"@,
                ParseError::MultiLevelNotFinal => "multi-level wildcard '#' must be the final segment"@,
            },
    {
        match self {
            ParseError::Empty => "topic or pattern must not be empty",
            ParseError::EmptySegment => "empty segment (leading, trailing, or doubled delimiter)",
            ParseError::MultiLevelNotFinal => "multi-level wildcard '#' must be the final segment",
        }
    }
}

/// The pieces of `s` between occurrences of `d`, in order, exactly as
/// `str::split` yields them: `k` delimiters give `k + 1` pieces, and a piece is
/// empty where two delimiters touch or where `s` starts or ends with one.
pub open spec fn split_levels(s: Seq<char>, d: char) -> Seq<Seq<char>>
    decreases s.len(),
{
    if s.len() == 0 {
        seq![Seq::<char>::empty()]
    } else {
        let rest = split_levels(s.drop_first(), d);
        if s[0] == d {
            seq![Seq::<char>::empty()] + rest
        } else {
            rest.update(0, seq![s[0]] + rest[0])
        }
    }
}

/// The levels joined back together, with `d` between neighbours.
pub open spec fn join_levels(levels: Seq<Seq<char>>, d: char) -> Seq<char>
    decreases levels.len(),
{
    if levels.len() == 0 {
        Seq::<char>::empty()
    } else if levels.len() == 1 {
        levels[0]
    } else {
        levels[0] + seq![d] + join_levels(levels.drop_first(), d)
    }
}

/// A well-formed list of levels: at least one, each non-empty and free of `d`.
pub open spec fn valid_levels(levels: Seq<Seq<char>>, d: char) -> bool {
    &&& levels.len() >= 1
    &&& forall|i: int|
        0 <= i < levels.len() ==> (#[trigger] levels[i]).len() > 0 && !levels[i].contains(d)
}

/// Some piece of `split_levels(s, d)` is empty.
pub open spec fn has_empty_level(s: Seq<char>, d: char) -> bool {
    exists|i: int| 0 <= i < split_levels(s, d).len() && (#[trigger] split_levels(s, d)[i]).len() == 0
}

/// The views of a vector of strings.
pub open spec fn string_views(v: Seq<String>) -> Seq<Seq<char>> {
    v.map_values(|s: String| s@)
}

/// What splitting `s` on `d` gives: `Empty` for an empty input, `EmptySegment`
/// when some piece is empty, and the pieces otherwise.
pub open spec fn split_result(s: Seq<char>, d: char) -> Result<Seq<Seq<char>>, ParseError> {
    if s.len() == 0 {
        Err(ParseError::Empty)
    } else if has_empty_level(s, d) {
        Err(ParseError::EmptySegment)
    } else {
        Ok(split_levels(s, d))
    }
}

/// Splitting always yields at least one piece.
pub proof fn lemma_split_nonempty(s: Seq<char>, d: char)
    ensures
        split_levels(s, d).len() >= 1,
    decreases s.len(),
{
    if s.len() > 0 {
        lemma_split_nonempty(s.drop_first(), d);
    }
}

/// A delimiter-free string is a single piece.
pub proof fn lemma_split_no_delimiter(s: Seq<char>, d: char)
    requires
        !s.contains(d),
    ensures
        split_levels(s, d) == seq![s],
    decreases s.len(),
{
    if s.len() > 0 {
        let t = s.drop_first();
        assert(!t.contains(d)) by {
            if t.contains(d) {
                let k = choose|k: int| 0 <= k < t.len() && t[k] == d;
                assert(s[k + 1] == d);
            }
        }
        lemma_split_no_delimiter(t, d);
        assert(s[0] != d) by {
            if s[0] == d {
                assert(s.contains(d));
            }
        }
        assert(seq![s[0]] + t =~= s);
        assert(split_levels(t, d).update(0, seq![s[0]] + t) =~= seq![s]);
    } else {
        assert(s =~= Seq::<char>::empty());
    }
}

/// Splitting at the first delimiter: a delimiter-free prefix `a` becomes the
/// first piece and the rest is split on its own.
pub proof fn lemma_split_first_delimiter(a: Seq<char>, b: Seq<char>, d: char)
    requires
        !a.contains(d),
    ensures
        split_levels(a + seq![d] + b, d) == seq![a] + split_levels(b, d),
    decreases a.len(),
{
    let s = a + seq![d] + b;
    if a.len() == 0 {
        assert(s.drop_first() =~= b);
        assert(a =~= Seq::<char>::empty());
    } else {
        let a1 = a.drop_first();
        assert(!a1.contains(d)) by {
            if a1.contains(d) {
                let k = choose|k: int| 0 <= k < a1.len() && a1[k] == d;
                assert(a[k + 1] == d);
            }
        }
        assert(a[0] != d) by {
            if a[0] == d {
                assert(a.contains(d));
            }
        }
        lemma_split_first_delimiter(a1, b, d);
        assert(s.drop_first() =~= a1 + seq![d] + b);
        assert(seq![a[0]] + a1 =~= a);
        assert(s[0] == a[0]);
        assert((seq![a1] + split_levels(b, d)).update(0, seq![a[0]] + a1) =~= seq![a] + split_levels(b, d));
    }
}

/// The views of a parsed result.
pub open spec fn views_result(r: Result<Vec<String>, ParseError>) -> Result<Seq<Seq<char>>, ParseError> {
    match r {
        Ok(v) => Ok(string_views(v@)),
        Err(e) => Err(e),
    }
}

/// Split `input` on `delimiter`, rejecting empty input and empty levels.
pub(crate) fn split_segments(input: &str, delimiter: char) -> (r: Result<Vec<String>, ParseError>)
    ensures
        views_result(r) == split_result(input@, delimiter),
{
    broadcast use vstd::string::group_string_axioms;

    let ghost s = input@;
    let n = input.unicode_len();
    if n == 0 {
        return Err(ParseError::Empty);
    }
    let mut segments: Vec<String> = Vec::new();
    let mut piece = String::new();
    let mut piece_empty = true;
    let ghost mut start: int = 0;
    assert(s.subrange(0, n as int) =~= s);
    for c in it: input.chars()
        invariant
            s == input@,
            n == s.len(),
            it.seq() == s,
            0 <= start <= it.index() <= n,
            piece@ == s.subrange(start, it.index() as int),
            piece_empty == (piece@.len() == 0),
            !piece@.contains(delimiter),
            split_levels(s, delimiter) == string_views(segments@) + split_levels(
                s.subrange(start, n as int),
                delimiter,
            ),
            forall|k: int| 0 <= k < segments@.len() ==> (#[trigger] segments@[k])@.len() > 0,
    {
        let ghost i = it.index() as int;
        assert(c == s[i]);
        if c == delimiter {
            let ghost a = s.subrange(start, i);
            let ghost b = s.subrange(i + 1, n as int);
            assert(s.subrange(start, n as int) =~= a + seq![delimiter] + b);
            proof {
                lemma_split_first_delimiter(a, b, delimiter);
            }
            if piece_empty {
                proof {
                    let k = segments@.len() as int;
                    assert(split_levels(s, delimiter)[k] =~= a);
                }
                return Err(ParseError::EmptySegment);
            }
            let ghost old_segments = segments@;
            let mut done = String::new();
            std::mem::swap(&mut done, &mut piece);
            segments.push(done);
            piece_empty = true;
            assert(string_views(segments@) =~= string_views(old_segments) + seq![a]);
            proof {
                start = i + 1;
            }
            assert(piece@ =~= s.subrange(start, i + 1));
        } else {
            let ghost t = piece@;
            push_char(&mut piece, c);
            piece_empty = false;
            assert(piece@ =~= s.subrange(start, i + 1));
            assert forall|k: int| 0 <= k < piece@.len() implies piece@[k] != delimiter by {
                if k < t.len() {
                    assert(piece@[k] == t[k]);
                    assert(t.contains(t[k]));
                }
            }
        }
    }
    let ghost last = s.subrange(start, n as int);
    proof {
        lemma_split_no_delimiter(last, delimiter);
    }
    if piece_empty {
        proof {
            let k = segments@.len() as int;
            assert(split_levels(s, delimiter)[k] == last);
        }
        return Err(ParseError::EmptySegment);
    }
    let ghost old_segments = segments@;
    segments.push(piece);
    assert(string_views(segments@) =~= string_views(old_segments) + seq![last]);
    assert(split_levels(s, delimiter) == string_views(segments@));
    assert(!has_empty_level(s, delimiter)) by {
        if has_empty_level(s, delimiter) {
            let k = choose|k: int|
                0 <= k < split_levels(s, delimiter).len() && (#[trigger] split_levels(s, delimiter)[k]).len() == 0;
            assert(string_views(segments@)[k] == segments@[k]@);
        }
    }
    Ok(segments)
}

/// Every piece of a split is free of the delimiter.
pub proof fn lemma_split_pieces_free(s: Seq<char>, d: char)
    ensures
        forall|i: int|
            0 <= i < split_levels(s, d).len() ==> !(#[trigger] split_levels(s, d)[i]).contains(d),
    decreases s.len(),
{
    lemma_split_nonempty(s, d);
    if s.len() > 0 {
        let t = s.drop_first();
        lemma_split_pieces_free(t, d);
        lemma_split_nonempty(t, d);
        let rest = split_levels(t, d);
        if s[0] != d {
            let first = seq![s[0]] + rest[0];
            assert(!first.contains(d)) by {
                if first.contains(d) {
                    let k = choose|k: int| 0 <= k < first.len() && first[k] == d;
                    if k > 0 {
                        assert(rest[0][k - 1] == d);
                        assert(rest[0].contains(d));
                    }
                }
            }
            assert forall|i: int| 0 <= i < split_levels(s, d).len() implies !(#[trigger] split_levels(
                s,
                d,
            )[i]).contains(d) by {
                if i > 0 {
                    assert(split_levels(s, d)[i] == rest[i]);
                }
            }
        } else {
            assert forall|i: int| 0 <= i < split_levels(s, d).len() implies !(#[trigger] split_levels(
                s,
                d,
            )[i]).contains(d) by {
                if i > 0 {
                    assert(split_levels(s, d)[i] == rest[i - 1]);
                } else {
                    assert(split_levels(s, d)[0] =~= Seq::<char>::empty());
                }
            }
        }
    }
}

/// Appending a level to a non-empty list appends the delimiter and the level.
pub proof fn lemma_join_push(levels: Seq<Seq<char>>, x: Seq<char>, d: char)
    requires
        levels.len() >= 1,
    ensures
        join_levels(levels.push(x), d) == join_levels(levels, d) + seq![d] + x,
    decreases levels.len(),
{
    if levels.len() == 1 {
        let ls = levels.push(x);
        assert(ls.drop_first() =~= seq![x]);
        assert(join_levels(ls.drop_first(), d) == x);
        assert(join_levels(ls, d) == ls[0] + seq![d] + join_levels(ls.drop_first(), d));
    } else {
        let ls = levels.push(x);
        lemma_join_push(levels.drop_first(), x, d);
        assert(ls.drop_first() =~= levels.drop_first().push(x));
        assert(ls[0] == levels[0]);
        assert(join_levels(ls, d) == ls[0] + seq![d] + join_levels(ls.drop_first(), d));
        assert(join_levels(levels, d) == levels[0] + seq![d] + join_levels(levels.drop_first(), d));
        assert(levels[0] + seq![d] + (join_levels(levels.drop_first(), d) + seq![d] + x)
            =~= levels[0] + seq![d] + join_levels(levels.drop_first(), d) + seq![d] + x);
    }
}

/// Joining the pieces of a split gives back the split string.
pub proof fn lemma_join_split(s: Seq<char>, d: char)
    ensures
        join_levels(split_levels(s, d), d) == s,
    decreases s.len(),
{
    if s.len() == 0 {
        assert(s =~= Seq::<char>::empty());
    } else {
        let t = s.drop_first();
        let r = split_levels(t, d);
        lemma_join_split(t, d);
        lemma_split_nonempty(t, d);
        if s[0] == d {
            let ls = seq![Seq::<char>::empty()] + r;
            assert(ls.drop_first() =~= r);
            assert(join_levels(ls, d) == ls[0] + seq![d] + join_levels(ls.drop_first(), d));
            assert(Seq::<char>::empty() + seq![d] + t =~= s);
        } else {
            let ls = r.update(0, seq![s[0]] + r[0]);
            if r.len() == 1 {
                assert(join_levels(ls, d) == ls[0]);
                assert(seq![s[0]] + t =~= s);
            } else {
                assert(ls.drop_first() =~= r.drop_first());
                assert(join_levels(ls, d) == ls[0] + seq![d] + join_levels(ls.drop_first(), d));
                assert(join_levels(r, d) == r[0] + seq![d] + join_levels(r.drop_first(), d));
                assert(seq![s[0]] + r[0] + seq![d] + join_levels(r.drop_first(), d) =~= seq![s[0]]
                    + join_levels(r, d));
                assert(seq![s[0]] + t =~= s);
            }
        }
    }
}

/// Splitting joined delimiter-free levels gives back the levels.
pub proof fn lemma_split_join(levels: Seq<Seq<char>>, d: char)
    requires
        levels.len() >= 1,
        forall|i: int| 0 <= i < levels.len() ==> !(#[trigger] levels[i]).contains(d),
    ensures
        split_levels(join_levels(levels, d), d) == levels,
    decreases levels.len(),
{
    if levels.len() == 1 {
        lemma_split_no_delimiter(levels[0], d);
        assert(seq![levels[0]] =~= levels);
    } else {
        let rest = levels.drop_first();
        assert forall|i: int| 0 <= i < rest.len() implies !(#[trigger] rest[i]).contains(d) by {
            assert(rest[i] == levels[i + 1]);
        }
        lemma_split_join(rest, d);
        assert(!levels[0].contains(d));
        lemma_split_first_delimiter(levels[0], join_levels(rest, d), d);
        assert(seq![levels[0]] + rest =~= levels);
    }
}

/// Law: printing a successfully parsed topic or pattern text gives back the
/// text; the parsed levels joined with the delimiter are the input.
pub proof fn law_parsed_levels_rejoin(s: Seq<char>, d: char)
    requires
        split_result(s, d) is Ok,
    ensures
        join_levels(split_result(s, d)->Ok_0, d) == s,
{
    lemma_join_split(s, d);
}

/// Law: parsing the text of well-formed levels gives back exactly those levels.
pub proof fn law_rejoined_levels_reparse(levels: Seq<Seq<char>>, d: char)
    requires
        valid_levels(levels, d),
    ensures
        split_result(join_levels(levels, d), d) == Ok::<Seq<Seq<char>>, ParseError>(levels),
{
    lemma_split_join(levels, d);
    lemma_join_split(join_levels(levels, d), d);
    assert(join_levels(levels, d).len() > 0) by {
        lemma_join_starts_with_first(levels, d);
    }
    assert(!has_empty_level(join_levels(levels, d), d)) by {
        if has_empty_level(join_levels(levels, d), d) {
            let k = choose|k: int|
                0 <= k < split_levels(join_levels(levels, d), d).len() && (#[trigger] split_levels(
                    join_levels(levels, d),
                    d,
                )[k]).len() == 0;
            assert(levels[k].len() > 0);
        }
    }
}

/// The joined text is at least as long as its first level.
proof fn lemma_join_starts_with_first(levels: Seq<Seq<char>>, d: char)
    requires
        levels.len() >= 1,
    ensures
        join_levels(levels, d).len() >= levels[0].len(),
{
}

/// A successful split yields well-formed levels.
pub proof fn lemma_split_ok_valid(s: Seq<char>, d: char)
    requires
        split_result(s, d) is Ok,
    ensures
        valid_levels(split_levels(s, d), d),
{
    lemma_split_pieces_free(s, d);
    lemma_split_nonempty(s, d);
    let v = split_levels(s, d);
    assert forall|i: int| 0 <= i < v.len() implies (#[trigger] v[i]).len() > 0 && !v[i].contains(d) by {
        if v[i].len() == 0 {
            assert(has_empty_level(s, d));
        }
    }
}

/// A parsed hierarchical topic: one or more non-empty levels.
///
/// Topics never contain wildcards; patterns are the filters.
#[derive(Debug, PartialEq, Eq, Hash)]
pub struct Topic {
    segments: Vec<String>,
    delimiter: char,
}

/// What a [`Topic`] stands for: its levels and the delimiter it was parsed with.
pub struct TopicView {
    pub segments: Seq<Seq<char>>,
    pub delimiter: char,
}

impl View for Topic {
    type V = TopicView;

    closed spec fn view(&self) -> TopicView {
        TopicView { segments: string_views(self.segments@), delimiter: self.delimiter }
    }
}

impl Topic {
    /// Every topic has at least one level, and no level is empty or holds the delimiter.
    #[verifier::type_invariant]
    pub open spec fn inv(self) -> bool {
        valid_levels(self@.segments, self@.delimiter)
    }

    /// Parse `input` using the default delimiter `/`.
    pub fn parse(input: &str) -> (r: Result<Topic, ParseError>)
        ensures
            match r {
                Ok(t) => split_result(input@, DEFAULT_DELIMITER) == Ok::<Seq<Seq<char>>, ParseError>(
                    t@.segments,
                ) && t@.delimiter == DEFAULT_DELIMITER,
                Err(e) => split_result(input@, DEFAULT_DELIMITER) == Err::<Seq<Seq<char>>, ParseError>(e),
            },
    {
        Self::parse_with(input, DEFAULT_DELIMITER)
    }

    /// Parse `input` using a custom level `delimiter`.
    pub fn parse_with(input: &str, delimiter: char) -> (r: Result<Topic, ParseError>)
        ensures
            match r {
                Ok(t) => split_result(input@, delimiter) == Ok::<Seq<Seq<char>>, ParseError>(t@.segments)
                    && t@.delimiter == delimiter,
                Err(e) => split_result(input@, delimiter) == Err::<Seq<Seq<char>>, ParseError>(e),
            },
    {
        let segments = split_segments(input, delimiter)?;
        proof {
            lemma_split_ok_valid(input@, delimiter);
        }
        Ok(Topic { segments, delimiter })
    }

    /// Borrowed topic levels in order.
    pub fn segments(&self) -> (r: &[String])
        ensures
            string_views(r@) == self@.segments,
    {
        self.segments.as_slice()
    }

    /// The delimiter used when this topic was parsed.
    pub fn delimiter(&self) -> (r: char)
        ensures
            r == self@.delimiter,
    {
        self.delimiter
    }

    /// Parse `value` with the default delimiter, as a conversion from `&str`.
    pub fn try_from(value: &str) -> (r: Result<Topic, ParseError>)
        ensures
            match r {
                Ok(t) => split_result(value@, DEFAULT_DELIMITER) == Ok::<Seq<Seq<char>>, ParseError>(
                    t@.segments,
                ) && t@.delimiter == DEFAULT_DELIMITER,
                Err(e) => split_result(value@, DEFAULT_DELIMITER) == Err::<Seq<Seq<char>>, ParseError>(e),
            },
    {
        Self::parse(value)
    }

    /// The levels written out with the delimiter between them.
    pub fn to_string(&self) -> (r: String)
        ensures
            r@ == join_levels(self@.segments, self@.delimiter),
    {
        let mut out = String::new();
        let n = self.segments.len();
        let mut i: usize = 0;
        while i < n
            invariant
                n == self.segments@.len(),
                i <= n,
                i == 0 ==> out@ == Seq::<char>::empty(),
                i > 0 ==> out@ == join_levels(string_views(self.segments@).take(i as int), self.delimiter),
            decreases n - i,
        {
            let ghost before = out@;
            let ghost levels = string_views(self.segments@);
            if i > 0 {
                push_char(&mut out, self.delimiter);
            }
            out.append(self.segments[i].as_str());
            proof {
                if i > 0 {
                    lemma_join_push(levels.take(i as int), levels[i as int], self.delimiter);
                    assert(levels.take(i as int).push(levels[i as int]) =~= levels.take(i + 1));
                } else {
                    assert(levels.take(1) =~= seq![levels[0]]);
                    assert(out@ =~= levels[0]);
                }
            }
            i = i + 1;
        }
        proof {
            use_type_invariant(self);
            assert(string_views(self.segments@).take(n as int) =~= string_views(self.segments@));
        }
        out
    }
}

impl Clone for Topic {
    fn clone(&self) -> (r: Topic)
        ensures
            r@ == self@,
    {
        proof {
            use_type_invariant(self);
        }
        let segments = self.segments.clone();
        proof {
            assert(string_views(segments@) =~= string_views(self.segments@)) by {
                assert forall|i: int| 0 <= i < segments@.len() implies segments@[i]@ == self.segments@[i]@ by {
                    assert(cloned::<String>(self.segments@[i], segments@[i]));
                }
            }
        }
        Topic { segments, delimiter: self.delimiter }
    }
}

/// Appends one character to a string.
///
/// Trusted: calls `String::push`, whose documentation says it appends the
/// given char to the end of the string; the contract says the view grows by
/// exactly that character.
#[verifier::external_body]
pub(crate) fn push_char(s: &mut String, c: char)
    ensures
        final(s)@ == old(s)@.push(c),
{
    s.push(c);
}

} // verus!
