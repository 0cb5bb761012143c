//! Texts as sequences of characters.

use vstd::prelude::*;

verus! {

/// The characters of `s`.
pub fn chars_of(s: &str) -> (v: Vec<char>)
    ensures
        v@ == s@,
{
    broadcast use vstd::string::group_string_axioms;

    let mut v: Vec<char> = Vec::new();
    for c in it: s.chars()
        invariant
            it.seq() == s@,
            v@ == it.seq().take(it.index() as int),
    {
        v.push(c);
        assert(it.seq().take(it.index() + 1) == it.seq().take(it.index() as int).push(c));
    }
    assert(s@.take(s@.len() as int) == s@);
    v
}

/// `String::push`: appends the character to the end of the string.
#[verifier::external_body]
fn push_char(s: &mut String, c: char)
    ensures
        final(s)@ == old(s)@.push(c),
{
    s.push(c)
}

/// The string made of the characters of `v`.
pub fn string_of(v: &Vec<char>) -> (s: String)
    ensures
        s@ == v@,
{
    let mut s = String::new();
    let mut i: usize = 0;
    while i < v.len()
        invariant
            i <= v@.len(),
            s@ == v@.take(i as int),
        decreases v@.len() - i,
    {
        push_char(&mut s, v[i]);
        assert(v@.take(i + 1) == v@.take(i as int).push(v@[i as int]));
        i += 1;
    }
    assert(v@.take(i as int) == v@);
    s
}

/// Whether the two texts hold the same characters.
pub fn same_text(a: &str, b: &str) -> (r: bool)
    ensures
        r == (a@ == b@),
{
    let x = a.to_owned();
    let y = b.to_owned();
    x == y
}

/// Whether `q` stands in `s` at position `i`.
pub open spec fn occurs_at(q: Seq<char>, s: Seq<char>, i: int) -> bool {
    0 <= i && i + q.len() <= s.len() && s.subrange(i, i + q.len()) == q
}

/// Whether `s` begins with `q`.
pub open spec fn has_prefix(s: Seq<char>, q: Seq<char>) -> bool {
    occurs_at(q, s, 0)
}

/// Whether `s` ends with `q`.
pub open spec fn has_suffix(s: Seq<char>, q: Seq<char>) -> bool {
    occurs_at(q, s, s.len() - q.len())
}

/// Whether `q` stands somewhere in `s`.
pub open spec fn has_part(s: Seq<char>, q: Seq<char>) -> bool {
    exists|i: int| occurs_at(q, s, i)
}

/// Whether `q` stands in `s` at position `i`.
pub fn matches_at(s: &Vec<char>, q: &Vec<char>, i: usize) -> (b: bool)
    ensures
        b == occurs_at(q@, s@, i as int),
{
    if i > s.len() || q.len() > s.len() - i {
        return false;
    }
    let mut k: usize = 0;
    while k < q.len()
        invariant
            k <= q@.len(),
            i + q@.len() <= s@.len() <= usize::MAX,
            forall|j: int| 0 <= j < k ==> s@[i + j] == q@[j],
        decreases q@.len() - k,
    {
        if s[i + k] != q[k] {
            proof {
                let part = s@.subrange(i as int, i + q@.len());
                assert(part[k as int] == s@[i + k]);
            }
            return false;
        }
        k += 1;
    }
    assert(s@.subrange(i as int, i + q@.len()) =~= q@);
    true
}

/// Whether `s` begins with `q`.
pub fn starts_with(s: &Vec<char>, q: &Vec<char>) -> (b: bool)
    ensures
        b == has_prefix(s@, q@),
{
    matches_at(s, q, 0)
}

/// Whether `s` ends with `q`.
pub fn ends_with(s: &Vec<char>, q: &Vec<char>) -> (b: bool)
    ensures
        b == has_suffix(s@, q@),
{
    if q.len() > s.len() {
        false
    } else {
        matches_at(s, q, s.len() - q.len())
    }
}

/// Whether `q` stands somewhere in `s`.
pub fn contains(s: &Vec<char>, q: &Vec<char>) -> (b: bool)
    ensures
        b == has_part(s@, q@),
{
    if q.len() > s.len() {
        return false;
    }
    let last = s.len() - q.len();
    let mut i: usize = 0;
    loop
        invariant
            i <= last,
            last == s@.len() - q@.len(),
            forall|j: int| 0 <= j < i ==> !occurs_at(q@, s@, j),
        decreases last - i,
    {
        if matches_at(s, q, i) {
            return true;
        }
        if i == last {
            return false;
        }
        i += 1;
    }
}

/// A text pattern: what a text has to begin with, hold or end with.
pub enum TextQuery {
    StartsWith(Vec<char>),
    Contains(Vec<char>),
    EndsWith(Vec<char>),
}

/// What a text pattern stands for in contracts.
pub enum TextPattern {
    StartsWith(Seq<char>),
    Contains(Seq<char>),
    EndsWith(Seq<char>),
}

impl TextPattern {
    /// The text of the pattern.
    pub open spec fn text(self) -> Seq<char> {
        match self {
            TextPattern::StartsWith(q) => q,
            TextPattern::Contains(q) => q,
            TextPattern::EndsWith(q) => q,
        }
    }

    /// Whether `s` meets the pattern.
    pub open spec fn accepts(self, s: Seq<char>) -> bool {
        match self {
            TextPattern::StartsWith(q) => has_prefix(s, q),
            TextPattern::Contains(q) => has_part(s, q),
            TextPattern::EndsWith(q) => has_suffix(s, q),
        }
    }
}

/// The pattern that `t` writes: `x*` asks for a beginning, `*x` for an end,
/// and `*x*` or a text without a star at either end for a part.
pub open spec fn pattern_of(t: Seq<char>) -> TextPattern {
    let lead = t.len() > 0 && t[0] == '*';
    let rest = if lead {
        t.skip(1)
    } else {
        t
    };
    let trail = rest.len() > 0 && rest.last() == '*';
    let body = if trail {
        rest.drop_last()
    } else {
        rest
    };
    if lead && !trail {
        TextPattern::EndsWith(body)
    } else if trail && !lead {
        TextPattern::StartsWith(body)
    } else {
        TextPattern::Contains(body)
    }
}

impl View for TextQuery {
    type V = TextPattern;

    open spec fn view(&self) -> TextPattern {
        match self {
            TextQuery::StartsWith(q) => TextPattern::StartsWith(q@),
            TextQuery::Contains(q) => TextPattern::Contains(q@),
            TextQuery::EndsWith(q) => TextPattern::EndsWith(q@),
        }
    }
}

impl TextQuery {
    /// Reads a pattern.
    pub fn parse(text: &str) -> (r: TextQuery)
        ensures
            r@ == pattern_of(text@),
    {
        let t = chars_of(text);
        let n = t.len();
        let lead = n > 0 && t[0] == '*';
        let from: usize = if lead {
            1
        } else {
            0
        };
        let trail = n > from && t[n - 1] == '*';
        let to: usize = if trail {
            n - 1
        } else {
            n
        };
        let mut body: Vec<char> = Vec::new();
        let mut i: usize = from;
        while i < to
            invariant
                from <= i <= to <= t@.len(),
                body@ == t@.subrange(from as int, i as int),
            decreases to - i,
        {
            body.push(t[i]);
            assert(t@.subrange(from as int, i + 1) == t@.subrange(from as int, i as int).push(
                t@[i as int],
            ));
            i += 1;
        }
        proof {
            let rest = if lead {
                t@.skip(1)
            } else {
                t@
            };
            assert(rest == t@.subrange(from as int, n as int));
            if trail {
                assert(rest.drop_last() == t@.subrange(from as int, to as int));
            }
        }
        if lead && !trail {
            TextQuery::EndsWith(body)
        } else if trail && !lead {
            TextQuery::StartsWith(body)
        } else {
            TextQuery::Contains(body)
        }
    }

    /// The text of the pattern.
    pub fn text(&self) -> (q: &Vec<char>)
        ensures
            q@ == self@.text(),
    {
        match self {
            TextQuery::StartsWith(q) => q,
            TextQuery::Contains(q) => q,
            TextQuery::EndsWith(q) => q,
        }
    }

    /// Whether `s` meets the pattern.
    pub fn accepts(&self, s: &Vec<char>) -> (b: bool)
        ensures
            b == self@.accepts(s@),
    {
        match self {
            TextQuery::StartsWith(q) => starts_with(s, q),
            TextQuery::Contains(q) => contains(s, q),
            TextQuery::EndsWith(q) => ends_with(s, q),
        }
    }
}

/// A text that meets a pattern holds the text of the pattern.
pub proof fn lemma_accepts_has_part(p: TextPattern, s: Seq<char>)
    requires
        p.accepts(s),
    ensures
        has_part(s, p.text()),
{
    match p {
        TextPattern::StartsWith(q) => {
            assert(occurs_at(q, s, 0));
        },
        TextPattern::Contains(q) => {},
        TextPattern::EndsWith(q) => {
            assert(occurs_at(q, s, s.len() - q.len()));
        },
    }
}

/// The first position of `c` in `s`, or the length of `s` where `c` is not in it.
pub open spec fn index_of(s: Seq<char>, c: char) -> int
    decreases s.len(),
{
    if s.len() == 0 {
        0
    } else if s[0] == c {
        0
    } else {
        1 + index_of(s.skip(1), c)
    }
}

/// The position before which `c` does not occur, and at which it does or `s` ends.
pub proof fn lemma_index_of(s: Seq<char>, c: char, i: int)
    requires
        0 <= i <= s.len(),
        forall|j: int| 0 <= j < i ==> s[j] != c,
        i < s.len() ==> s[i] == c,
    ensures
        index_of(s, c) == i,
    decreases i,
{
    if i > 0 {
        let t = s.skip(1);
        assert forall|j: int| 0 <= j < i - 1 implies t[j] != c by {
            assert(t[j] == s[j + 1]);
        }
        if i - 1 < t.len() {
            assert(t[i - 1] == s[i]);
        }
        lemma_index_of(t, c, i - 1);
    }
}

/// The first position of `c` in `s` at or after `from` and before `to`, or `to`.
pub fn find_char(s: &Vec<char>, from: usize, to: usize, c: char) -> (r: usize)
    requires
        from <= to <= s@.len(),
    ensures
        from <= r <= to,
        r == from + index_of(s@.subrange(from as int, to as int), c),
{
    let ghost part = s@.subrange(from as int, to as int);
    let mut i: usize = from;
    while i < to && s[i] != c
        invariant
            from <= i <= to <= s@.len(),
            part == s@.subrange(from as int, to as int),
            forall|j: int| 0 <= j < i - from ==> part[j] != c,
        decreases to - i,
    {
        assert(part[i - from] == s@[i as int]);
        i += 1;
    }
    proof {
        if i < to {
            assert(part[i - from] == s@[i as int]);
        }
        lemma_index_of(part, c, i - from);
    }
    i
}

/// The characters at `from..to` of `s`.
pub fn slice_chars(s: &Vec<char>, from: usize, to: usize) -> (r: Vec<char>)
    requires
        from <= to <= s@.len(),
    ensures
        r@ == s@.subrange(from as int, to as int),
{
    let mut r: Vec<char> = Vec::new();
    let mut i: usize = from;
    while i < to
        invariant
            from <= i <= to <= s@.len(),
            r@ == s@.subrange(from as int, i as int),
        decreases to - i,
    {
        r.push(s[i]);
        assert(s@.subrange(from as int, i + 1) == s@.subrange(from as int, i as int).push(
            s@[i as int],
        ));
        i += 1;
    }
    r
}

/// Whether the characters at `from..to` of `s` spell `word`.
pub fn spells(s: &Vec<char>, from: usize, to: usize, word: &str) -> (b: bool)
    requires
        from <= to <= s@.len(),
    ensures
        b == (s@.subrange(from as int, to as int) == word@),
{
    let w = chars_of(word);
    if w.len() != to - from {
        return false;
    }
    let b = matches_at(s, &w, from);
    b
}

/// The lowercase form of a text, as Unicode defines it.
pub uninterp spec fn lowercase_of(s: Seq<char>) -> Seq<char>;

/// `str::to_lowercase`: the lowercase equivalent of the text as a new string.
#[verifier::external_body]
pub(crate) fn to_lowercase(s: &str) -> (r: String)
    ensures
        r@ == lowercase_of(s@),
{
    s.to_lowercase()
}

/// Whether a character is white space: a tab, a line feed, a vertical tab, a
/// form feed, a carriage return, a space, the next-line character, a
/// no-break space, the Ogham space mark, one of the spaces of fixed width
/// from the en quad to the hair space, the line and the paragraph separator,
/// the narrow no-break space, the medium mathematical space or the
/// ideographic space.
pub open spec fn is_space(c: char) -> bool {
    ||| '\u{0009}' <= c <= '\u{000D}'
    ||| c == ' '
    ||| c == '\u{0085}'
    ||| c == '\u{00A0}'
    ||| c == '\u{1680}'
    ||| '\u{2000}' <= c <= '\u{200A}'
    ||| c == '\u{2028}'
    ||| c == '\u{2029}'
    ||| c == '\u{202F}'
    ||| c == '\u{205F}'
    ||| c == '\u{3000}'
}

/// Whether a character is white space.
pub fn is_whitespace(c: char) -> (b: bool)
    ensures
        b == is_space(c),
{
    (c >= '\u{0009}' && c <= '\u{000D}') || c == ' ' || c == '\u{0085}' || c == '\u{00A0}' || c
        == '\u{1680}' || (c >= '\u{2000}' && c <= '\u{200A}') || c == '\u{2028}' || c
        == '\u{2029}' || c == '\u{202F}' || c == '\u{205F}' || c == '\u{3000}'
}

/// The number of characters at the front of `s` that are no white space.
pub open spec fn word_len(s: Seq<char>) -> int
    decreases s.len(),
{
    if s.len() == 0 || is_space(s[0]) {
        0
    } else {
        1 + word_len(s.skip(1))
    }
}

/// The words of `s`: its longest runs of characters that are no white space.
pub open spec fn words_of(s: Seq<char>) -> Seq<Seq<char>>
    decreases s.len(),
{
    if s.len() == 0 {
        Seq::empty()
    } else if is_space(s[0]) {
        words_of(s.skip(1))
    } else {
        let n = word_len(s);
        if 0 < n <= s.len() {
            seq![s.take(n)] + words_of(s.skip(n))
        } else {
            Seq::empty()
        }
    }
}

/// A run of characters does not reach beyond the text.
pub proof fn lemma_word_len_bounds(s: Seq<char>)
    ensures
        0 <= word_len(s) <= s.len(),
        s.len() > 0 && !is_space(s[0]) ==> word_len(s) > 0,
    decreases s.len(),
{
    if s.len() > 0 && !is_space(s[0]) {
        lemma_word_len_bounds(s.skip(1));
    }
}

/// The run of characters that are no white space ends where `i` says.
pub proof fn lemma_word_len(s: Seq<char>, i: int)
    requires
        0 <= i <= s.len(),
        forall|j: int| 0 <= j < i ==> !is_space(s[j]),
        i < s.len() ==> is_space(s[i]),
    ensures
        word_len(s) == i,
    decreases i,
{
    if i > 0 {
        let t = s.skip(1);
        assert forall|j: int| 0 <= j < i - 1 implies !is_space(t[j]) by {
            assert(t[j] == s[j + 1]);
        }
        if i - 1 < t.len() {
            assert(t[i - 1] == s[i]);
        }
        lemma_word_len(t, i - 1);
    }
}

/// The end of the word that starts at `from`: the first position at or after
/// `from` with white space, or the length of `s`.
pub fn word_end(s: &Vec<char>, from: usize) -> (r: usize)
    requires
        from <= s@.len(),
    ensures
        from <= r <= s@.len(),
        r == from + word_len(s@.skip(from as int)),
{
    let ghost rest = s@.skip(from as int);
    let mut i: usize = from;
    while i < s.len() && !is_whitespace(s[i])
        invariant
            from <= i <= s@.len(),
            rest == s@.skip(from as int),
            forall|j: int| 0 <= j < i - from ==> !is_space(rest[j]),
        decreases s@.len() - i,
    {
        assert(rest[i - from] == s@[i as int]);
        i += 1;
    }
    proof {
        if i < s@.len() {
            assert(rest[i - from] == s@[i as int]);
        }
        lemma_word_len(rest, i - from);
    }
    i
}

/// The words of a text.
pub fn split_words(text: &str) -> (words: Vec<String>)
    ensures
        words@.len() == words_of(text@).len(),
        forall|k: int| 0 <= k < words@.len() ==> (#[trigger] words@[k])@ == words_of(text@)[k],
{
    let s = chars_of(text);
    let mut words: Vec<String> = Vec::new();
    let mut i: usize = 0;
    proof {
        assert(s@.skip(0) == s@);
        assert(Seq::new(0, |k: int| words@[k]@) + words_of(s@) == words_of(s@));
    }
    while i < s.len()
        invariant
            i <= s@.len(),
            s@ == text@,
            words_of(s@) == Seq::new(words@.len(), |k: int| words@[k]@) + words_of(s@.skip(i as int)),
        decreases s@.len() - i,
    {
        let ghost done = Seq::new(words@.len(), |k: int| words@[k]@);
        let ghost rest = s@.skip(i as int);
        if is_whitespace(s[i]) {
            proof {
                assert(rest[0] == s@[i as int]);
                assert(rest.skip(1) == s@.skip(i + 1));
            }
            i += 1;
        } else {
            let end = word_end(&s, i);
            let word = slice_chars(&s, i, end);
            proof {
                assert(rest[0] == s@[i as int]);
                lemma_word_len_bounds(rest);
                assert(end > i);
                assert(rest.take(end - i) == s@.subrange(i as int, end as int));
                assert(rest.skip(end - i) == s@.skip(end as int));
            }
            words.push(string_of(&word));
            proof {
                let now = Seq::new(words@.len(), |k: int| words@[k]@);
                assert(now == done + seq![rest.take(end - i)]);
            }
            i = end;
        }
    }
    proof {
        assert(s@.skip(i as int) == Seq::<char>::empty());
        let all = Seq::new(words@.len(), |k: int| words@[k]@);
        assert(all + Seq::<Seq<char>>::empty() == all);
    }
    words
}

} // verus!
