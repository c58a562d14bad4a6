//! Whitespace-separated fields of a line of text.

use vstd::prelude::*;

verus! {

/// Whether `c` separates fields: the characters with the Unicode property
/// `White_Space`.
pub open spec fn is_whitespace(c: char) -> bool {
    let u = c as u32;
    ||| 0x09 <= u <= 0x0d
    ||| u == 0x20
    ||| u == 0x85
    ||| u == 0xa0
    ||| u == 0x1680
    ||| 0x2000 <= u <= 0x200a
    ||| u == 0x2028
    ||| u == 0x2029
    ||| u == 0x202f
    ||| u == 0x205f
    ||| u == 0x3000
}

/// A word is a non-empty text without whitespace: what a field is made of.
pub open spec fn is_word(w: Seq<char>) -> bool {
    &&& w.len() > 0
    &&& forall|i: int| 0 <= i < w.len() ==> !is_whitespace(#[trigger] w[i])
}

/// The fields of `s`: its maximal runs of characters that are not whitespace,
/// from left to right.
///
/// Read from the right end: a whitespace character adds nothing, any other
/// character either extends the field that its left neighbour belongs to or
/// opens a new one.
pub open spec fn fields(s: Seq<char>) -> Seq<Seq<char>>
    decreases s.len(),
{
    if s.len() == 0 {
        Seq::empty()
    } else if is_whitespace(s.last()) {
        fields(s.drop_last())
    } else if s.len() > 1 && !is_whitespace(s[s.len() - 2]) {
        let before = fields(s.drop_last());
        before.drop_last().push(before.last().push(s.last()))
    } else {
        fields(s.drop_last()).push(seq![s.last()])
    }
}

/// A stretch of a line, by the positions of its first character and of the one
/// after its last.
#[derive(Debug, Clone, Copy, PartialEq, Eq)]
pub struct Span {
    pub start: usize,
    pub end: usize,
}

/// The texts that `spans` cut out of `s`.
pub open spec fn cut(s: Seq<char>, spans: Seq<Span>) -> Seq<Seq<char>> {
    Seq::new(spans.len(), |k: int| s.subrange(spans[k].start as int, spans[k].end as int))
}

/// Whether every span of `spans` lies within a text of `len` characters and
/// is not empty.
pub open spec fn spans_within(spans: Seq<Span>, len: int) -> bool {
    forall|k: int| 0 <= k < spans.len() ==> (#[trigger] spans[k]).start < spans[k].end <= len
}

/// Whitespace at the end of a text adds no field.
pub proof fn lemma_fields_push_whitespace(s: Seq<char>, c: char)
    requires
        is_whitespace(c),
    ensures
        fields(s.push(c)) == fields(s),
{
    assert(s.push(c).drop_last() =~= s);
}

/// A word written after whitespace, or at the start, is one more field.
pub proof fn lemma_fields_append_word(s: Seq<char>, w: Seq<char>)
    requires
        is_word(w),
        s.len() == 0 || is_whitespace(s.last()),
    ensures
        fields(s + w) == fields(s).push(w),
    decreases w.len(),
{
    let head = w.drop_last();
    let c = w.last();
    let whole = s + w;
    assert(whole.drop_last() =~= s + head);
    assert(whole.last() == c);
    if head.len() == 0 {
        assert(s + head =~= s);
        assert(seq![c] =~= w);
        if s.len() > 0 {
            assert(whole[whole.len() - 2] == s.last());
        }
    } else {
        assert(is_word(head)) by {
            assert forall|i: int| 0 <= i < head.len() implies !is_whitespace(
                #[trigger] head[i],
            ) by {
                assert(head[i] == w[i]);
            }
        }
        lemma_fields_append_word(s, head);
        assert(whole[whole.len() - 2] == w[w.len() - 2]);
        let before = fields(s + head);
        assert(before.drop_last() =~= fields(s));
        assert(before.last().push(c) =~= w);
    }
}

/// A gap is a text of whitespace only; it may be empty.
pub open spec fn is_gap(g: Seq<char>) -> bool {
    forall|i: int| 0 <= i < g.len() ==> is_whitespace(#[trigger] g[i])
}

/// The text that begins with `gaps[0]` and goes on with each of `words`
/// followed by the next gap.
pub open spec fn laid_out(gaps: Seq<Seq<char>>, words: Seq<Seq<char>>) -> Seq<char>
    decreases words.len(),
{
    if words.len() == 0 {
        gaps[0]
    } else {
        laid_out(gaps.drop_last(), words.drop_last()) + words.last() + gaps.last()
    }
}

/// A gap at the end of a text adds no field.
pub proof fn lemma_fields_append_gap(s: Seq<char>, g: Seq<char>)
    requires
        is_gap(g),
    ensures
        fields(s + g) == fields(s),
        g.len() > 0 ==> is_whitespace((s + g).last()),
    decreases g.len(),
{
    if g.len() == 0 {
        assert(s + g =~= s);
    } else {
        let head = g.drop_last();
        assert(is_gap(head)) by {
            assert forall|i: int| 0 <= i < head.len() implies is_whitespace(
                #[trigger] head[i],
            ) by {
                assert(head[i] == g[i]);
            }
        }
        lemma_fields_append_gap(s, head);
        assert(s + g =~= (s + head).push(g.last()));
        lemma_fields_push_whitespace(s + head, g.last());
    }
}

/// The fields of a text are the words that it is laid out with: however
/// the words are spaced, as long as there is whitespace between any two of
/// them, the fields are these words, in their order.
pub proof fn lemma_fields_of_layout(gaps: Seq<Seq<char>>, words: Seq<Seq<char>>)
    requires
        gaps.len() == words.len() + 1,
        forall|k: int| 0 <= k < gaps.len() ==> is_gap(#[trigger] gaps[k]),
        forall|k: int| 0 < k < words.len() ==> (#[trigger] gaps[k]).len() > 0,
        forall|k: int| 0 <= k < words.len() ==> is_word(#[trigger] words[k]),
    ensures
        fields(laid_out(gaps, words)) == words,
    decreases words.len(),
{
    let none = Seq::<char>::empty();
    if words.len() == 0 {
        assert(none + gaps[0] =~= gaps[0]);
        lemma_fields_append_gap(none, gaps[0]);
        assert(words =~= Seq::<Seq<char>>::empty());
    } else {
        let n = words.len() - 1;
        let before = laid_out(gaps.drop_last(), words.drop_last());
        assert forall|k: int| 0 <= k < n + 1 implies is_gap(#[trigger] gaps.drop_last()[k]) by {
            assert(gaps.drop_last()[k] == gaps[k]);
        }
        assert forall|k: int| 0 < k < n implies (#[trigger] gaps.drop_last()[k]).len() > 0 by {
            assert(gaps.drop_last()[k] == gaps[k]);
        }
        assert forall|k: int| 0 <= k < n implies is_word(#[trigger] words.drop_last()[k]) by {
            assert(words.drop_last()[k] == words[k]);
        }
        lemma_fields_of_layout(gaps.drop_last(), words.drop_last());
        assert(before.len() == 0 || is_whitespace(before.last())) by {
            if n == 0 {
                assert(before == gaps[0]);
            } else {
                let inner = gaps.drop_last().drop_last();
                let earlier = laid_out(inner, words.drop_last().drop_last())
                    + words.drop_last().last();
                assert(gaps.drop_last().last() == gaps[n]);
                assert(before == earlier + gaps[n]);
                lemma_fields_append_gap(earlier, gaps[n]);
            }
        }
        lemma_fields_append_word(before, words.last());
        lemma_fields_append_gap(before + words.last(), gaps.last());
        assert(words.drop_last().push(words.last()) =~= words);
    }
}

/// `s` without the whitespace at its end.
pub open spec fn trim_end(s: Seq<char>) -> Seq<char>
    decreases s.len(),
{
    if s.len() > 0 && is_whitespace(s.last()) {
        trim_end(s.drop_last())
    } else {
        s
    }
}

/// `s` without the whitespace at its start.
pub open spec fn trim_start(s: Seq<char>) -> Seq<char>
    decreases s.len(),
{
    if s.len() > 0 && is_whitespace(s[0]) {
        trim_start(s.drop_first())
    } else {
        s
    }
}

/// `s` without the whitespace at its two ends.
pub open spec fn trimmed(s: Seq<char>) -> Seq<char> {
    trim_start(trim_end(s))
}

/// Nothing is left of a gap.
pub proof fn lemma_trimmed_gap(s: Seq<char>)
    requires
        is_gap(s),
    ensures
        trimmed(s).len() == 0,
    decreases s.len(),
{
    if s.len() > 0 {
        assert(is_whitespace(s[s.len() - 1]));
        assert forall|i: int| 0 <= i < s.len() - 1 implies is_whitespace(
            #[trigger] s.drop_last()[i],
        ) by {
            assert(s.drop_last()[i] == s[i]);
        }
        lemma_trimmed_gap(s.drop_last());
    }
}

/// What is left of a text that is not a gap: the stretch from its first
/// character that is no whitespace to its last.
pub proof fn lemma_trimmed_stretch(s: Seq<char>, from: int, to: int)
    requires
        0 <= from < to <= s.len(),
        is_gap(s.take(from)),
        !is_whitespace(s[from]),
        !is_whitespace(s[to - 1]),
        is_gap(s.skip(to)),
    ensures
        trimmed(s) == s.subrange(from, to),
{
    lemma_trim_end(s, to);
    lemma_trim_start(s.take(to), from);
    assert(s.take(to).skip(from) =~= s.subrange(from, to));
}

/// The whitespace at the end goes, up to the last other character.
proof fn lemma_trim_end(s: Seq<char>, to: int)
    requires
        0 < to <= s.len(),
        !is_whitespace(s[to - 1]),
        is_gap(s.skip(to)),
    ensures
        trim_end(s) == s.take(to),
    decreases s.len() - to,
{
    if to == s.len() {
        assert(s.take(to) =~= s);
    } else {
        let head = s.drop_last();
        assert(s.last() == s.skip(to)[s.len() - 1 - to]);
        assert forall|i: int| 0 <= i < head.skip(to).len() implies is_whitespace(
            #[trigger] head.skip(to)[i],
        ) by {
            assert(head.skip(to)[i] == s.skip(to)[i]);
        }
        lemma_trim_end(head, to);
        assert(head.take(to) =~= s.take(to));
    }
}

/// The whitespace at the start goes, up to the first other character.
proof fn lemma_trim_start(s: Seq<char>, from: int)
    requires
        0 <= from < s.len(),
        is_gap(s.take(from)),
        !is_whitespace(s[from]),
    ensures
        trim_start(s) == s.skip(from),
    decreases from,
{
    if from == 0 {
        assert(s.skip(0) =~= s);
    } else {
        let rest = s.drop_first();
        assert(s[0] == s.take(from)[0]);
        assert forall|i: int| 0 <= i < from - 1 implies is_whitespace(
            #[trigger] rest.take(from - 1)[i],
        ) by {
            assert(rest.take(from - 1)[i] == s.take(from)[i + 1]);
        }
        lemma_trim_start(rest, from - 1);
        assert(rest.skip(from - 1) =~= s.skip(from));
    }
}

/// Every field is a word.
pub proof fn lemma_fields_are_words(s: Seq<char>)
    ensures
        forall|k: int| 0 <= k < fields(s).len() ==> is_word(#[trigger] fields(s)[k]),
        s.len() > 0 && !is_whitespace(s.last()) ==> fields(s).len() > 0,
    decreases s.len(),
{
    if s.len() > 0 {
        lemma_fields_are_words(s.drop_last());
        if !is_whitespace(s.last()) && s.len() > 1 && !is_whitespace(s[s.len() - 2]) {
            assert(s.drop_last().last() == s[s.len() - 2]);
        }
    }
}

/// Tells whether `c` separates fields.
pub fn whitespace(c: char) -> (b: bool)
    ensures
        b == is_whitespace(c),
{
    let u: u32 = c as u32;
    (0x09 <= u && u <= 0x0d) || u == 0x20 || u == 0x85 || u == 0xa0 || u == 0x1680 || (0x2000 <= u
        && u <= 0x200a) || u == 0x2028 || u == 0x2029 || u == 0x202f || u == 0x205f || u == 0x3000
}

/// Tells whether `text` is a word.
pub fn word(text: &str) -> (b: bool)
    ensures
        b == is_word(text@),
{
    let mut seen = false;
    for c in it: text.chars()
        invariant
            it.seq() == text@,
            seen == (it.index() > 0),
            forall|i: int| 0 <= i < it.index() ==> !is_whitespace(#[trigger] text@[i]),
    {
        if whitespace(c) {
            return false;
        }
        seen = true;
    }
    seen
}

/// Finds what is left of `line` without the whitespace at its two ends: the
/// stretch from its first character that is no whitespace to its last, or
/// nothing if there is no such character.
pub fn trim(line: &str) -> (stretch: Option<Span>)
    ensures
        match stretch {
            Some(span) => span.start < span.end <= line@.len() && trimmed(line@)
                == line@.subrange(span.start as int, span.end as int),
            None => trimmed(line@).len() == 0,
        },
{
    let len = line.unicode_len();
    let mut start: usize = 0;
    let mut end: usize = 0;
    let mut i: usize = 0;
    for c in it: line.chars()
        invariant
            it.seq() == line@,
            i == it.index(),
            len == line@.len(),
            i <= len,
            end <= i,
            end == 0 ==> is_gap(line@.take(i as int)),
            end > 0 ==> start < end && is_gap(line@.take(start as int)) && !is_whitespace(
                line@[start as int],
            ) && !is_whitespace(line@[end - 1]) && is_gap(line@.subrange(end as int, i as int)),
    {
        let ghost old_end = end;
        if !whitespace(c) {
            if end == 0 {
                start = i;
            }
            end = i + 1;
            assert(line@.subrange(end as int, i + 1).len() == 0);
        } else if end == 0 {
            assert forall|k: int| 0 <= k < i + 1 implies is_whitespace(
                #[trigger] line@.take(i + 1)[k],
            ) by {
                if k < i {
                    assert(line@.take(i + 1)[k] == line@.take(i as int)[k]);
                }
            }
        } else {
            assert forall|k: int| 0 <= k < i + 1 - end implies is_whitespace(
                #[trigger] line@.subrange(end as int, i + 1)[k],
            ) by {
                if k < i - end {
                    assert(line@.subrange(end as int, i + 1)[k] == line@.subrange(
                        end as int,
                        i as int,
                    )[k]);
                }
            }
        }
        i = i + 1;
    }
    if end == 0 {
        proof {
            assert(line@.take(i as int) =~= line@);
            lemma_trimmed_gap(line@);
        }
        None
    } else {
        proof {
            assert(line@.subrange(end as int, i as int) =~= line@.skip(end as int));
            lemma_trimmed_stretch(line@, start as int, end as int);
        }
        Some(Span { start, end })
    }
}

/// Finds the fields of `line` in one pass, without copying them.
pub fn scan(line: &str) -> (spans: Vec<Span>)
    ensures
        spans_within(spans@, line@.len() as int),
        cut(line@, spans@) == fields(line@),
{
    let len = line.unicode_len();
    let mut spans: Vec<Span> = Vec::new();
    let mut start: usize = 0;
    let mut inside = false;
    let mut i: usize = 0;
    assert(cut(line@, spans@) =~= fields(line@.take(0)));
    for c in it: line.chars()
        invariant
            it.seq() == line@,
            i == it.index(),
            len == line@.len(),
            i <= len,
            spans_within(spans@, i as int),
            inside ==> start < i && !is_whitespace(line@[i - 1]) && fields(line@.take(i as int))
                == cut(line@, spans@).push(line@.subrange(start as int, i as int)),
            !inside ==> (i == 0 || is_whitespace(line@[i - 1])) && fields(line@.take(i as int))
                == cut(line@, spans@),
    {
        let ghost before = line@.take(i as int);
        let ghost now = line@.take(i + 1);
        assert(now.drop_last() =~= before);
        assert(now.last() == c);
        if whitespace(c) {
            if inside {
                let ghost done = spans@;
                spans.push(Span { start, end: i });
                assert(cut(line@, spans@) =~= cut(line@, done).push(
                    line@.subrange(start as int, i as int),
                ));
                inside = false;
            }
        } else {
            if inside {
                assert(now.len() > 1 && now[now.len() - 2] == line@[i - 1]);
                assert(line@.subrange(start as int, i as int).push(c) =~= line@.subrange(
                    start as int,
                    i + 1,
                ));
                assert(fields(before).drop_last() =~= cut(line@, spans@));
            } else {
                start = i;
                inside = true;
                assert(i > 0 ==> now[now.len() - 2] == line@[i - 1]);
                assert(seq![c] =~= line@.subrange(i as int, i + 1));
            }
        }
        i = i + 1;
    }
    assert(line@.take(i as int) =~= line@);
    if inside {
        let ghost done = spans@;
        spans.push(Span { start, end: i });
        assert(cut(line@, spans@) =~= cut(line@, done).push(line@.subrange(start as int, i as int)));
    }
    spans
}

/// Copies the stretch `span` out of `line`.
pub fn extract(line: &str, span: &Span) -> (text: String)
    requires
        span.start <= span.end <= line@.len(),
    ensures
        text@ == line@.subrange(span.start as int, span.end as int),
{
    line.substring_char(span.start, span.end).to_owned()
}

/// Splits `line` into its fields.
pub fn split(line: &str) -> (out: Vec<String>)
    ensures
        out@.len() == fields(line@).len(),
        forall|k: int| 0 <= k < out@.len() ==> (#[trigger] out@[k])@ == fields(line@)[k],
{
    let spans = scan(line);
    let mut out: Vec<String> = Vec::new();
    let mut k: usize = 0;
    while k < spans.len()
        invariant
            k <= spans@.len(),
            out@.len() == k,
            spans_within(spans@, line@.len() as int),
            cut(line@, spans@) == fields(line@),
            forall|j: int| 0 <= j < k ==> (#[trigger] out@[j])@ == fields(line@)[j],
        decreases spans@.len() - k,
    {
        let text = extract(line, &spans[k]);
        assert(text@ == cut(line@, spans@)[k as int]);
        out.push(text);
        k = k + 1;
    }
    assert(cut(line@, spans@).len() == spans@.len());
    out
}

} // verus!
