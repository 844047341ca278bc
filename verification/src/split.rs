//! Splitting a command into words.
//!
//! Words are separated by whitespace. Single and double quotes enclose text that
//! is taken as it stands, whitespace and the other kind of quote included. There
//! are no escape characters.
use vstd::prelude::*;

use crate::text::{chars_of, texts, white_space};

verus! {

/// A quote that nothing closes, at a position counted in characters.
#[derive(Debug, Clone, Copy, PartialEq, Eq, Structural)]
pub struct Unterminated {
    pub position: usize,
}

/// Whether a character opens quoted text.
pub open spec fn is_quote(c: char) -> bool {
    c == '"' || c == '\''
}

/// The first position from `i` on where `c` stands, or the end of `s`.
pub open spec fn find(s: Seq<char>, i: int, c: char) -> int
    decreases s.len() - i,
{
    if i >= s.len() || s[i] == c {
        i
    } else {
        find(s, i + 1, c)
    }
}

/// What `find` finds: the first place of `c`, or the end.
pub proof fn lemma_find(s: Seq<char>, i: int, c: char)
    requires
        0 <= i <= s.len(),
    ensures
        i <= find(s, i, c) <= s.len(),
        find(s, i, c) < s.len() ==> s[find(s, i, c)] == c,
        forall|k: int| i <= k < find(s, i, c) ==> s[k] != c,
    decreases s.len() - i,
{
    if i < s.len() && s[i] != c {
        lemma_find(s, i + 1, c);
    }
}

/// What is left of the word that is being read at `i`: its text, and the position
/// behind it. A word runs up to whitespace or the end of `s`; a quoted part gives
/// the text between its quotes. The error is the position of a quote that nothing
/// closes.
pub open spec fn word(s: Seq<char>, i: int) -> Result<(Seq<char>, int), int>
    decreases s.len() - i,
{
    if i < 0 || i >= s.len() || white_space(s[i]) {
        Ok((Seq::empty(), i))
    } else if is_quote(s[i]) {
        proof {
            lemma_find(s, i + 1, s[i]);
        }
        let close = find(s, i + 1, s[i]);
        if close >= s.len() {
            Err(i)
        } else {
            match word(s, close + 1) {
                Ok((rest, end)) => Ok((s.subrange(i + 1, close) + rest, end)),
                Err(p) => Err(p),
            }
        }
    } else {
        match word(s, i + 1) {
            Ok((rest, end)) => Ok((seq![s[i]] + rest, end)),
            Err(p) => Err(p),
        }
    }
}

/// Where a word ends: behind its start if there is a word at all, and before
/// whitespace or at the end of `s`.
pub proof fn lemma_word_end(s: Seq<char>, i: int)
    requires
        0 <= i <= s.len(),
    ensures
        word(s, i) matches Ok((_, end)) ==> i <= end <= s.len(),
        i < s.len() && !white_space(s[i]) ==> (word(s, i) matches Ok((_, end)) ==> i < end),
        word(s, i) matches Ok((_, end)) ==> (end < s.len() ==> white_space(s[end])),
    decreases s.len() - i,
{
    if i < s.len() && !white_space(s[i]) {
        if is_quote(s[i]) {
            lemma_find(s, i + 1, s[i]);
            let close = find(s, i + 1, s[i]);
            if close < s.len() {
                lemma_word_end(s, close + 1);
            }
        } else {
            lemma_word_end(s, i + 1);
        }
    }
}

/// The words of `s` from `i` on, or the position of the first quote that nothing
/// closes.
pub open spec fn words(s: Seq<char>, i: int) -> Result<Seq<Seq<char>>, int>
    decreases s.len() - i,
{
    if i < 0 || i >= s.len() {
        Ok(Seq::empty())
    } else if white_space(s[i]) {
        words(s, i + 1)
    } else {
        proof {
            lemma_word_end(s, i);
        }
        match word(s, i) {
            Ok((text, end)) => match words(s, end) {
                Ok(rest) => Ok(seq![text] + rest),
                Err(p) => Err(p),
            },
            Err(p) => Err(p),
        }
    }
}

/// The words of `s`, where `done` have been read up to `i` and, if `open`, a
/// further word of which `text` has been read.
spec fn resumed(
    done: Seq<Seq<char>>,
    open: bool,
    text: Seq<char>,
    s: Seq<char>,
    i: int,
) -> Result<Seq<Seq<char>>, int> {
    if open {
        match word(s, i) {
            Ok((tail, end)) => match words(s, end) {
                Ok(rest) => Ok(done + seq![text + tail] + rest),
                Err(p) => Err(p),
            },
            Err(p) => Err(p),
        }
    } else {
        match words(s, i) {
            Ok(rest) => Ok(done + rest),
            Err(p) => Err(p),
        }
    }
}

/// Reading on from `i` past one character, or past one quoted part.
proof fn lemma_resumed_step(
    done: Seq<Seq<char>>,
    open: bool,
    text: Seq<char>,
    s: Seq<char>,
    i: int,
)
    requires
        0 <= i < s.len(),
        !open ==> text.len() == 0,
    ensures
        white_space(s[i]) && open ==> resumed(done, open, text, s, i) == resumed(
            done.push(text),
            false,
            Seq::empty(),
            s,
            i + 1,
        ),
        white_space(s[i]) && !open ==> resumed(done, open, text, s, i) == resumed(
            done,
            false,
            text,
            s,
            i + 1,
        ),
        !white_space(s[i]) && !is_quote(s[i]) ==> resumed(done, open, text, s, i) == resumed(
            done,
            true,
            text.push(s[i]),
            s,
            i + 1,
        ),
        !white_space(s[i]) && is_quote(s[i]) ==> {
            let close = find(s, i + 1, s[i]);
            if close >= s.len() {
                resumed(done, open, text, s, i) == Err::<Seq<Seq<char>>, int>(i)
            } else {
                resumed(done, open, text, s, i) == resumed(
                    done,
                    true,
                    text + s.subrange(i + 1, close),
                    s,
                    close + 1,
                )
            }
        },
{
    let next = if !white_space(s[i]) && is_quote(s[i]) {
        find(s, i + 1, s[i]) + 1
    } else {
        i + 1
    };
    let part = if white_space(s[i]) {
        Seq::empty()
    } else if is_quote(s[i]) {
        s.subrange(i + 1, next - 1)
    } else {
        seq![s[i]]
    };
    lemma_find(s, i + 1, s[i]);
    assert(text + Seq::<char>::empty() =~= text);
    assert(text.push(s[i]) =~= text + seq![s[i]]);
    if !open {
        assert(text =~= Seq::empty());
        assert(Seq::empty() + part =~= part);
    }
    if let Ok((tail, end)) = word(s, next) {
        assert(text + (part + tail) =~= (text + part) + tail);
        if let Ok(rest) = words(s, end) {
            assert(done + (seq![part + tail] + rest) =~= done + seq![part + tail] + rest);
        }
    }
    if white_space(s[i]) && open {
        if let Ok(rest) = words(s, i + 1) {
            assert(done + seq![text] + rest =~= done.push(text) + rest);
        }
    }
}

/// Splits a command into its words, which are the arguments of a program.
pub fn split_cmd(cmd: &str) -> (r: Result<Vec<String>, Unterminated>)
    ensures
        match words(cmd@, 0) {
            Ok(ws) => r is Ok && texts(r->Ok_0@) == ws,
            Err(p) => r is Err && r->Err_0.position == p,
        },
{
    let chars = chars_of(cmd);
    let ghost s = cmd@;
    let mut words_read: Vec<String> = Vec::new();
    let mut curr = String::new();
    let mut has_curr = false;
    let mut i: usize = 0;

    while i < chars.len()
        invariant
            s == cmd@,
            chars@ == s,
            i <= s.len(),
            !has_curr ==> curr@.len() == 0,
            words(s, 0) == resumed(texts(words_read@), has_curr, curr@, s, i as int),
        decreases s.len() - i,
    {
        let c = chars[i];
        proof {
            lemma_resumed_step(texts(words_read@), has_curr, curr@, s, i as int);
            lemma_find(s, i + 1, c);
        }
        if c.is_whitespace() {
            if has_curr {
                let ghost before = words_read@;
                words_read.push(curr);
                assert(texts(words_read@) =~= texts(before).push(curr@));
                curr = String::new();
                has_curr = false;
            }
            i += 1;
        } else if c == '"' || c == '\'' {
            let start = i;
            let ghost before = curr@;
            let ghost close = find(s, start + 1, c);
            i += 1;
            while i < chars.len() && chars[i] != c
                invariant
                    chars@ == s,
                    0 <= start < i <= close <= s.len(),
                    close < s.len() ==> s[close] == c,
                    forall|k: int| start < k < close ==> s[k] != c,
                    curr@ == before + s.subrange(start + 1, i as int),
                decreases s.len() - i,
            {
                curr.push(chars[i]);
                i += 1;
            }
            if i == chars.len() {
                return Err(Unterminated { position: start });
            }
            has_curr = true;
            i += 1;
        } else {
            curr.push(c);
            has_curr = true;
            i += 1;
        }
    }

    if has_curr {
        let ghost before = words_read@;
        words_read.push(curr);
        assert(texts(words_read@) =~= texts(before).push(curr@));
    }
    Ok(words_read)
}

/// Within a text that is followed by whitespace, a word that is read to its end is
/// the word of the text alone.
proof fn lemma_word_before(a: Seq<char>, b: Seq<char>, i: int)
    requires
        0 <= i <= a.len(),
        b.len() > 0 ==> white_space(b[0]),
        word(a, i) is Ok,
    ensures
        word(a + b, i) == word(a, i),
    decreases a.len() - i,
{
    let s = a + b;
    if i < a.len() && !white_space(a[i]) {
        if is_quote(a[i]) {
            let close = find(a, i + 1, a[i]);
            lemma_find(a, i + 1, a[i]);
            lemma_find_before(a, b, i + 1, a[i]);
            lemma_word_before(a, b, close + 1);
            assert(s.subrange(i + 1, close) =~= a.subrange(i + 1, close));
        } else {
            lemma_word_before(a, b, i + 1);
        }
    }
}

proof fn lemma_find_before(a: Seq<char>, b: Seq<char>, i: int, c: char)
    requires
        0 <= i <= a.len(),
        find(a, i, c) < a.len(),
    ensures
        find(a + b, i, c) == find(a, i, c),
    decreases a.len() - i,
{
    if i < a.len() && a[i] != c {
        lemma_find_before(a, b, i + 1, c);
    }
}

/// The same positions, counted from a point further to the left.
spec fn shifted<T>(r: Result<T, int>, by: int) -> Result<T, int> {
    match r {
        Ok(x) => Ok(x),
        Err(p) => Err(p + by),
    }
}

proof fn lemma_find_behind(a: Seq<char>, b: Seq<char>, i: int, c: char)
    requires
        0 <= i <= b.len(),
    ensures
        find(a + b, a.len() + i, c) == a.len() + find(b, i, c),
    decreases b.len() - i,
{
    if i < b.len() {
        assert((a + b)[a.len() + i] == b[i]);
        if b[i] != c {
            lemma_find_behind(a, b, i + 1, c);
        }
    }
}

/// A word does not depend on what stands before it.
proof fn lemma_word_behind(a: Seq<char>, b: Seq<char>, i: int)
    requires
        0 <= i <= b.len(),
    ensures
        word(a + b, a.len() + i) == match word(b, i) {
            Ok((text, end)) => Ok::<(Seq<char>, int), int>((text, a.len() + end)),
            Err(p) => Err(a.len() + p),
        },
    decreases b.len() - i,
{
    let s = a + b;
    if i < b.len() {
        assert(s[a.len() + i] == b[i]);
        if !white_space(b[i]) {
            if is_quote(b[i]) {
                let close = find(b, i + 1, b[i]);
                lemma_find(b, i + 1, b[i]);
                lemma_find_behind(a, b, i + 1, b[i]);
                if close < b.len() {
                    lemma_word_behind(a, b, close + 1);
                    assert(s.subrange(a.len() + i + 1, a.len() + close) =~= b.subrange(
                        i + 1,
                        close,
                    ));
                }
            } else {
                lemma_word_behind(a, b, i + 1);
            }
        }
    }
}

/// Words do not depend on what stands before them.
proof fn lemma_words_behind(a: Seq<char>, b: Seq<char>, i: int)
    requires
        0 <= i <= b.len(),
    ensures
        words(a + b, a.len() + i) == shifted(words(b, i), a.len() as int),
    decreases b.len() - i,
{
    let s = a + b;
    if i < b.len() {
        assert(s[a.len() + i] == b[i]);
        if white_space(b[i]) {
            lemma_words_behind(a, b, i + 1);
        } else {
            lemma_word_behind(a, b, i);
            lemma_word_end(b, i);
            if let Ok((_, end)) = word(b, i) {
                lemma_words_behind(a, b, end);
            }
        }
    }
}

proof fn lemma_words_before(a: Seq<char>, b: Seq<char>, i: int)
    requires
        0 <= i <= a.len(),
        b.len() > 0 ==> white_space(b[0]),
        words(a, i) is Ok,
    ensures
        words(a + b, i) == match words(b, 0) {
            Ok(rest) => Ok::<Seq<Seq<char>>, int>(words(a, i)->Ok_0 + rest),
            Err(p) => Err(a.len() + p),
        },
    decreases a.len() - i,
{
    if i == a.len() {
        lemma_words_behind(a, b, 0);
        if let Ok(rest) = words(b, 0) {
            assert(Seq::<Seq<char>>::empty() + rest =~= rest);
        }
    } else if white_space(a[i]) {
        lemma_words_before(a, b, i + 1);
    } else {
        lemma_word_end(a, i);
        lemma_word_before(a, b, i);
        let (text, end) = word(a, i)->Ok_0;
        lemma_words_before(a, b, end);
        if let Ok(rest) = words(b, 0) {
            assert(seq![text] + (words(a, end)->Ok_0 + rest) =~= seq![text] + words(a, end)->Ok_0
                + rest);
        }
    }
}

/// A command may be broken where whitespace separates its words: the words of
/// `head` followed by a `tail` that starts with whitespace are the words of `head`
/// and then those of `tail`. A quote that nothing closes in `tail` is found at the
/// same place, counted from the start of `head`.
pub proof fn law_words_of_continued(head: Seq<char>, tail: Seq<char>)
    requires
        words(head, 0) is Ok,
        tail.len() > 0 ==> white_space(tail[0]),
    ensures
        words(head + tail, 0) == match words(tail, 0) {
            Ok(rest) => Ok::<Seq<Seq<char>>, int>(words(head, 0)->Ok_0 + rest),
            Err(p) => Err(head.len() + p),
        },
{
    lemma_words_before(head, tail, 0);
}

/// Whether the quote at `p` is one that nothing closes.
pub open spec fn unclosed(s: Seq<char>, p: int) -> bool {
    &&& 0 <= p < s.len()
    &&& s[p] == '"' || s[p] == '\''
    &&& forall|k: int| p < k < s.len() ==> s[k] != s[p]
}

proof fn lemma_word_error(s: Seq<char>, i: int)
    requires
        0 <= i <= s.len(),
    ensures
        word(s, i) matches Err(p) ==> i <= p && unclosed(s, p),
    decreases s.len() - i,
{
    if i < s.len() && !white_space(s[i]) {
        if is_quote(s[i]) {
            lemma_find(s, i + 1, s[i]);
            if find(s, i + 1, s[i]) < s.len() {
                lemma_word_error(s, find(s, i + 1, s[i]) + 1);
            }
        } else {
            lemma_word_error(s, i + 1);
        }
    }
}

proof fn lemma_words_error(s: Seq<char>, i: int)
    requires
        0 <= i <= s.len(),
    ensures
        words(s, i) matches Err(p) ==> i <= p && unclosed(s, p),
    decreases s.len() - i,
{
    if i < s.len() {
        if white_space(s[i]) {
            lemma_words_error(s, i + 1);
        } else {
            lemma_word_error(s, i);
            lemma_word_end(s, i);
            if let Ok((_, end)) = word(s, i) {
                lemma_words_error(s, end);
            }
        }
    }
}

proof fn lemma_find_within(s: Seq<char>, p: int, i: int, c: char)
    requires
        0 <= i <= p <= s.len(),
    ensures
        find(s, i, c) < p ==> find(s.take(p), i, c) == find(s, i, c),
        find(s.take(p), i, c) < p ==> find(s, i, c) == find(s.take(p), i, c),
    decreases p - i,
{
    if i < p {
        assert(s.take(p)[i] == s[i]);
        if s[i] != c {
            lemma_find_within(s, p, i + 1, c);
        }
    } else {
        lemma_find(s, i, c);
        lemma_find(s.take(p), i, c);
    }
}

/// What is read up to an unclosed quote is read in the same way without the rest.
proof fn lemma_word_up_to(s: Seq<char>, p: int, i: int)
    requires
        0 <= i <= p < s.len(),
    ensures
        word(s, i) == Err::<(Seq<char>, int), int>(p) ==> (word(s.take(p), i) matches Ok((_, end))
            && end == p),
        word(s, i) matches Ok((_, end)) ==> (end <= p ==> word(s.take(p), i) == word(s, i)),
    decreases p - i,
{
    let a = s.take(p);
    lemma_word_end(s, i);
    lemma_word_error(s, i);
    if i < p {
        assert(a[i] == s[i]);
        if !white_space(s[i]) {
            if is_quote(s[i]) {
                let close = find(s, i + 1, s[i]);
                lemma_find(s, i + 1, s[i]);
                lemma_find_within(s, p, i + 1, s[i]);
                if close < s.len() {
                    lemma_word_end(s, close + 1);
                    lemma_word_error(s, close + 1);
                    if close < p {
                        lemma_word_up_to(s, p, close + 1);
                        assert(a.subrange(i + 1, close) =~= s.subrange(i + 1, close));
                    }
                }
            } else {
                lemma_word_up_to(s, p, i + 1);
            }
        }
    }
}

proof fn lemma_words_up_to(s: Seq<char>, p: int, i: int)
    requires
        0 <= i <= p < s.len(),
        words(s, i) == Err::<Seq<Seq<char>>, int>(p),
    ensures
        words(s.take(p), i) is Ok,
    decreases p - i,
{
    if i < p {
        assert(s.take(p)[i] == s[i]);
        if white_space(s[i]) {
            lemma_words_up_to(s, p, i + 1);
        } else {
            lemma_word_end(s, i);
            lemma_word_up_to(s, p, i);
            if let Ok((_, end)) = word(s, i) {
                lemma_words_error(s, end);
                lemma_words_up_to(s, p, end);
            }
        }
    }
}

/// A word that is complete before an unclosed quote ends there; one that reaches the
/// quote is refused for it.
proof fn lemma_word_meets(s: Seq<char>, p: int, i: int)
    requires
        0 <= i <= p,
        unclosed(s, p),
        word(s.take(p), i) is Ok,
    ensures
        word(s.take(p), i) matches Ok((_, end)) ==> if end < p {
            word(s, i) == word(s.take(p), i)
        } else {
            word(s, i) == Err::<(Seq<char>, int), int>(p)
        },
    decreases p - i,
{
    let a = s.take(p);
    lemma_word_end(a, i);
    if i < p {
        assert(a[i] == s[i]);
        if !white_space(s[i]) {
            if is_quote(s[i]) {
                let close = find(a, i + 1, a[i]);
                lemma_find(a, i + 1, a[i]);
                lemma_find_within(s, p, i + 1, s[i]);
                lemma_word_meets(s, p, close + 1);
                assert(a.subrange(i + 1, close) =~= s.subrange(i + 1, close));
            } else {
                lemma_word_meets(s, p, i + 1);
            }
        }
    } else {
        lemma_find(s, p + 1, s[p]);
    }
}

proof fn lemma_words_meet(s: Seq<char>, p: int, i: int)
    requires
        0 <= i <= p,
        unclosed(s, p),
        words(s.take(p), i) is Ok,
    ensures
        words(s, i) == Err::<Seq<Seq<char>>, int>(p),
    decreases p - i,
{
    let a = s.take(p);
    if i < p {
        assert(a[i] == s[i]);
        if white_space(s[i]) {
            lemma_words_meet(s, p, i + 1);
        } else {
            lemma_word_end(a, i);
            lemma_word_meets(s, p, i);
            if let Ok((_, end)) = word(a, i) {
                if end < p {
                    lemma_words_meet(s, p, end);
                }
            }
        }
    } else {
        lemma_word_meets(s, p, p);
    }
}

/// A command is refused exactly for a quote that nothing closes and that is not itself
/// enclosed: what stands before it is a command of its own. The position that is
/// reported is that of this quote.
pub proof fn law_refused_for_unclosed_quote(s: Seq<char>, p: int)
    ensures
        words(s, 0) == Err::<Seq<Seq<char>>, int>(p) <==> unclosed(s, p) && words(
            s.take(p),
            0,
        ) is Ok,
{
    lemma_words_error(s, 0);
    if words(s, 0) == Err::<Seq<Seq<char>>, int>(p) {
        lemma_words_up_to(s, p, 0);
    }
    if unclosed(s, p) && words(s.take(p), 0) is Ok {
        lemma_words_meet(s, p, 0);
    }
}

/// Whether no character of `s` is a quote.
pub open spec fn unquoted(s: Seq<char>) -> bool {
    forall|k: int| 0 <= k < s.len() ==> #[trigger] s[k] != '"' && s[k] != '\''
}

/// What is no whitespace.
pub open spec fn visible(c: char) -> bool {
    !white_space(c)
}

proof fn lemma_filter_step(s: Seq<char>, i: int)
    requires
        0 <= i < s.len(),
    ensures
        s.skip(i).filter(|c: char| visible(c)) == (if visible(s[i]) {
            seq![s[i]]
        } else {
            Seq::empty()
        }) + s.skip(i + 1).filter(|c: char| visible(c)),
{
    let pred = |c: char| visible(c);
    let first = seq![s[i]];
    assert(s.skip(i) =~= first + s.skip(i + 1));
    Seq::filter_distributes_over_add(first, s.skip(i + 1), pred);
    assert(first.drop_last() =~= Seq::empty());
    reveal_with_fuel(Seq::filter, 2);
    assert(first.filter(pred) =~= (if visible(s[i]) {
        seq![s[i]]
    } else {
        Seq::empty()
    }));
}

proof fn lemma_word_unquoted(s: Seq<char>, i: int)
    requires
        0 <= i <= s.len(),
        unquoted(s),
    ensures
        word(s, i) is Ok,
        word(s, i) matches Ok((text, end)) ==> i <= end <= s.len() && text == s.subrange(i, end)
            && forall|k: int| i <= k < end ==> visible(s[k]),
        word(s, i) matches Ok((text, end)) ==> s.skip(i).filter(|c: char| visible(c)) == text
            + s.skip(end).filter(|c: char| visible(c)),
    decreases s.len() - i,
{
    if i < s.len() && !white_space(s[i]) {
        lemma_word_unquoted(s, i + 1);
        lemma_filter_step(s, i);
        let (rest, end) = word(s, i + 1)->Ok_0;
        let tail = s.skip(end).filter(|c: char| visible(c));
        assert(seq![s[i]] + rest =~= s.subrange(i, end));
        assert(seq![s[i]] + (rest + tail) =~= (seq![s[i]] + rest) + tail);
    } else {
        let tail = s.skip(i).filter(|c: char| visible(c));
        assert(Seq::<char>::empty() + tail =~= tail);
        assert(s.subrange(i, i) =~= Seq::empty());
    }
}

proof fn lemma_words_unquoted(s: Seq<char>, i: int)
    requires
        0 <= i <= s.len(),
        unquoted(s),
    ensures
        words(s, i) is Ok,
        words(s, i)->Ok_0.flatten() == s.skip(i).filter(|c: char| visible(c)),
        forall|k: int|
            0 <= k < words(s, i)->Ok_0.len() ==> (#[trigger] words(s, i)->Ok_0[k]).len() > 0,
        forall|k: int, j: int|
            0 <= k < words(s, i)->Ok_0.len() && 0 <= j < words(s, i)->Ok_0[k].len() ==> visible(
                #[trigger] words(s, i)->Ok_0[k][j],
            ),
    decreases s.len() - i,
{
    if i >= s.len() {
        assert(s.skip(i) =~= Seq::empty());
        reveal_with_fuel(Seq::filter, 1);
    } else if white_space(s[i]) {
        lemma_words_unquoted(s, i + 1);
        lemma_filter_step(s, i);
        let tail = s.skip(i + 1).filter(|c: char| visible(c));
        assert(Seq::<char>::empty() + tail =~= tail);
    } else {
        lemma_word_end(s, i);
        lemma_word_unquoted(s, i);
        let (text, end) = word(s, i)->Ok_0;
        lemma_words_unquoted(s, end);
        let rest = words(s, end)->Ok_0;
        let all = seq![text] + rest;
        assert(all.drop_first() =~= rest);
        assert(all.flatten() == text + rest.flatten());
        assert forall|k: int| 0 <= k < all.len() implies (#[trigger] all[k]).len() > 0 by {
            if k > 0 {
                assert(all[k] == rest[k - 1]);
            }
        }
        assert forall|k: int, j: int|
            0 <= k < all.len() && 0 <= j < all[k].len() implies visible(#[trigger] all[k][j]) by {
            if k > 0 {
                assert(all[k][j] == rest[k - 1][j]);
            }
        }
    }
}

/// Outside of quotes only whitespace separates: a command without quotes is always
/// accepted, its words are not empty and hold no whitespace, and one after the
/// other they are the command without its whitespace. So no other character, such
/// as a backslash, has a meaning of its own.
pub proof fn law_words_of_unquoted(s: Seq<char>)
    requires
        unquoted(s),
    ensures
        words(s, 0) is Ok,
        words(s, 0)->Ok_0.flatten() == s.filter(|c: char| visible(c)),
        forall|k: int|
            0 <= k < words(s, 0)->Ok_0.len() ==> (#[trigger] words(s, 0)->Ok_0[k]).len() > 0,
        forall|k: int, j: int|
            0 <= k < words(s, 0)->Ok_0.len() && 0 <= j < words(s, 0)->Ok_0[k].len() ==> visible(
                #[trigger] words(s, 0)->Ok_0[k][j],
            ),
{
    lemma_words_unquoted(s, 0);
    assert(s.skip(0) =~= s);
}

/// Each word between a pair of the quote `q`, and a space behind it.
pub open spec fn quoted(ws: Seq<Seq<char>>, q: char) -> Seq<char>
    decreases ws.len(),
{
    if ws.len() == 0 {
        Seq::empty()
    } else {
        seq![q] + ws[0] + seq![q, ' '] + quoted(ws.drop_first(), q)
    }
}

/// Any words whatever can be written in quotes and read back, if they do not hold
/// the quote itself: words with whitespace, with the other kind of quote, and empty
/// words.
pub proof fn law_quoted_words_read_back(ws: Seq<Seq<char>>, q: char)
    requires
        q == '"' || q == '\'',
        forall|k: int| 0 <= k < ws.len() ==> !(#[trigger] ws[k]).contains(q),
    ensures
        words(quoted(ws, q), 0) == Ok::<Seq<Seq<char>>, int>(ws),
    decreases ws.len(),
{
    if ws.len() == 0 {
        assert(ws =~= Seq::empty());
    } else {
        let s = quoted(ws, q);
        let n = ws[0].len() as int;
        let head = seq![q] + ws[0] + seq![q, ' '];
        let rest = quoted(ws.drop_first(), q);
        assert forall|k: int| 0 <= k < ws.drop_first().len() implies !(
        #[trigger] ws.drop_first()[k]).contains(q) by {
            assert(ws.drop_first()[k] == ws[k + 1]);
        }
        law_quoted_words_read_back(ws.drop_first(), q);
        lemma_find(s, 1, q);
        assert(s[n + 1] == q);
        assert(s[n + 2] == ' ');
        assert forall|k: int| 1 <= k < n + 1 implies s[k] != q by {
            assert(s[k] == ws[0][k - 1]);
        }
        assert(find(s, 1, q) == n + 1);
        assert(s.subrange(1, n + 1) =~= ws[0]);
        assert(ws[0] + Seq::<char>::empty() =~= ws[0]);
        assert(word(s, 0) == Ok::<(Seq<char>, int), int>((ws[0], n + 2)));
        lemma_words_behind(head, rest, 0);
        assert(words(s, n + 2) == words(s, n + 3));
        assert(seq![ws[0]] + ws.drop_first() =~= ws);
    }
}

/// Whitespace before a command changes nothing but positions, and a command of no
/// characters has no words.
pub proof fn law_leading_whitespace(c: char, s: Seq<char>)
    requires
        white_space(c),
    ensures
        words(Seq::empty(), 0) == Ok::<Seq<Seq<char>>, int>(Seq::empty()),
        words(seq![c] + s, 0) == match words(s, 0) {
            Ok(ws) => Ok::<Seq<Seq<char>>, int>(ws),
            Err(p) => Err(p + 1),
        },
{
    lemma_words_behind(seq![c], s, 0);
    assert((seq![c] + s)[0] == c);
}

/// A part of a word: text that is not quoted, or text between a pair of quotes.
pub enum Piece {
    Bare(Seq<char>),
    Quoted(char, Seq<char>),
}

/// Whether a part can be written: bare text is not empty and holds neither whitespace
/// nor quotes, and quoted text does not hold the quote that encloses it.
pub open spec fn can_be_written(piece: Piece) -> bool {
    match piece {
        Piece::Bare(t) => {
            &&& t.len() > 0
            &&& forall|k: int|
                0 <= k < t.len() ==> !white_space(#[trigger] t[k]) && t[k] != '"' && t[k] != '\''
        },
        Piece::Quoted(q, t) => {
            &&& q == '"' || q == '\''
            &&& forall|k: int| 0 <= k < t.len() ==> #[trigger] t[k] != q
        },
    }
}

/// Parts one after the other, as they are written.
pub open spec fn written(pieces: Seq<Piece>) -> Seq<char>
    decreases pieces.len(),
{
    if pieces.len() == 0 {
        Seq::empty()
    } else {
        (match pieces[0] {
            Piece::Bare(t) => t,
            Piece::Quoted(q, t) => seq![q] + t + seq![q],
        }) + written(pieces.drop_first())
    }
}

/// The text that parts stand for: what is left without the quotes that enclose.
pub open spec fn meant(pieces: Seq<Piece>) -> Seq<char>
    decreases pieces.len(),
{
    if pieces.len() == 0 {
        Seq::empty()
    } else {
        (match pieces[0] {
            Piece::Bare(t) => t,
            Piece::Quoted(_, t) => t,
        }) + meant(pieces.drop_first())
    }
}

proof fn lemma_word_of_bare(t: Seq<char>, rest: Seq<char>, i: int)
    requires
        0 <= i <= t.len(),
        forall|k: int|
            0 <= k < t.len() ==> !white_space(#[trigger] t[k]) && t[k] != '"' && t[k] != '\'',
        word(rest, 0) is Ok,
    ensures
        word(t + rest, i) == Ok::<(Seq<char>, int), int>(
            (t.skip(i) + word(rest, 0)->Ok_0.0, t.len() + word(rest, 0)->Ok_0.1),
        ),
    decreases t.len() - i,
{
    let (text, end) = word(rest, 0)->Ok_0;
    if i == t.len() {
        lemma_word_behind(t, rest, 0);
        assert(t.skip(i) + text =~= text);
    } else {
        lemma_word_of_bare(t, rest, i + 1);
        assert((t + rest)[i] == t[i]);
        assert(seq![t[i]] + (t.skip(i + 1) + text) =~= t.skip(i) + text);
    }
}

proof fn lemma_word_of_pieces(pieces: Seq<Piece>)
    requires
        forall|k: int| 0 <= k < pieces.len() ==> can_be_written(#[trigger] pieces[k]),
    ensures
        word(written(pieces), 0) == Ok::<(Seq<char>, int), int>(
            (meant(pieces), written(pieces).len() as int),
        ),
        pieces.len() > 0 ==> written(pieces).len() > 0 && !white_space(written(pieces)[0]),
    decreases pieces.len(),
{
    if pieces.len() > 0 {
        let rest = pieces.drop_first();
        let s = written(pieces);
        assert forall|k: int| 0 <= k < rest.len() implies can_be_written(#[trigger] rest[k]) by {
            assert(rest[k] == pieces[k + 1]);
        }
        lemma_word_of_pieces(rest);
        assert(can_be_written(pieces[0]));
        match pieces[0] {
            Piece::Bare(t) => {
                lemma_word_of_bare(t, written(rest), 0);
                assert(t.skip(0) =~= t);
                assert(s[0] == t[0]);
            },
            Piece::Quoted(q, t) => {
                let n = t.len() as int;
                let head = seq![q] + t + seq![q];
                assert(s[0] == q);
                assert(s[n + 1] == q);
                assert forall|k: int| 1 <= k < n + 1 implies s[k] != q by {
                    assert(s[k] == t[k - 1]);
                }
                lemma_find(s, 1, q);
                assert(find(s, 1, q) == n + 1);
                lemma_word_behind(head, written(rest), 0);
                assert(s.subrange(1, n + 1) =~= t);
            },
        }
    }
}

/// Parts that stand side by side make up one word, whatever they are: quoted text may
/// begin, end or interrupt a word, and of quotes only those that enclose are left out.
pub proof fn law_word_of_pieces(pieces: Seq<Piece>)
    requires
        pieces.len() > 0,
        forall|k: int| 0 <= k < pieces.len() ==> can_be_written(#[trigger] pieces[k]),
    ensures
        words(written(pieces), 0) == Ok::<Seq<Seq<char>>, int>(seq![meant(pieces)]),
{
    lemma_word_of_pieces(pieces);
    let n = written(pieces).len() as int;
    assert(words(written(pieces), n) == Ok::<Seq<Seq<char>>, int>(Seq::empty()));
    assert(seq![meant(pieces)] + Seq::<Seq<char>>::empty() =~= seq![meant(pieces)]);
}

/// A command that is one word in parts is split into the one word that they stand for.
pub proof fn law_split_one_word(
    cmd: &str,
    pieces: Seq<Piece>,
    r: Result<Vec<String>, Unterminated>,
)
    requires
        call_ensures(split_cmd, (cmd,), r),
        cmd@ == written(pieces),
        pieces.len() > 0,
        forall|k: int| 0 <= k < pieces.len() ==> can_be_written(#[trigger] pieces[k]),
    ensures
        r is Ok && r->Ok_0@.len() == 1 && r->Ok_0@[0]@ == meant(pieces),
{
    law_word_of_pieces(pieces);
    assert(texts(r->Ok_0@)[0] == r->Ok_0@[0]@);
}

/// A command that is refused has a quote at the reported position that nothing closes.
/// Where what stands before whitespace is accepted, a command is split as its two parts
/// are: into the words of the first and then those of the second.
pub proof fn law_split_in_parts(
    head: &str,
    tail: &str,
    cmd: &str,
    h: Result<Vec<String>, Unterminated>,
    t: Result<Vec<String>, Unterminated>,
    r: Result<Vec<String>, Unterminated>,
)
    requires
        call_ensures(split_cmd, (head,), h),
        call_ensures(split_cmd, (tail,), t),
        call_ensures(split_cmd, (cmd,), r),
        cmd@ == head@ + tail@,
        tail@.len() > 0 ==> white_space(tail@[0]),
    ensures
        r matches Err(error) ==> {
            let p = error.position as int;
            &&& p < cmd@.len() && (cmd@[p] == '"' || cmd@[p] == '\'')
            &&& forall|k: int| p < k < cmd@.len() ==> cmd@[k] != cmd@[p]
        },
        h is Ok ==> (r is Ok <==> t is Ok),
        h is Ok && t is Ok ==> {
            &&& r->Ok_0@.len() == h->Ok_0@.len() + t->Ok_0@.len()
            &&& forall|k: int|
                0 <= k < h->Ok_0@.len() ==> (#[trigger] r->Ok_0@[k])@ == h->Ok_0@[k]@
            &&& forall|k: int|
                0 <= k < t->Ok_0@.len() ==> r->Ok_0@[h->Ok_0@.len() + k]@ == (
                #[trigger] t->Ok_0@[k])@
        },
        h is Ok && t is Err ==> r->Err_0.position == head@.len() + t->Err_0.position,
{
    if let Err(error) = r {
        law_refused_for_unclosed_quote(cmd@, error.position as int);
    }
    if h is Ok {
        law_words_of_continued(head@, tail@);
        if t is Ok {
            let (a, b, all) = (h->Ok_0@, t->Ok_0@, r->Ok_0@);
            assert(texts(all) == texts(a) + texts(b));
            assert(texts(all).len() == all.len());
            assert forall|k: int| 0 <= k < a.len() implies (#[trigger] all[k])@ == a[k]@ by {
                assert(texts(all)[k] == texts(a)[k]);
            }
            assert forall|k: int| 0 <= k < b.len() implies all[a.len() + k]@ == (
            #[trigger] b[k])@ by {
                assert(texts(all)[a.len() + k] == texts(b)[k]);
            }
        }
    }
}

} // verus!
