use vstd::prelude::*;

use crate::types::Vec3Text;
use vstd::string::{StrSliceExecFns, StringExecFns};
use vstd::seq_lib::lemma_flatten_concat;

verus! {

/// Whether `c` has the Unicode `White_Space` property (the 25 code points
/// that `char::is_whitespace` accepts).
pub open spec fn is_whitespace(c: char) -> bool {
    let n = c as u32;
    ||| 0x09 <= n <= 0x0D
    ||| n == 0x20
    ||| n == 0x85
    ||| n == 0xA0
    ||| n == 0x1680
    ||| 0x2000 <= n <= 0x200A
    ||| n == 0x2028
    ||| n == 0x2029
    ||| n == 0x202F
    ||| n == 0x205F
    ||| n == 0x3000
}

/// The words of `s`, after a word `cur` already begun: maximal runs of
/// characters that are not whitespace, in order, none empty.
pub open spec fn words_from(s: Seq<char>, cur: Seq<char>) -> Seq<Seq<char>>
    decreases s.len(),
{
    if s.len() == 0 {
        if cur.len() > 0 { seq![cur] } else { seq![] }
    } else if is_whitespace(s[0]) {
        (if cur.len() > 0 { seq![cur] } else { seq![] }) + words_from(s.drop_first(), seq![])
    } else {
        words_from(s.drop_first(), cur.push(s[0]))
    }
}

/// The whitespace-separated words of `text`, in order.
pub open spec fn whitespace_words(text: Seq<char>) -> Seq<Seq<char>> {
    words_from(text, seq![])
}

/// Keeps the characters that are not whitespace.
pub open spec fn not_whitespace() -> spec_fn(char) -> bool {
    |c: char| !is_whitespace(c)
}

/// `w` is a word: not empty, and without whitespace.
pub open spec fn is_word(w: Seq<char>) -> bool {
    w.len() > 0 && forall|i: int| 0 <= i < w.len() ==> !is_whitespace(#[trigger] w[i])
}

proof fn lemma_filter_front(s: Seq<char>)
    requires
        s.len() > 0,
    ensures
        s.filter(not_whitespace()) == (if is_whitespace(s[0]) { Seq::<char>::empty() } else { seq![s[0]] })
            + s.drop_first().filter(not_whitespace()),
{
    assert(s =~= seq![s[0]] + s.drop_first());
    Seq::filter_distributes_over_add(seq![s[0]], s.drop_first(), not_whitespace());
    reveal_with_fuel(Seq::filter, 2);
    assert(seq![s[0]].drop_last() =~= Seq::<char>::empty());
}

proof fn lemma_words_from(s: Seq<char>, cur: Seq<char>)
    requires
        forall|i: int| 0 <= i < cur.len() ==> !is_whitespace(#[trigger] cur[i]),
    ensures
        forall|k: int| 0 <= k < words_from(s, cur).len() ==> is_word(#[trigger] words_from(s, cur)[k]),
        words_from(s, cur).flatten() == cur + s.filter(not_whitespace()),
    decreases s.len(),
{
    let w = words_from(s, cur);
    let front: Seq<Seq<char>> = if cur.len() > 0 { seq![cur] } else { seq![] };
    assert(front.flatten() =~= cur) by {
        assert(Seq::<Seq<char>>::empty().flatten() =~= Seq::<char>::empty());
        if cur.len() > 0 {
            assert(seq![cur].drop_first() =~= Seq::<Seq<char>>::empty());
            assert(seq![cur].first() == cur);
            assert(cur + Seq::<char>::empty() =~= cur);
        } else {
            assert(cur =~= Seq::<char>::empty());
        }
    }
    if s.len() == 0 {
        reveal(Seq::filter);
        assert(cur + s.filter(not_whitespace()) =~= cur);
    } else {
        let rest = s.drop_first();
        lemma_filter_front(s);
        if is_whitespace(s[0]) {
            lemma_words_from(rest, seq![]);
            let tail = words_from(rest, seq![]);
            lemma_flatten_concat(front, tail);
            assert(Seq::<char>::empty() + rest.filter(not_whitespace()) =~= rest.filter(not_whitespace()));
            assert(Seq::<char>::empty() + rest.filter(not_whitespace()) =~= s.filter(not_whitespace()));
            assert forall|k: int| 0 <= k < w.len() implies is_word(#[trigger] w[k]) by {
                if k < front.len() {
                    assert(w[k] == cur);
                } else {
                    assert(w[k] == tail[k - front.len()]);
                }
            }
        } else {
            lemma_words_from(rest, cur.push(s[0]));
            assert(cur.push(s[0]) + rest.filter(not_whitespace()) =~= cur + (seq![s[0]] + rest.filter(not_whitespace())));
        }
    }
}

/// The words of a text are non-empty and hold no whitespace, and together,
/// in order, they are the text's characters other than whitespace.
pub proof fn lemma_whitespace_words(text: Seq<char>)
    ensures
        forall|k: int| 0 <= k < whitespace_words(text).len() ==> is_word(#[trigger] whitespace_words(text)[k]),
        whitespace_words(text).flatten() == text.filter(not_whitespace()),
{
    lemma_words_from(text, seq![]);
    assert(Seq::<char>::empty() + text.filter(not_whitespace()) =~= text.filter(not_whitespace()));
}

/// Whether `c` is whitespace, by its code point.
fn char_is_whitespace(c: char) -> (b: bool)
    ensures
        b == is_whitespace(c),
{
    let n = c as u32;
    (0x09 <= n && n <= 0x0D) || n == 0x20 || n == 0x85 || n == 0xA0 || n == 0x1680 || (0x2000 <= n && n
        <= 0x200A) || n == 0x2028 || n == 0x2029 || n == 0x202F || n == 0x205F || n == 0x3000
}

/// The whitespace-separated words of `text`, in order, each its own `String`.
fn split_whitespace(text: &str) -> (words: Vec<String>)
    ensures
        words@.map_values(|w: String| w@) == whitespace_words(text@),
{
    let ghost t = text@;
    let n = text.unicode_len();
    let mut words: Vec<String> = Vec::new();
    let mut start: usize = 0;
    let mut i: usize = 0;
    assert(t.skip(0) =~= t);
    assert(t.subrange(0, 0) =~= Seq::<char>::empty());
    assert(words@.map_values(|w: String| w@) + whitespace_words(t) =~= whitespace_words(t));
    while i < n
        invariant
            n == t.len(),
            t == text@,
            0 <= start <= i <= n,
            words@.map_values(|w: String| w@) + words_from(t.skip(i as int), t.subrange(start as int, i as int))
                == whitespace_words(t),
        decreases n - i,
    {
        let c = text.get_char(i);
        let ghost rest = t.skip(i as int);
        let ghost cur = t.subrange(start as int, i as int);
        let ghost before = words@.map_values(|w: String| w@);
        assert(rest[0] == c);
        assert(rest.drop_first() =~= t.skip(i + 1));
        if char_is_whitespace(c) {
            if start < i {
                let w = String::from_str(text.substring_char(start, i));
                words.push(w);
                assert(words@.map_values(|w: String| w@) =~= before.push(cur));
                assert(before + (seq![cur] + words_from(t.skip(i + 1), seq![])) =~= before.push(cur) + words_from(
                    t.skip(i + 1),
                    seq![],
                ));
            } else {
                assert(cur =~= Seq::<char>::empty());
                assert(seq![] + words_from(t.skip(i + 1), seq![]) =~= words_from(t.skip(i + 1), seq![]));
            }
            start = i + 1;
            assert(t.subrange(start as int, i + 1) =~= Seq::<char>::empty());
        } else {
            assert(cur.push(c) =~= t.subrange(start as int, i + 1));
        }
        i = i + 1;
    }
    let ghost cur = t.subrange(start as int, n as int);
    let ghost before = words@.map_values(|w: String| w@);
    assert(t.skip(n as int) =~= Seq::<char>::empty());
    if start < n {
        let w = String::from_str(text.substring_char(start, n));
        words.push(w);
        assert(words@.map_values(|w: String| w@) =~= before.push(cur));
        assert(before + seq![cur] =~= before.push(cur));
    } else {
        assert(before + Seq::<Seq<char>>::empty() =~= before);
    }
    words
}

/// The three words of a vector attribute such as `xyz="0 0.5 1"`, or `None`
/// when the attribute does not hold exactly three words.
pub open spec fn spec_parse_vec3(text: Seq<char>) -> Option<(Seq<char>, Seq<char>, Seq<char>)> {
    let words = whitespace_words(text);
    if words.len() == 3 {
        Some((words[0], words[1], words[2]))
    } else {
        None
    }
}

/// Splits a vector attribute into its three coordinates.
pub fn parse_vec3_str(text: &str) -> (res: Option<Vec3Text>)
    ensures
        match res {
            Some(v) => spec_parse_vec3(text@) == Some(v@),
            None => spec_parse_vec3(text@) is None,
        },
{
    let mut words = split_whitespace(text);
    let ghost wv = words@.map_values(|w: String| w@);
    if words.len() == 3 {
        let z = words.pop().unwrap();
        let y = words.pop().unwrap();
        let x = words.pop().unwrap();
        assert(wv[0] == x@ && wv[1] == y@ && wv[2] == z@);
        Some(Vec3Text { x, y, z })
    } else {
        None
    }
}

} // verus!
