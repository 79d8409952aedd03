//! Splitting text into whitespace-separated words, and joining word
//! ranges back together with separators.

use vstd::prelude::*;
use vstd::string::*;
use crate::chars::{is_space_char, is_space};

verus! {

/// Length of the leading run of non-space characters of `s`: the length
/// of the first word when `s` starts with one.
pub open spec fn word_len(s: Seq<char>) -> int
    decreases s.len(),
{
    if s.len() == 0 || is_space_char(s[0]) {
        0
    } else {
        1 + word_len(s.skip(1))
    }
}

pub proof fn lemma_word_len(s: Seq<char>)
    ensures
        0 <= word_len(s) <= s.len(),
        forall|j: int| 0 <= j < word_len(s) ==> !is_space_char(s[j]),
        word_len(s) < s.len() ==> is_space_char(s[word_len(s)]),
    decreases s.len(),
{
    if s.len() == 0 || is_space_char(s[0]) {
    } else {
        lemma_word_len(s.skip(1));
        assert forall|j: int| 0 <= j < word_len(s) implies !is_space_char(s[j]) by {
            if j > 0 {
                assert(s.skip(1)[j - 1] == s[j]);
            }
        }
        if word_len(s) < s.len() {
            assert(s.skip(1)[word_len(s) - 1] == s[word_len(s)]);
        }
    }
}

/// `word_len` is the unique boundary with no space before it and a space
/// (or the end of the text) at it.
pub proof fn lemma_word_len_is(s: Seq<char>, e: int)
    requires
        0 <= e <= s.len(),
        forall|j: int| 0 <= j < e ==> !is_space_char(s[j]),
        e < s.len() ==> is_space_char(s[e]),
    ensures
        word_len(s) == e,
    decreases s.len(),
{
    if s.len() == 0 {
    } else if is_space_char(s[0]) {
        assert(e == 0);
    } else {
        assert(e >= 1);
        assert forall|j: int| 0 <= j < e - 1 implies !is_space_char(s.skip(1)[j]) by {
            assert(s.skip(1)[j] == s[j + 1]);
        }
        if e - 1 < s.skip(1).len() {
            assert(s.skip(1)[e - 1] == s[e]);
        }
        lemma_word_len_is(s.skip(1), e - 1);
    }
}

/// The words of `s`, in order: maximal runs of non-space characters.
pub open spec fn words_of(s: Seq<char>) -> Seq<Seq<char>>
    decreases s.len(),
    via words_of_dec
{
    if s.len() == 0 {
        Seq::empty()
    } else if is_space_char(s[0]) {
        words_of(s.skip(1))
    } else {
        seq![s.take(word_len(s))] + words_of(s.skip(word_len(s)))
    }
}

#[via_fn]
proof fn words_of_dec(s: Seq<char>) {
    if s.len() > 0 && !is_space_char(s[0]) {
        lemma_word_len(s);
    }
}

/// The items of `items` concatenated, with one copy of `sep` between
/// each pair of neighbours.
pub open spec fn join_sep(items: Seq<Seq<char>>, sep: Seq<char>) -> Seq<char>
    decreases items.len(),
{
    if items.len() == 0 {
        Seq::empty()
    } else if items.len() == 1 {
        items[0]
    } else {
        items[0] + sep + join_sep(items.drop_first(), sep)
    }
}

pub proof fn lemma_join_sep_push(items: Seq<Seq<char>>, sep: Seq<char>, w: Seq<char>)
    ensures
        join_sep(items.push(w), sep) == if items.len() == 0 {
            w
        } else {
            join_sep(items, sep) + sep + w
        },
    decreases items.len(),
{
    let pushed = items.push(w);
    if items.len() == 0 {
        assert(pushed.len() == 1);
        assert(pushed[0] == w);
    } else if items.len() == 1 {
        assert(pushed.drop_first() =~= seq![w]);
        assert(join_sep(pushed.drop_first(), sep) == w);
        assert(join_sep(items, sep) == items[0]);
        assert(pushed[0] == items[0]);
    } else {
        lemma_join_sep_push(items.drop_first(), sep, w);
        assert(pushed.drop_first() =~= items.drop_first().push(w));
        assert(pushed[0] == items[0]);
        assert(join_sep(items, sep) + sep + w == items[0] + sep + (join_sep(
            items.drop_first(),
            sep,
        ) + sep + w));
    }
}

/// Split `text` into its whitespace-separated words.
pub fn split_words(text: &str) -> (r: Vec<String>)
    ensures
        r.deep_view() == words_of(text@),
{
    let n = text.unicode_len();
    let mut out: Vec<String> = Vec::new();
    let mut i: usize = 0;
    proof {
        assert(out.deep_view() =~= Seq::<Seq<char>>::empty());
        assert(text@.skip(0) =~= text@);
        assert(Seq::<Seq<char>>::empty() + words_of(text@) =~= words_of(text@));
    }
    while i < n
        invariant
            n == text@.len(),
            i <= n,
            words_of(text@) == out.deep_view() + words_of(text@.skip(i as int)),
        decreases n - i,
    {
        if is_space(text.get_char(i)) {
            proof {
                assert(text@.skip(i as int)[0] == text@[i as int]);
                assert(text@.skip(i as int).skip(1) =~= text@.skip(i + 1));
            }
            i = i + 1;
        } else {
            let start = i;
            i = i + 1;
            while i < n && !is_space(text.get_char(i))
                invariant
                    n == text@.len(),
                    start < i <= n,
                    forall|j: int| start < j < i ==> !is_space_char(text@[j]),
                decreases n - i,
            {
                i = i + 1;
            }
            let w = text.substring_char(start, i);
            proof {
                let s = text@;
                let t = s.skip(start as int);
                assert forall|j: int| 0 <= j < i - start implies !is_space_char(t[j]) by {
                    assert(t[j] == s[start + j]);
                }
                if i - start < t.len() {
                    assert(t[i - start] == s[i as int]);
                }
                lemma_word_len_is(t, i - start);
                assert(t.take(i - start) =~= s.subrange(start as int, i as int));
                assert(t.skip(i - start) =~= s.skip(i as int));
                assert(words_of(t) == seq![s.subrange(start as int, i as int)] + words_of(
                    s.skip(i as int),
                ));
            }
            let ghost old_dv = out.deep_view();
            out.push(String::from_str(w));
            proof {
                assert(out.deep_view() =~= old_dv.push(text@.subrange(start as int, i as int)));
                assert(out.deep_view() + words_of(text@.skip(i as int)) =~~= old_dv + (seq![
                    text@.subrange(start as int, i as int),
                ] + words_of(text@.skip(i as int))));
            }
        }
    }
    proof {
        assert(text@.skip(n as int) =~= Seq::<char>::empty());
        assert(words_of(Seq::<char>::empty()) == Seq::<Seq<char>>::empty());
        assert(out.deep_view() + Seq::<Seq<char>>::empty() =~= out.deep_view());
    }
    out
}

/// Join `words[from..to]` with single spaces between neighbours.
pub fn join_range(words: &Vec<String>, from: usize, to: usize) -> (r: String)
    requires
        from <= to <= words.len(),
    ensures
        r@ == join_sep(words.deep_view().subrange(from as int, to as int), " "@),
{
    let mut r = String::new();
    let mut k = from;
    proof {
        assert(words.deep_view().subrange(from as int, from as int) =~= Seq::<Seq<char>>::empty());
    }
    while k < to
        invariant
            from <= k <= to <= words.len(),
            r@ == join_sep(words.deep_view().subrange(from as int, k as int), " "@),
        decreases to - k,
    {
        let ghost prefix = words.deep_view().subrange(from as int, k as int);
        if k > from {
            r.append(" ");
        }
        r.append(words[k].as_str());
        proof {
            assert(words.deep_view()[k as int] == words@[k as int]@);
            lemma_join_sep_push(prefix, " "@, words.deep_view()[k as int]);
            assert(words.deep_view().subrange(from as int, k + 1) =~= prefix.push(
                words.deep_view()[k as int],
            ));
        }
        k = k + 1;
    }
    r
}

} // verus!
