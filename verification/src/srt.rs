//! The subtitle normalizer: drops sequence-number lines and timestamp
//! lines from subtitle-format text and joins the spoken lines into one
//! paragraph.

use vstd::prelude::*;
use vstd::string::*;
use crate::chars::{is_space_char, is_digit_char, is_space, is_digit};
use crate::words::{join_sep, lemma_join_sep_push};

verus! {

/// Index of the first line feed in `s`, or `s.len()` if there is none.
pub open spec fn nl_len(s: Seq<char>) -> int
    decreases s.len(),
{
    if s.len() == 0 || s[0] == '\n' {
        0
    } else {
        1 + nl_len(s.skip(1))
    }
}

pub proof fn lemma_nl_len(s: Seq<char>)
    ensures
        0 <= nl_len(s) <= s.len(),
        forall|j: int| 0 <= j < nl_len(s) ==> s[j] != '\n',
        nl_len(s) < s.len() ==> s[nl_len(s)] == '\n',
    decreases s.len(),
{
    if s.len() == 0 || s[0] == '\n' {
    } else {
        lemma_nl_len(s.skip(1));
        assert forall|j: int| 0 <= j < nl_len(s) implies s[j] != '\n' by {
            if j > 0 {
                assert(s.skip(1)[j - 1] == s[j]);
            }
        }
        if nl_len(s) < s.len() {
            assert(s.skip(1)[nl_len(s) - 1] == s[nl_len(s)]);
        }
    }
}

/// `nl_len` is the unique boundary with no line feed before it and a
/// line feed (or the end of the text) at it.
pub proof fn lemma_nl_len_is(s: Seq<char>, e: int)
    requires
        0 <= e <= s.len(),
        forall|j: int| 0 <= j < e ==> s[j] != '\n',
        e < s.len() ==> s[e] == '\n',
    ensures
        nl_len(s) == e,
    decreases s.len(),
{
    if s.len() == 0 {
    } else if s[0] == '\n' {
        assert(e == 0);
    } else {
        assert(e >= 1);
        assert forall|j: int| 0 <= j < e - 1 implies s.skip(1)[j] != '\n' by {
            assert(s.skip(1)[j] == s[j + 1]);
        }
        if e - 1 < s.skip(1).len() {
            assert(s.skip(1)[e - 1] == s[e]);
        }
        lemma_nl_len_is(s.skip(1), e - 1);
    }
}

/// A line as produced by line splitting: one trailing carriage return
/// is removed when the line was terminated by a line feed.
pub open spec fn strip_cr(l: Seq<char>) -> Seq<char> {
    if l.len() > 0 && l[l.len() - 1] == '\r' {
        l.drop_last()
    } else {
        l
    }
}

/// The lines of `s`: pieces between line feeds, a carriage return
/// before a line feed removed, and no final empty piece when the text
/// ends with a line feed.
pub open spec fn split_lines(s: Seq<char>) -> Seq<Seq<char>>
    decreases s.len(),
    via split_lines_dec
{
    if s.len() == 0 {
        Seq::empty()
    } else {
        let e = nl_len(s);
        if e == s.len() {
            seq![s]
        } else {
            seq![strip_cr(s.take(e))] + split_lines(s.skip(e + 1))
        }
    }
}

#[via_fn]
proof fn split_lines_dec(s: Seq<char>) {
    if s.len() > 0 {
        lemma_nl_len(s);
    }
}

/// `l` with its leading run of whitespace removed.
pub open spec fn trim_start_spec(l: Seq<char>) -> Seq<char>
    decreases l.len(),
{
    if l.len() > 0 && is_space_char(l[0]) {
        trim_start_spec(l.skip(1))
    } else {
        l
    }
}

/// `l` with its trailing run of whitespace removed.
pub open spec fn trim_end_spec(l: Seq<char>) -> Seq<char>
    decreases l.len(),
{
    if l.len() > 0 && is_space_char(l[l.len() - 1]) {
        trim_end_spec(l.drop_last())
    } else {
        l
    }
}

/// `l` with leading and trailing whitespace removed.
pub open spec fn trim_spec(l: Seq<char>) -> Seq<char> {
    trim_end_spec(trim_start_spec(l))
}

pub proof fn lemma_trim_start_at(l: Seq<char>, a: int)
    requires
        0 <= a <= l.len(),
        forall|j: int| 0 <= j < a ==> is_space_char(l[j]),
        a < l.len() ==> !is_space_char(l[a]),
    ensures
        trim_start_spec(l) == l.skip(a),
    decreases a,
{
    if a == 0 {
        assert(l.skip(0) =~= l);
    } else {
        assert(is_space_char(l[0]));
        assert forall|j: int| 0 <= j < a - 1 implies is_space_char(l.skip(1)[j]) by {
            assert(l.skip(1)[j] == l[j + 1]);
        }
        if a - 1 < l.skip(1).len() {
            assert(l.skip(1)[a - 1] == l[a]);
        }
        lemma_trim_start_at(l.skip(1), a - 1);
        assert(l.skip(1).skip(a - 1) =~= l.skip(a));
    }
}

pub proof fn lemma_trim_end_at(l: Seq<char>, b: int)
    requires
        0 <= b <= l.len(),
        forall|j: int| b <= j < l.len() ==> is_space_char(l[j]),
        b > 0 ==> !is_space_char(l[b - 1]),
    ensures
        trim_end_spec(l) == l.take(b),
    decreases l.len() - b,
{
    if b == l.len() {
        if l.len() > 0 && is_space_char(l[l.len() - 1]) {
            assert(false);
        }
        assert(l.take(b) =~= l);
    } else {
        assert(is_space_char(l[l.len() - 1]));
        assert forall|j: int| b <= j < l.drop_last().len() implies is_space_char(
            l.drop_last()[j],
        ) by {
            assert(l.drop_last()[j] == l[j]);
        }
        lemma_trim_end_at(l.drop_last(), b);
        assert(l.drop_last().take(b) =~= l.take(b));
    }
}

/// Every character of `t` is a decimal digit.
pub open spec fn all_digits(t: Seq<char>) -> bool {
    forall|j: int| 0 <= j < t.len() ==> is_digit_char(t[j])
}

/// A subtitle time of the form `HH:MM:SS,mmm` stands at index `k`.
pub open spec fn time_at(t: Seq<char>, k: int) -> bool {
    &&& is_digit_char(t[k])
    &&& is_digit_char(t[k + 1])
    &&& t[k + 2] == ':'
    &&& is_digit_char(t[k + 3])
    &&& is_digit_char(t[k + 4])
    &&& t[k + 5] == ':'
    &&& is_digit_char(t[k + 6])
    &&& is_digit_char(t[k + 7])
    &&& t[k + 8] == ','
    &&& is_digit_char(t[k + 9])
    &&& is_digit_char(t[k + 10])
    &&& is_digit_char(t[k + 11])
}

/// A timestamp range `HH:MM:SS,mmm --> HH:MM:SS,mmm` stands at index
/// `k`; it is 29 characters long.
pub open spec fn timestamp_at(t: Seq<char>, k: int) -> bool {
    &&& time_at(t, k)
    &&& t[k + 12] == ' '
    &&& t[k + 13] == '-'
    &&& t[k + 14] == '-'
    &&& t[k + 15] == '>'
    &&& t[k + 16] == ' '
    &&& time_at(t, k + 17)
}

/// `t` contains a timestamp range somewhere.
pub open spec fn has_timestamp(t: Seq<char>) -> bool {
    exists|k: int| 0 <= k && k + 29 <= t.len() && timestamp_at(t, k)
}

/// A line survives normalization when its trimmed content is nonempty,
/// is not a bare sequence number, and contains no timestamp range.
pub open spec fn line_kept(l: Seq<char>) -> bool {
    let t = trim_spec(l);
    t.len() > 0 && !all_digits(t) && !has_timestamp(t)
}

/// The surviving lines, in order.
pub open spec fn kept_lines(ls: Seq<Seq<char>>) -> Seq<Seq<char>>
    decreases ls.len(),
{
    if ls.len() == 0 {
        Seq::empty()
    } else if line_kept(ls[0]) {
        seq![ls[0]] + kept_lines(ls.drop_first())
    } else {
        kept_lines(ls.drop_first())
    }
}

/// What `clean_srt` returns: the surviving lines joined with single
/// spaces.
pub open spec fn clean_srt_spec(s: Seq<char>) -> Seq<char> {
    join_sep(kept_lines(split_lines(s)), " "@)
}

/// Keeping every line changes nothing.
pub proof fn lemma_kept_lines_all(ls: Seq<Seq<char>>)
    requires
        forall|i: int| 0 <= i < ls.len() ==> #[trigger] line_kept(ls[i]),
    ensures
        kept_lines(ls) == ls,
    decreases ls.len(),
{
    if ls.len() == 0 {
        assert(kept_lines(ls) =~~= ls);
    } else {
        assert(line_kept(ls[0]));
        assert forall|i: int| 0 <= i < ls.drop_first().len() implies #[trigger] line_kept(
            ls.drop_first()[i],
        ) by {
            assert(ls.drop_first()[i] == ls[i + 1]);
        }
        lemma_kept_lines_all(ls.drop_first());
        assert(seq![ls[0]] + ls.drop_first() =~~= ls);
    }
}

/// No line produced by line splitting contains a line feed.
pub proof fn lemma_split_lines_no_nl(s: Seq<char>)
    ensures
        forall|i: int, k: int|
            #![trigger split_lines(s)[i][k]]
            0 <= i < split_lines(s).len() && 0 <= k < split_lines(s)[i].len() ==> split_lines(
                s,
            )[i][k] != '\n',
    decreases s.len(),
{
    if s.len() == 0 {
    } else {
        lemma_nl_len(s);
        let e = nl_len(s);
        let ls = split_lines(s);
        if e == s.len() {
        } else {
            lemma_split_lines_no_nl(s.skip(e + 1));
            let rest = split_lines(s.skip(e + 1));
            assert forall|i: int, k: int|
                0 <= i < ls.len() && 0 <= k < ls[i].len() implies #[trigger] ls[i][k]
                != '\n' by {
                if i == 0 {
                    assert(ls[0] == strip_cr(s.take(e)));
                    assert(ls[0][k] == s[k]);
                } else {
                    assert(ls[i] == rest[i - 1]);
                }
            }
        }
    }
}

/// Joining lines that hold no line feed with single spaces yields a
/// text with no line feed.
pub proof fn lemma_join_space_no_nl(ls: Seq<Seq<char>>)
    requires
        forall|i: int, k: int|
            #![trigger ls[i][k]]
            0 <= i < ls.len() && 0 <= k < ls[i].len() ==> ls[i][k] != '\n',
    ensures
        forall|k: int|
            0 <= k < join_sep(ls, " "@).len() ==> #[trigger] join_sep(ls, " "@)[k] != '\n',
    decreases ls.len(),
{
    reveal_strlit(" ");
    if ls.len() <= 1 {
    } else {
        assert forall|i: int, k: int|
            #![trigger ls.drop_first()[i][k]]
            0 <= i < ls.drop_first().len() && 0 <= k < ls.drop_first()[i].len() implies ls.drop_first()[i][k]
            != '\n' by {
            assert(ls.drop_first()[i] == ls[i + 1]);
        }
        lemma_join_space_no_nl(ls.drop_first());
        let j = join_sep(ls, " "@);
        let tail = join_sep(ls.drop_first(), " "@);
        assert forall|k: int| 0 <= k < j.len() implies #[trigger] j[k] != '\n' by {
            assert(j == ls[0] + " "@ + tail);
            if k < ls[0].len() {
                assert(j[k] == ls[0][k]);
            } else if k == ls[0].len() {
                assert(j[k] == ' ');
            } else {
                assert(j[k] == tail[k - ls[0].len() - 1]);
            }
        }
    }
}

/// A nonempty text with no line feed is a single line.
pub proof fn lemma_split_lines_single(j: Seq<char>)
    requires
        j.len() > 0,
        forall|k: int| 0 <= k < j.len() ==> #[trigger] j[k] != '\n',
    ensures
        split_lines(j) == seq![j],
{
    lemma_nl_len_is(j, j.len() as int);
}

/// Normalizing text in which every line already survives — no empty
/// lines, no sequence numbers, no timestamps — only joins its lines
/// with single spaces: nothing is dropped.
pub proof fn lemma_clean_srt_plain_text(s: Seq<char>)
    requires
        forall|i: int| 0 <= i < split_lines(s).len() ==> #[trigger] line_kept(split_lines(s)[i]),
    ensures
        clean_srt_spec(s) == join_sep(split_lines(s), " "@),
{
    lemma_kept_lines_all(split_lines(s));
}

/// Normalization is idempotent on already-clean text: when every line
/// of `s` survives and the joined result itself survives, a second
/// normalization changes nothing. (A second pass can differ only when
/// joining lines forms a new timestamp across a line boundary, which
/// the last premise rules out.)
pub proof fn lemma_clean_srt_idempotent(s: Seq<char>)
    requires
        forall|i: int| 0 <= i < split_lines(s).len() ==> #[trigger] line_kept(split_lines(s)[i]),
        split_lines(s).len() == 0 || line_kept(clean_srt_spec(s)),
    ensures
        clean_srt_spec(clean_srt_spec(s)) == clean_srt_spec(s),
{
    lemma_kept_lines_all(split_lines(s));
    let j = clean_srt_spec(s);
    if split_lines(s).len() == 0 {
        assert(j == Seq::<char>::empty());
        assert(split_lines(j) == Seq::<Seq<char>>::empty());
        assert(kept_lines(split_lines(j)) == Seq::<Seq<char>>::empty());
    } else {
        if j.len() == 0 {
            assert(trim_start_spec(j) == j);
            assert(trim_end_spec(j) == j);
            assert(!line_kept(j));
            assert(false);
        }
        lemma_split_lines_no_nl(s);
        lemma_join_space_no_nl(split_lines(s));
        lemma_split_lines_single(j);
        assert(seq![j].drop_first() =~~= Seq::<Seq<char>>::empty());
        assert(kept_lines(Seq::<Seq<char>>::empty()) == Seq::<Seq<char>>::empty());
        assert(seq![j] + Seq::<Seq<char>>::empty() =~~= seq![j]);
        assert(kept_lines(seq![j]) =~~= seq![j]);
    }
}

fn time_at_exec(t: &str, k: usize) -> (r: bool)
    requires
        k + 12 <= t@.len(),
        t@.len() <= usize::MAX,
    ensures
        r == time_at(t@, k as int),
{
    is_digit(t.get_char(k)) && is_digit(t.get_char(k + 1)) && t.get_char(k + 2) == ':' && is_digit(
        t.get_char(k + 3),
    ) && is_digit(t.get_char(k + 4)) && t.get_char(k + 5) == ':' && is_digit(t.get_char(k + 6))
        && is_digit(t.get_char(k + 7)) && t.get_char(k + 8) == ',' && is_digit(t.get_char(k + 9))
        && is_digit(t.get_char(k + 10)) && is_digit(t.get_char(k + 11))
}

fn timestamp_at_exec(t: &str, k: usize) -> (r: bool)
    requires
        k + 29 <= t@.len(),
        t@.len() <= usize::MAX,
    ensures
        r == timestamp_at(t@, k as int),
{
    time_at_exec(t, k) && t.get_char(k + 12) == ' ' && t.get_char(k + 13) == '-' && t.get_char(
        k + 14,
    ) == '-' && t.get_char(k + 15) == '>' && t.get_char(k + 16) == ' ' && time_at_exec(t, k + 17)
}

fn has_timestamp_exec(t: &str) -> (r: bool)
    ensures
        r == has_timestamp(t@),
{
    let n = t.unicode_len();
    if n < 29 {
        return false;
    }
    let mut k: usize = 0;
    while k <= n - 29
        invariant
            n == t@.len(),
            29 <= n,
            k <= n - 29 + 1,
            forall|j: int| 0 <= j < k ==> !timestamp_at(t@, j),
        decreases n - k,
    {
        if timestamp_at_exec(t, k) {
            return true;
        }
        k = k + 1;
    }
    false
}

fn all_digits_exec(t: &str) -> (r: bool)
    ensures
        r == all_digits(t@),
{
    let n = t.unicode_len();
    let mut k: usize = 0;
    while k < n
        invariant
            n == t@.len(),
            k <= n,
            forall|j: int| 0 <= j < k ==> is_digit_char(t@[j]),
        decreases n - k,
    {
        if !is_digit(t.get_char(k)) {
            return false;
        }
        k = k + 1;
    }
    true
}

/// Decide whether a line survives normalization.
pub fn line_is_kept(line: &str) -> (r: bool)
    ensures
        r == line_kept(line@),
{
    let n = line.unicode_len();
    let mut a: usize = 0;
    while a < n && is_space(line.get_char(a))
        invariant
            n == line@.len(),
            a <= n,
            forall|j: int| 0 <= j < a ==> is_space_char(line@[j]),
        decreases n - a,
    {
        a = a + 1;
    }
    let mut b: usize = n;
    while b > a && is_space(line.get_char(b - 1))
        invariant
            n == line@.len(),
            a <= b <= n,
            forall|j: int| b <= j < n ==> is_space_char(line@[j]),
        decreases b,
    {
        b = b - 1;
    }
    proof {
        lemma_trim_start_at(line@, a as int);
        let rest = line@.skip(a as int);
        assert forall|j: int| b - a <= j < rest.len() implies is_space_char(rest[j]) by {
            assert(rest[j] == line@[j + a]);
        }
        if b - a > 0 {
            assert(rest[b - a - 1] == line@[b - 1]);
        }
        lemma_trim_end_at(rest, b - a);
        assert(trim_spec(line@) =~= line@.subrange(a as int, b as int));
    }
    if a == b {
        return false;
    }
    let t = line.substring_char(a, b);
    if all_digits_exec(t) {
        return false;
    }
    if has_timestamp_exec(t) {
        return false;
    }
    true
}

/// Normalize subtitle text: drop empty lines, bare sequence numbers and
/// timestamp lines, and join what remains into a single line.
pub fn clean_srt(text: &str) -> (r: String)
    ensures
        r@ == clean_srt_spec(text@),
{
    let n = text.unicode_len();
    let mut out = String::new();
    let mut any = false;
    let mut i: usize = 0;
    let ghost mut done: Seq<Seq<char>> = Seq::empty();
    proof {
        assert(text@.skip(0) =~= text@);
        assert(Seq::<Seq<char>>::empty() + kept_lines(split_lines(text@)) =~~= kept_lines(
            split_lines(text@),
        ));
    }
    while i < n
        invariant
            n == text@.len(),
            i <= n,
            kept_lines(split_lines(text@)) == done + kept_lines(split_lines(text@.skip(i as int))),
            out@ == join_sep(done, " "@),
            any == (done.len() > 0),
        decreases n - i,
    {
        let mut e = i;
        while e < n && text.get_char(e) != '\n'
            invariant
                n == text@.len(),
                i <= e <= n,
                forall|j: int| i <= j < e ==> text@[j] != '\n',
            decreases n - e,
        {
            e = e + 1;
        }
        let line_end = if e < n && e > i && text.get_char(e - 1) == '\r' {
            e - 1
        } else {
            e
        };
        let line = text.substring_char(i, line_end);
        let ghost rest = text@.skip(i as int);
        proof {
            assert forall|j: int| 0 <= j < e - i implies rest[j] != '\n' by {
                assert(rest[j] == text@[j + i]);
            }
            if e < n {
                assert(rest[e - i] == text@[e as int]);
            }
            lemma_nl_len_is(rest, e - i);
            if e < n {
                assert(rest.take(e - i) =~= text@.subrange(i as int, e as int));
                assert(strip_cr(text@.subrange(i as int, e as int)) =~= text@.subrange(
                    i as int,
                    line_end as int,
                ));
                assert(rest.skip(e - i + 1) =~= text@.skip(e + 1));
                assert(split_lines(rest) == seq![text@.subrange(i as int, line_end as int)]
                    + split_lines(text@.skip(e + 1)));
            } else {
                assert(rest =~= text@.subrange(i as int, line_end as int));
                assert(split_lines(rest) == seq![text@.subrange(i as int, line_end as int)]);
                assert(text@.skip(n as int) =~= Seq::<char>::empty());
                assert(split_lines(rest) == seq![text@.subrange(i as int, line_end as int)]
                    + split_lines(text@.skip(n as int)));
            }
        }
        let ghost next_i: int = if e < n {
            e as int + 1
        } else {
            n as int
        };
        proof {
            let ls = split_lines(rest);
            let tail = split_lines(text@.skip(next_i));
            assert(ls == seq![line@] + tail);
            assert(ls[0] == line@);
            assert(ls.drop_first() =~~= tail);
            assert(kept_lines(ls) == if line_kept(line@) {
                seq![line@] + kept_lines(tail)
            } else {
                kept_lines(tail)
            });
        }
        if line_is_kept(line) {
            if any {
                out.append(" ");
            }
            out.append(line);
            any = true;
            proof {
                let prev = done;
                lemma_join_sep_push(prev, " "@, line@);
                if prev.len() == 0 {
                    assert(out@ =~= line@);
                }
                done = prev.push(line@);
                assert(prev + (seq![line@] + kept_lines(split_lines(text@.skip(next_i)))) =~~= done
                    + kept_lines(split_lines(text@.skip(next_i))));
            }
        }
        i = if e < n {
            e + 1
        } else {
            n
        };
    }
    proof {
        assert(text@.skip(n as int) =~= Seq::<char>::empty());
        assert(split_lines(Seq::<char>::empty()) == Seq::<Seq<char>>::empty());
        assert(done + Seq::<Seq<char>>::empty() =~~= done);
    }
    out
}

} // verus!
