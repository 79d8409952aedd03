//! Splitting a document into overlapping, fixed-size windows of words.

use vstd::prelude::*;
use crate::words::{words_of, join_sep, split_words, join_range};

verus! {

/// How far the cursor moves between consecutive windows: the chunk size
/// minus the overlap, clamped to at least one word so that the split
/// always makes progress, even when the overlap reaches or exceeds the
/// chunk size.
pub open spec fn advance_step(size: int, overlap: int) -> int {
    if size - overlap >= 1 {
        size - overlap
    } else {
        1
    }
}

/// Where the window starting at `start` ends: `size` words later, or at
/// the end of the document if fewer remain.
pub open spec fn window_end(start: int, size: int, n: int) -> int {
    if start + size <= n {
        start + size
    } else {
        n
    }
}

/// The `(start, end)` word-index windows produced from cursor `start`
/// over `n` words. After a window that does not reach the end, the
/// cursor advances by `step`.
pub open spec fn windows_from(n: int, size: int, step: int, start: int) -> Seq<(int, int)>
    decreases n - start when step >= 1
{
    if start >= n {
        Seq::empty()
    } else {
        let e = window_end(start, size, n);
        if e == n {
            seq![(start, e)]
        } else {
            let next = if start + step <= n {
                start + step
            } else {
                n
            };
            seq![(start, e)] + windows_from(n, size, step, next)
        }
    }
}

/// The windows of a split of `n` words with the given chunk size and
/// overlap.
pub open spec fn split_windows(n: int, size: int, overlap: int) -> Seq<(int, int)> {
    windows_from(n, size, advance_step(size, overlap), 0)
}

/// The chunk strings produced from cursor `start`: each window's words
/// joined with single spaces.
pub open spec fn chunks_from(ws: Seq<Seq<char>>, size: int, step: int, start: int) -> Seq<
    Seq<char>,
>
    decreases ws.len() - start when step >= 1
{
    let n = ws.len() as int;
    if start >= n {
        Seq::empty()
    } else {
        let e = window_end(start, size, n);
        if e == n {
            seq![join_sep(ws.subrange(start, e), " "@)]
        } else {
            let next = if start + step <= n {
                start + step
            } else {
                n
            };
            seq![join_sep(ws.subrange(start, e), " "@)] + chunks_from(ws, size, step, next)
        }
    }
}

/// What `split_text` returns: the words of `text`, grouped into
/// overlapping windows and re-joined with single spaces.
pub open spec fn split_spec(text: Seq<char>, size: int, overlap: int) -> Seq<Seq<char>> {
    chunks_from(words_of(text), size, advance_step(size, overlap), 0)
}

/// Each chunk is the join of the words of the matching window.
pub proof fn lemma_chunks_are_window_joins(ws: Seq<Seq<char>>, size: int, step: int, start: int)
    requires
        step >= 1,
    ensures
        chunks_from(ws, size, step, start).len() == windows_from(
            ws.len() as int,
            size,
            step,
            start,
        ).len(),
        forall|i: int|
            0 <= i < chunks_from(ws, size, step, start).len() ==> chunks_from(
                ws,
                size,
                step,
                start,
            )[i] == join_sep(
                ws.subrange(
                    windows_from(ws.len() as int, size, step, start)[i].0,
                    windows_from(ws.len() as int, size, step, start)[i].1,
                ),
                " "@,
            ),
    decreases ws.len() as int - start,
{
    let n = ws.len() as int;
    if start >= n {
    } else {
        let e = window_end(start, size, n);
        if e == n {
        } else {
            let next = if start + step <= n {
                start + step
            } else {
                n
            };
            lemma_chunks_are_window_joins(ws, size, step, next);
        }
    }
}

/// The windows of a split cover the whole document with no gap: the
/// first window starts at word zero, the last ends at the last word,
/// consecutive windows abut or overlap, and the window ends strictly
/// increase, so every word appears as new content in exactly one
/// window.
pub proof fn lemma_windows_cover(n: int, size: int, step: int, start: int)
    requires
        1 <= step <= size,
        0 <= start < n,
    ensures
        ({
            let w = windows_from(n, size, step, start);
            &&& w.len() >= 1
            &&& w[0].0 == start
            &&& w[w.len() - 1].1 == n
            &&& forall|i: int|
                #![trigger w[i]]
                0 <= i < w.len() ==> w[i].1 == window_end(w[i].0, size, n) && start <= w[i].0
                    < w[i].1 <= n
            &&& forall|i: int|
                #![trigger w[i]]
                0 <= i < w.len() - 1 ==> w[i + 1].0 == w[i].0 + step && w[i + 1].0 <= w[i].1
                    && w[i].1 < w[i + 1].1
        }),
    decreases n - start,
{
    let w = windows_from(n, size, step, start);
    let e = window_end(start, size, n);
    if e == n {
    } else {
        let next = start + step;
        assert(next <= n);
        lemma_windows_cover(n, size, step, next);
        let rest = windows_from(n, size, step, next);
        assert(w == seq![(start, e)] + rest);
        assert forall|i: int|
            #![trigger w[i]]
            0 <= i < w.len() implies w[i].1 == window_end(w[i].0, size, n) && start <= w[i].0
            < w[i].1 <= n by {
            assert(w[0] == (start, e));
            assert(forall|i: int| 1 <= i < w.len() ==> w[i] == rest[i - 1]);
        }
        assert forall|i: int|
            #![trigger w[i]]
            0 <= i < w.len() - 1 implies w[i + 1].0 == w[i].0 + step && w[i + 1].0 <= w[i].1
            && w[i].1 < w[i + 1].1 by {
            if i == 0 {
                assert(w[1] == rest[0]);
                assert(rest[0].0 == next);
                assert(next <= e) by {
                    assert(step <= size);
                }
                assert(rest[0].1 == window_end(next, size, n));
                assert(e < rest[0].1);
            } else {
                assert(w[i] == rest[i - 1]);
                assert(w[i + 1] == rest[i]);
            }
        }
    }
}

/// The chunks of a split are exactly the joins of the words of its
/// windows, one per window and in window order.
pub proof fn lemma_split_chunks_match_windows(text: Seq<char>, size: int, overlap: int)
    ensures
        ({
            let ws = words_of(text);
            let chunks = split_spec(text, size, overlap);
            let w = split_windows(ws.len() as int, size, overlap);
            &&& chunks.len() == w.len()
            &&& forall|i: int|
                0 <= i < chunks.len() ==> #[trigger] chunks[i] == join_sep(
                    ws.subrange(w[i].0, w[i].1),
                    " "@,
                )
        }),
{
    lemma_chunks_are_window_joins(words_of(text), size, advance_step(size, overlap), 0);
}

/// For every positive chunk size, the windows of a split of a nonempty
/// document cover every word: the first window starts at word zero,
/// the last ends at the last word, consecutive windows abut or
/// overlap, and the window ends strictly increase — so each word
/// appears as new content in exactly one window, none skipped, for any
/// overlap, including one at or above the chunk size.
pub proof fn lemma_split_covers_all_words(n: int, size: int, overlap: int)
    requires
        1 <= size,
        0 <= overlap,
        1 <= n,
    ensures
        ({
            let w = split_windows(n, size, overlap);
            &&& w.len() >= 1
            &&& w[0].0 == 0
            &&& w[w.len() - 1].1 == n
            &&& forall|i: int|
                #![trigger w[i]]
                0 <= i < w.len() ==> w[i].1 == window_end(w[i].0, size, n) && 0 <= w[i].0 < w[i].1
                    <= n
            &&& forall|i: int|
                #![trigger w[i]]
                0 <= i < w.len() - 1 ==> w[i + 1].0 == w[i].0 + advance_step(size, overlap) && w[i
                    + 1].0 <= w[i].1 && w[i].1 < w[i + 1].1
        }),
{
    assert(1 <= advance_step(size, overlap) <= size);
    lemma_windows_cover(n, size, advance_step(size, overlap), 0);
}

proof fn lemma_windows_cover_point(n: int, size: int, step: int, start: int, x: int)
    requires
        1 <= step <= size,
        0 <= start <= x < n,
    ensures
        exists|i: int|
            0 <= i < windows_from(n, size, step, start).len() && ((#[trigger] windows_from(
                n,
                size,
                step,
                start,
            )[i]).0 <= x < windows_from(n, size, step, start)[i].1),
    decreases n - start,
{
    let w = windows_from(n, size, step, start);
    let e = window_end(start, size, n);
    if x < e {
        assert(w[0].0 <= x < w[0].1);
    } else {
        assert(e < n);
        let next = start + step;
        assert(next <= e <= x);
        lemma_windows_cover_point(n, size, step, next, x);
        let rest = windows_from(n, size, step, next);
        let i = choose|i: int|
            0 <= i < rest.len() && ((#[trigger] rest[i]).0 <= x < rest[i].1);
        assert(w[i + 1] == rest[i]);
        assert(w[i + 1].0 <= x < w[i + 1].1);
    }
}

/// No word is skipped: for every positive chunk size, each word index
/// of the document lies inside at least one window of the split.
pub proof fn lemma_split_covers_word(n: int, size: int, overlap: int, x: int)
    requires
        1 <= size,
        0 <= overlap,
        0 <= x < n,
    ensures
        exists|i: int|
            0 <= i < split_windows(n, size, overlap).len() && ((#[trigger] split_windows(
                n,
                size,
                overlap,
            )[i]).0 <= x < split_windows(n, size, overlap)[i].1),
{
    assert(1 <= advance_step(size, overlap) <= size);
    lemma_windows_cover_point(n, size, advance_step(size, overlap), 0, x);
    let w0 = windows_from(n, size, advance_step(size, overlap), 0);
    let i = choose|i: int| 0 <= i < w0.len() && ((#[trigger] w0[i]).0 <= x < w0[i].1);
    assert(split_windows(n, size, overlap) == w0);
    assert(0 <= i < split_windows(n, size, overlap).len() && split_windows(n, size, overlap)[i].0
        <= x < split_windows(n, size, overlap)[i].1);
}

/// Every window holds exactly `size` words, except the last, which may
/// be shorter.
pub proof fn lemma_split_window_sizes(n: int, size: int, overlap: int)
    requires
        1 <= size,
        0 <= overlap,
        1 <= n,
    ensures
        ({
            let w = split_windows(n, size, overlap);
            &&& forall|i: int| #![trigger w[i]] 0 <= i < w.len() ==> w[i].1 - w[i].0 <= size
            &&& forall|i: int| #![trigger w[i]] 0 <= i < w.len() - 1 ==> w[i].1 - w[i].0 == size
        }),
{
    lemma_split_covers_all_words(n, size, overlap);
    let w = split_windows(n, size, overlap);
    assert forall|i: int| #![trigger w[i]] 0 <= i < w.len() - 1 implies w[i].1 - w[i].0
        == size by {
        assert(w[i].1 < w[i + 1].1);
        assert(w[i + 1].1 <= n);
        assert(w[i].1 == window_end(w[i].0, size, n));
    }
}

/// A document whose word count is positive but no larger than the chunk
/// size is returned as a single chunk holding all of its words.
pub proof fn lemma_split_single_chunk(text: Seq<char>, size: int, overlap: int)
    requires
        1 <= words_of(text).len() <= size,
        0 <= overlap,
    ensures
        split_spec(text, size, overlap) == seq![join_sep(words_of(text), " "@)],
{
    let ws = words_of(text);
    let n = ws.len() as int;
    assert(window_end(0, size, n) == n);
    assert(ws.subrange(0, n) =~= ws);
}

/// An empty document splits into no chunks at all.
pub proof fn lemma_split_empty(size: int, overlap: int)
    ensures
        split_spec(Seq::<char>::empty(), size, overlap) == Seq::<Seq<char>>::empty(),
{
    assert(words_of(Seq::<char>::empty()) == Seq::<Seq<char>>::empty());
}

/// Split `text` into chunks of at most `chunk_size` words, consecutive
/// chunks sharing `chunk_overlap` words where possible. The cursor
/// always advances by at least one word, so the split terminates for
/// every combination of size and overlap.
pub fn split_text(text: &str, chunk_size: usize, chunk_overlap: usize) -> (r: Vec<String>)
    ensures
        r.deep_view() == split_spec(text@, chunk_size as int, chunk_overlap as int),
{
    let ghost size = chunk_size as int;
    let ghost overlap = chunk_overlap as int;
    let words = split_words(text);
    let ghost ws = words.deep_view();
    let mut chunks: Vec<String> = Vec::new();
    let n = words.len();
    let step: usize = if chunk_size > chunk_overlap {
        chunk_size - chunk_overlap
    } else {
        1
    };
    proof {
        assert(step as int == advance_step(size, overlap));
    }
    if n == 0 {
        proof {
            assert(chunks.deep_view() =~= Seq::<Seq<char>>::empty());
        }
        return chunks;
    }
    let mut start: usize = 0;
    proof {
        assert(chunks.deep_view() + chunks_from(ws, size, step as int, 0) =~= chunks_from(
            ws,
            size,
            step as int,
            0,
        ));
    }
    while start < n
        invariant
            size == chunk_size as int,
            overlap == chunk_overlap as int,
            n == words.len(),
            ws == words.deep_view(),
            ws == words_of(text@),
            step as int == advance_step(size, overlap),
            step >= 1,
            start <= n,
            split_spec(text@, size, overlap) == chunks.deep_view() + chunks_from(
                ws,
                size,
                step as int,
                start as int,
            ),
        decreases n - start,
    {
        let end = if chunk_size < n - start {
            start + chunk_size
        } else {
            n
        };
        proof {
            assert(end as int == window_end(start as int, size, n as int));
        }
        let piece = join_range(&words, start, end);
        let ghost old_dv = chunks.deep_view();
        chunks.push(piece);
        proof {
            assert(chunks.deep_view() =~= old_dv.push(
                join_sep(ws.subrange(start as int, end as int), " "@),
            ));
        }
        if end == n {
            proof {
                assert(chunks_from(ws, size, step as int, start as int) == seq![
                    join_sep(ws.subrange(start as int, end as int), " "@),
                ]);
                assert(chunks.deep_view() =~~= old_dv + chunks_from(
                    ws,
                    size,
                    step as int,
                    start as int,
                ));
            }
            return chunks;
        }
        let next = if step < n - start {
            start + step
        } else {
            n
        };
        proof {
            let c_here = chunks_from(ws, size, step as int, start as int);
            let c_next = chunks_from(ws, size, step as int, next as int);
            assert(c_here == seq![join_sep(ws.subrange(start as int, end as int), " "@)] + c_next);
            assert(chunks.deep_view() + c_next =~~= old_dv + c_here);
        }
        start = next;
    }
    proof {
        assert(chunks_from(ws, size, step as int, n as int) == Seq::<Seq<char>>::empty());
        assert(chunks.deep_view() + Seq::<Seq<char>>::empty() =~= chunks.deep_view());
    }
    chunks
}

} // verus!
