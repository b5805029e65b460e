//! Word-wrapping of utterance text into bounded-length chunks.
//!
//! The chunker splits a string into words (maximal runs of non-separator
//! characters), then greedily packs the words, joined by single spaces, into
//! chunks of at most a given maximum length. Words are never split across
//! chunk boundaries: a single word longer than the maximum stands alone in
//! its own oversized chunk. Whitespace runs collapse to single spaces as a
//! side effect of the wrapping.

use vstd::prelude::*;

verus! {

/// A word-separator character within one protocol line.
pub open spec fn is_space(c: char) -> bool {
    c == ' ' || c == '\t'
}

/// The words of `cur + s` read left to right, where `cur` is the
/// (separator-free) word prefix already read.
pub open spec fn words_from(s: Seq<char>, cur: Seq<char>) -> Seq<Seq<char>>
    decreases s.len(),
{
    if s.len() == 0 {
        if cur.len() == 0 {
            Seq::<Seq<char>>::empty()
        } else {
            seq![cur]
        }
    } else if is_space(s[0]) {
        if cur.len() == 0 {
            words_from(s.skip(1), Seq::<char>::empty())
        } else {
            seq![cur] + words_from(s.skip(1), Seq::<char>::empty())
        }
    } else {
        words_from(s.skip(1), cur.push(s[0]))
    }
}

/// The words of `s`: its maximal runs of non-separator characters, in order.
pub open spec fn words(s: Seq<char>) -> Seq<Seq<char>> {
    words_from(s, Seq::<char>::empty())
}

/// The given words joined by single spaces.
pub open spec fn join_spaces(ws: Seq<Seq<char>>) -> Seq<char>
    decreases ws.len(),
{
    if ws.len() == 0 {
        Seq::<char>::empty()
    } else if ws.len() == 1 {
        ws[0]
    } else {
        ws[0] + seq![' '] + join_spaces(ws.skip(1))
    }
}

/// `s` with every separator run collapsed to one space and leading and
/// trailing separators removed: its words joined by single spaces.
pub open spec fn normalized(s: Seq<char>) -> Seq<char> {
    join_spaces(words(s))
}

/// Greedy packing of `ws` into chunks of at most `max` characters, with
/// `cur` the (nonempty, unless nothing was taken yet) chunk being filled.
/// A word that does not fit beside `cur` starts the next chunk; a word is
/// never split, so a single word longer than `max` forms its own chunk.
pub open spec fn wrap_from(ws: Seq<Seq<char>>, cur: Seq<char>, max: int) -> Seq<Seq<char>>
    decreases ws.len(),
{
    if ws.len() == 0 {
        if cur.len() == 0 {
            Seq::<Seq<char>>::empty()
        } else {
            seq![cur]
        }
    } else if cur.len() == 0 {
        wrap_from(ws.skip(1), ws[0], max)
    } else if cur.len() + 1 + ws[0].len() <= max {
        wrap_from(ws.skip(1), cur + seq![' '] + ws[0], max)
    } else {
        seq![cur] + wrap_from(ws.skip(1), ws[0], max)
    }
}

/// The chunks of `s`: its words greedily packed into pieces of at most
/// `max` characters, joined by single spaces.
pub open spec fn chunks(s: Seq<char>, max: int) -> Seq<Seq<char>> {
    wrap_from(words(s), Seq::<char>::empty(), max)
}

/// The deep view of a character vector is its view.
pub proof fn lemma_char_vec_deep_view(v: Vec<char>)
    ensures
        v.deep_view() == v@,
{
    assert(v.deep_view() =~= v@);
}

/// Copies the characters of `src` onto the end of `dst`.
pub fn push_chars(dst: &mut Vec<char>, src: &[char])
    ensures
        final(dst)@ == old(dst)@ + src@,
{
    let ghost start = dst@;
    let mut j: usize = 0;
    while j < src.len()
        invariant
            j <= src@.len(),
            dst@ == start + src@.take(j as int),
        decreases src@.len() - j,
    {
        dst.push(src[j]);
        j += 1;
        proof {
            assert(src@.take(j as int) =~= src@.take(j - 1).push(src@[j - 1]));
        }
    }
    proof {
        assert(src@.take(src@.len() as int) =~= src@);
    }
}

/// A fresh vector holding the characters of `src`.
pub fn copy_chars(src: &[char]) -> (r: Vec<char>)
    ensures
        r@ == src@,
{
    let mut r: Vec<char> = Vec::new();
    push_chars(&mut r, src);
    proof {
        assert(Seq::<char>::empty() + src@ =~= src@);
    }
    r
}

/// Splits `text` into its words, in order.
pub fn split_words(text: &[char]) -> (r: Vec<Vec<char>>)
    ensures
        r.deep_view() == words(text@),
{
    let mut r: Vec<Vec<char>> = Vec::new();
    let mut cur: Vec<char> = Vec::new();
    let mut i: usize = 0;
    proof {
        assert(text@.skip(0) =~= text@);
    }
    while i < text.len()
        invariant
            i <= text@.len(),
            words(text@) == r.deep_view() + words_from(text@.skip(i as int), cur@),
        decreases text@.len() - i,
    {
        let ghost pre = text@.skip(i as int);
        proof {
            assert(pre[0] == text@[i as int]);
            assert(pre.skip(1) =~= text@.skip(i as int + 1));
        }
        let c = text[i];
        if c == ' ' || c == '\t' {
            if cur.len() > 0 {
                let ghost r0 = r.deep_view();
                let ghost w = cur@;
                proof {
                    lemma_char_vec_deep_view(cur);
                }
                r.push(cur);
                cur = Vec::new();
                proof {
                    assert(r.deep_view() =~= r0 + seq![w]);
                    assert(r0 + (seq![w] + words_from(text@.skip(i as int + 1), cur@)) =~= (r0
                        + seq![w]) + words_from(text@.skip(i as int + 1), cur@));
                }
            }
            proof {
                assert(cur@ =~= Seq::<char>::empty());
            }
        } else {
            cur.push(c);
        }
        i += 1;
    }
    proof {
        assert(text@.skip(i as int) =~= Seq::<char>::empty());
    }
    if cur.len() > 0 {
        let ghost r0 = r.deep_view();
        let ghost w = cur@;
        proof {
            lemma_char_vec_deep_view(cur);
        }
        r.push(cur);
        proof {
            assert(r.deep_view() =~= r0 + seq![w]);
        }
    } else {
        proof {
            assert(r.deep_view() + Seq::<Seq<char>>::empty() =~= r.deep_view());
        }
    }
    r
}

/// Packs the words of `text` greedily into chunks of at most `max`
/// characters each, words joined by single spaces and never split; a single
/// word longer than `max` stands alone in its own oversized chunk.
pub fn chunk_text(text: &[char], max: usize) -> (r: Vec<Vec<char>>)
    requires
        1 <= max,
    ensures
        r.deep_view() == chunks(text@, max as int),
{
    let ws = split_words(text);
    let mut r: Vec<Vec<char>> = Vec::new();
    let mut cur: Vec<char> = Vec::new();
    let mut i: usize = 0;
    proof {
        assert(ws.deep_view().skip(0) =~= ws.deep_view());
        assert(cur@ =~= Seq::<char>::empty());
    }
    while i < ws.len()
        invariant
            i <= ws@.len(),
            ws.deep_view() == words(text@),
            chunks(text@, max as int) == r.deep_view() + wrap_from(
                ws.deep_view().skip(i as int),
                cur@,
                max as int,
            ),
        decreases ws@.len() - i,
    {
        let ghost pre = ws.deep_view().skip(i as int);
        proof {
            lemma_char_vec_deep_view(ws@[i as int]);
            assert(pre[0] == ws.deep_view()[i as int]);
            assert(pre.skip(1) =~= ws.deep_view().skip(i as int + 1));
        }
        let w = &ws[i];
        if cur.len() == 0 {
            push_chars(&mut cur, w.as_slice());
            proof {
                assert(Seq::<char>::empty() + w@ =~= w@);
            }
        } else if cur.len() < max && w.len() <= max - cur.len() - 1 {
            let ghost c0 = cur@;
            cur.push(' ');
            push_chars(&mut cur, w.as_slice());
            proof {
                assert(c0.push(' ') + w@ =~= c0 + seq![' '] + w@);
            }
        } else {
            let ghost r0 = r.deep_view();
            let ghost c0 = cur@;
            proof {
                lemma_char_vec_deep_view(cur);
            }
            r.push(cur);
            cur = Vec::new();
            push_chars(&mut cur, w.as_slice());
            proof {
                assert(r.deep_view() =~= r0 + seq![c0]);
                assert(Seq::<char>::empty() + w@ =~= w@);
                assert(r0 + (seq![c0] + wrap_from(
                    ws.deep_view().skip(i as int + 1),
                    cur@,
                    max as int,
                )) =~= (r0 + seq![c0]) + wrap_from(
                    ws.deep_view().skip(i as int + 1),
                    cur@,
                    max as int,
                ));
            }
        }
        i += 1;
    }
    proof {
        assert(ws.deep_view().skip(i as int) =~= Seq::<Seq<char>>::empty());
    }
    if cur.len() > 0 {
        let ghost r0 = r.deep_view();
        let ghost c0 = cur@;
        proof {
            lemma_char_vec_deep_view(cur);
        }
        r.push(cur);
        proof {
            assert(r.deep_view() =~= r0 + seq![c0]);
        }
    } else {
        proof {
            assert(r.deep_view() + Seq::<Seq<char>>::empty() =~= r.deep_view());
        }
    }
    r
}

/// A well-formed word: nonempty and free of separator characters.
pub open spec fn word_ok(w: Seq<char>) -> bool {
    w.len() > 0 && forall|i: int| 0 <= i < w.len() ==> !is_space(w[i])
}

/// Every entry of `ws` is a well-formed word.
pub open spec fn words_ok(ws: Seq<Seq<char>>) -> bool {
    forall|k: int| 0 <= k < ws.len() ==> word_ok(#[trigger] ws[k])
}

/// A chunk respects the bound, except that a single word longer than the
/// bound stands alone (such a chunk contains no separator).
pub open spec fn chunk_within(c: Seq<char>, max: int) -> bool {
    c.len() <= max || (forall|i: int| 0 <= i < c.len() ==> !is_space(c[i]))
}

proof fn lemma_join_cons(c: Seq<char>, ws: Seq<Seq<char>>)
    ensures
        join_spaces(seq![c] + ws) == if ws.len() == 0 {
            c
        } else {
            c + seq![' '] + join_spaces(ws)
        },
{
    if ws.len() == 0 {
        assert(seq![c] + ws =~= seq![c]);
    } else {
        assert((seq![c] + ws)[0] == c);
        assert((seq![c] + ws).skip(1) =~= ws);
    }
}

proof fn lemma_join_words_len(s: Seq<char>, cur: Seq<char>)
    ensures
        join_spaces(words_from(s, cur)).len() <= cur.len() + s.len(),
    decreases s.len(),
{
    if s.len() == 0 {
    } else if is_space(s[0]) {
        lemma_join_words_len(s.skip(1), Seq::<char>::empty());
        if cur.len() > 0 {
            lemma_join_cons(cur, words_from(s.skip(1), Seq::<char>::empty()));
        }
    } else {
        lemma_join_words_len(s.skip(1), cur.push(s[0]));
    }
}

proof fn lemma_words_from_ok(s: Seq<char>, cur: Seq<char>)
    requires
        forall|i: int| 0 <= i < cur.len() ==> !is_space(cur[i]),
    ensures
        words_ok(words_from(s, cur)),
    decreases s.len(),
{
    if s.len() == 0 {
    } else if is_space(s[0]) {
        lemma_words_from_ok(s.skip(1), Seq::<char>::empty());
        if cur.len() > 0 {
            let rest = words_from(s.skip(1), Seq::<char>::empty());
            assert forall|k: int| 0 <= k < (seq![cur] + rest).len() implies word_ok(
                #[trigger] (seq![cur] + rest)[k],
            ) by {
                if k > 0 {
                    assert((seq![cur] + rest)[k] == rest[k - 1]);
                }
            }
        }
    } else {
        assert(forall|i: int| 0 <= i < cur.push(s[0]).len() ==> !is_space(cur.push(s[0])[i]));
        lemma_words_from_ok(s.skip(1), cur.push(s[0]));
    }
}

/// The words of any text are nonempty and separator-free.
pub proof fn lemma_words_ok(s: Seq<char>)
    ensures
        words_ok(words(s)),
{
    lemma_words_from_ok(s, Seq::<char>::empty());
}

/// The normalization of a text never lengthens it.
pub proof fn lemma_normalized_len(s: Seq<char>)
    ensures
        normalized(s).len() <= s.len(),
{
    lemma_join_words_len(s, Seq::<char>::empty());
}

proof fn lemma_join_merge(cur: Seq<char>, w: Seq<char>, rest: Seq<Seq<char>>)
    ensures
        join_spaces(seq![cur + seq![' '] + w] + rest) == join_spaces(
            seq![cur] + (seq![w] + rest),
        ),
{
    lemma_join_cons(cur + seq![' '] + w, rest);
    lemma_join_cons(cur, seq![w] + rest);
    lemma_join_cons(w, rest);
    assert((seq![w] + rest)[0] == w);
    if rest.len() == 0 {
        assert(seq![w] + rest =~= seq![w]);
    } else {
        assert(cur + seq![' '] + w + seq![' '] + join_spaces(rest) =~= cur + seq![' '] + (w
            + seq![' '] + join_spaces(rest)));
    }
}

proof fn lemma_wrap_single(ws: Seq<Seq<char>>, cur: Seq<char>, max: int)
    requires
        cur.len() > 0,
        join_spaces(seq![cur] + ws).len() <= max,
    ensures
        wrap_from(ws, cur, max) == seq![join_spaces(seq![cur] + ws)],
    decreases ws.len(),
{
    lemma_join_cons(cur, ws);
    if ws.len() == 0 {
    } else {
        lemma_join_cons(ws[0], ws.skip(1));
        assert(seq![ws[0]] + ws.skip(1) =~= ws);
        let cur2 = cur + seq![' '] + ws[0];
        lemma_join_merge(cur, ws[0], ws.skip(1));
        assert(seq![cur] + (seq![ws[0]] + ws.skip(1)) =~= seq![cur] + ws);
        lemma_wrap_single(ws.skip(1), cur2, max);
    }
}

proof fn lemma_wrap_nonempty(ws: Seq<Seq<char>>, cur: Seq<char>, max: int)
    requires
        cur.len() > 0,
    ensures
        wrap_from(ws, cur, max).len() >= 1,
    decreases ws.len(),
{
    if ws.len() == 0 {
    } else if cur.len() + 1 + ws[0].len() <= max {
        lemma_wrap_nonempty(ws.skip(1), cur + seq![' '] + ws[0], max);
    }
}

proof fn lemma_wrap_join(ws: Seq<Seq<char>>, cur: Seq<char>, max: int)
    requires
        cur.len() > 0,
        words_ok(ws),
    ensures
        join_spaces(wrap_from(ws, cur, max)) == join_spaces(seq![cur] + ws),
    decreases ws.len(),
{
    if ws.len() == 0 {
        assert(seq![cur] + ws =~= seq![cur]);
    } else {
        assert(word_ok(ws[0]));
        assert(words_ok(ws.skip(1))) by {
            assert(forall|k: int|
                0 <= k < ws.skip(1).len() ==> #[trigger] ws.skip(1)[k] == ws[k + 1]);
        }
        assert(seq![ws[0]] + ws.skip(1) =~= ws);
        if cur.len() + 1 + ws[0].len() <= max {
            let cur2 = cur + seq![' '] + ws[0];
            lemma_wrap_join(ws.skip(1), cur2, max);
            lemma_join_merge(cur, ws[0], ws.skip(1));
            assert(seq![cur] + (seq![ws[0]] + ws.skip(1)) =~= seq![cur] + ws);
        } else {
            let tail = wrap_from(ws.skip(1), ws[0], max);
            lemma_wrap_join(ws.skip(1), ws[0], max);
            lemma_wrap_nonempty(ws.skip(1), ws[0], max);
            lemma_join_cons(cur, tail);
            lemma_join_cons(cur, ws);
            lemma_join_cons(ws[0], ws.skip(1));
        }
    }
}

proof fn lemma_wrap_within(ws: Seq<Seq<char>>, cur: Seq<char>, max: int)
    requires
        words_ok(ws),
        cur.len() == 0 || cur.len() <= max || (forall|i: int|
            0 <= i < cur.len() ==> !is_space(cur[i])),
    ensures
        forall|k: int|
            0 <= k < wrap_from(ws, cur, max).len() ==> (#[trigger] wrap_from(ws, cur, max)[k]).len()
                >= 1 && chunk_within(wrap_from(ws, cur, max)[k], max),
    decreases ws.len(),
{
    if ws.len() == 0 {
        if cur.len() > 0 {
            assert(wrap_from(ws, cur, max) =~= seq![cur]);
            assert(chunk_within(cur, max));
        }
    } else {
        assert(word_ok(ws[0]));
        assert(words_ok(ws.skip(1))) by {
            assert(forall|k: int|
                0 <= k < ws.skip(1).len() ==> #[trigger] ws.skip(1)[k] == ws[k + 1]);
        }
        if cur.len() == 0 {
            lemma_wrap_within(ws.skip(1), ws[0], max);
            assert(wrap_from(ws, cur, max) == wrap_from(ws.skip(1), ws[0], max));
        } else if cur.len() + 1 + ws[0].len() <= max {
            lemma_wrap_within(ws.skip(1), cur + seq![' '] + ws[0], max);
            assert(wrap_from(ws, cur, max) == wrap_from(ws.skip(1), cur + seq![' '] + ws[0], max));
        } else {
            lemma_wrap_within(ws.skip(1), ws[0], max);
            let tail = wrap_from(ws.skip(1), ws[0], max);
            assert(wrap_from(ws, cur, max) == seq![cur] + tail);
            assert forall|k: int| 0 <= k < (seq![cur] + tail).len() implies (#[trigger] (seq![cur]
                + tail)[k]).len() >= 1 && chunk_within((seq![cur] + tail)[k], max) by {
                if k > 0 {
                    assert((seq![cur] + tail)[k] == tail[k - 1]);
                } else {
                    assert((seq![cur] + tail)[0] == cur);
                }
            }
        }
    }
}

proof fn lemma_wrap_oversized_from(ws: Seq<Seq<char>>, cur: Seq<char>, max: int)
    ensures
        forall|k: int|
            0 <= k < wrap_from(ws, cur, max).len() && (#[trigger] wrap_from(ws, cur, max)[k]).len()
                > max ==> wrap_from(ws, cur, max)[k] == cur || ws.contains(
                wrap_from(ws, cur, max)[k],
            ),
    decreases ws.len(),
{
    if ws.len() == 0 {
    } else if cur.len() == 0 {
        lemma_wrap_oversized_from(ws.skip(1), ws[0], max);
        assert(wrap_from(ws, cur, max) == wrap_from(ws.skip(1), ws[0], max));
        assert forall|k: int|
            0 <= k < wrap_from(ws, cur, max).len() && (#[trigger] wrap_from(ws, cur, max)[k]).len()
                > max implies wrap_from(ws, cur, max)[k] == cur || ws.contains(
            wrap_from(ws, cur, max)[k],
        ) by {
            let c = wrap_from(ws, cur, max)[k];
            if c == ws[0] {
                assert(ws.contains(c));
            } else if ws.skip(1).contains(c) {
                let j = choose|j: int| 0 <= j < ws.skip(1).len() && ws.skip(1)[j] == c;
                assert(ws[j + 1] == c);
                assert(ws.contains(c));
            }
        }
    } else if cur.len() + 1 + ws[0].len() <= max {
        let cur2 = cur + seq![' '] + ws[0];
        lemma_wrap_oversized_from(ws.skip(1), cur2, max);
        assert(wrap_from(ws, cur, max) == wrap_from(ws.skip(1), cur2, max));
        assert forall|k: int|
            0 <= k < wrap_from(ws, cur, max).len() && (#[trigger] wrap_from(ws, cur, max)[k]).len()
                > max implies wrap_from(ws, cur, max)[k] == cur || ws.contains(
            wrap_from(ws, cur, max)[k],
        ) by {
            let c = wrap_from(ws, cur, max)[k];
            if c == cur2 {
                assert(c.len() <= max);
            } else if ws.skip(1).contains(c) {
                let j = choose|j: int| 0 <= j < ws.skip(1).len() && ws.skip(1)[j] == c;
                assert(ws[j + 1] == c);
                assert(ws.contains(c));
            }
        }
    } else {
        lemma_wrap_oversized_from(ws.skip(1), ws[0], max);
        let tail = wrap_from(ws.skip(1), ws[0], max);
        assert(wrap_from(ws, cur, max) == seq![cur] + tail);
        assert forall|k: int|
            0 <= k < wrap_from(ws, cur, max).len() && (#[trigger] wrap_from(ws, cur, max)[k]).len()
                > max implies wrap_from(ws, cur, max)[k] == cur || ws.contains(
            wrap_from(ws, cur, max)[k],
        ) by {
            let c = wrap_from(ws, cur, max)[k];
            if k > 0 {
                assert(c == tail[k - 1]);
                if c == ws[0] {
                    assert(ws.contains(c));
                } else if ws.skip(1).contains(c) {
                    let j = choose|j: int| 0 <= j < ws.skip(1).len() && ws.skip(1)[j] == c;
                    assert(ws[j + 1] == c);
                    assert(ws.contains(c));
                }
            }
        }
    }
}

/// Law: a chunk longer than the maximum is always exactly one word of the
/// text — the accepted edge case for a single word that alone exceeds the
/// maximum; nothing else ever exceeds it.
pub proof fn lemma_oversized_chunk_is_word(s: Seq<char>, max: int)
    requires
        max >= 0,
    ensures
        forall|k: int|
            0 <= k < chunks(s, max).len() && (#[trigger] chunks(s, max)[k]).len() > max
                ==> words(s).contains(chunks(s, max)[k]),
{
    lemma_wrap_oversized_from(words(s), Seq::<char>::empty(), max);
}

/// Law: a text shorter than the chunk maximum that contains at least one
/// word is chunked into exactly one chunk, the text itself with its
/// whitespace runs collapsed to single spaces.
pub proof fn lemma_short_text_single_chunk(s: Seq<char>, max: int)
    requires
        s.len() < max,
        words(s).len() > 0,
    ensures
        chunks(s, max) == seq![normalized(s)],
        normalized(s).len() <= s.len(),
{
    let ws = words(s);
    lemma_words_ok(s);
    lemma_normalized_len(s);
    assert(seq![ws[0]] + ws.skip(1) =~= ws);
    lemma_wrap_single(ws.skip(1), ws[0], max);
}

/// Law: joining the chunks of any text with single spaces reproduces the
/// whitespace-normalized text, and every chunk is nonempty and within the
/// maximum length unless it is a single oversized word (and then it
/// contains no separator at all).
pub proof fn lemma_chunks_cover_text(s: Seq<char>, max: int)
    ensures
        join_spaces(chunks(s, max)) == normalized(s),
        forall|k: int|
            0 <= k < chunks(s, max).len() ==> (#[trigger] chunks(s, max)[k]).len() >= 1
                && chunk_within(chunks(s, max)[k], max),
{
    let ws = words(s);
    lemma_words_ok(s);
    lemma_wrap_within(ws, Seq::<char>::empty(), max);
    if ws.len() == 0 {
    } else {
        assert(word_ok(ws[0]));
        assert(words_ok(ws.skip(1))) by {
            assert(forall|k: int|
                0 <= k < ws.skip(1).len() ==> #[trigger] ws.skip(1)[k] == ws[k + 1]);
        }
        lemma_wrap_join(ws.skip(1), ws[0], max);
        assert(seq![ws[0]] + ws.skip(1) =~= ws);
    }
}

} // verus!
