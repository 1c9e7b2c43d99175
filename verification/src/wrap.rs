//! Word-boundary line wrapping of a topic string.
//!
//! A topic longer than the character limit is tokenized by the jieba
//! word segmenter and its tokens are packed greedily into lines, so a
//! line never breaks inside a segmented word.

use vstd::prelude::*;
use crate::split::TitleResult;
use crate::text::concat_all;
use crate::text::views_of;
use crate::text::lemma_views_push;

verus! {

#[verifier::external_type_specification]
#[verifier::external_body]
pub struct ExJieba(jieba_rs::Jieba);

/// Greedy packing of the remaining tokens `ws` into lines, with `cur` the
/// line accumulated so far: a token joins the current line while the line
/// stays under `max` characters, otherwise the line is closed and the
/// token starts the next one; a leftover non-empty line is kept.
pub open spec fn greedy_lines(ws: Seq<Seq<char>>, cur: Seq<char>, max: int) -> Seq<Seq<char>>
    decreases ws.len(),
{
    if ws.len() == 0 {
        if cur.len() > 0 {
            seq![cur]
        } else {
            Seq::empty()
        }
    } else if cur.len() + ws[0].len() < max {
        greedy_lines(ws.drop_first(), cur + ws[0], max)
    } else {
        seq![cur] + greedy_lines(ws.drop_first(), ws[0], max)
    }
}

/// The concatenation of a one-part head and a rest.
proof fn lemma_concat_all_head(x: Seq<char>, rest: Seq<Seq<char>>)
    ensures
        concat_all(seq![x] + rest) == x + concat_all(rest),
{
    assert((seq![x] + rest)[0] == x);
    assert((seq![x] + rest).drop_first() =~= rest);
}

/// The wrapping loses no character: the packed lines concatenate back to
/// the accumulated line followed by all the tokens, in order.
pub proof fn lemma_wrap_preserves_chars(ws: Seq<Seq<char>>, cur: Seq<char>, max: int)
    ensures
        concat_all(greedy_lines(ws, cur, max)) == cur + concat_all(ws),
    decreases ws.len(),
{
    if ws.len() == 0 {
        assert(concat_all(Seq::<Seq<char>>::empty()) == Seq::<char>::empty());
        if cur.len() > 0 {
            assert(seq![cur].drop_first() =~= Seq::<Seq<char>>::empty());
            assert(concat_all(seq![cur]) == cur + Seq::<char>::empty());
        }
        assert(cur + concat_all(ws) =~= cur + Seq::<char>::empty());
        assert(concat_all(greedy_lines(ws, cur, max)) =~= cur + concat_all(ws));
    } else if cur.len() + ws[0].len() < max {
        lemma_wrap_preserves_chars(ws.drop_first(), cur + ws[0], max);
        assert((cur + ws[0]) + concat_all(ws.drop_first()) =~= cur + concat_all(ws));
    } else {
        lemma_wrap_preserves_chars(ws.drop_first(), ws[0], max);
        lemma_concat_all_head(cur, greedy_lines(ws.drop_first(), ws[0], max));
        assert(cur + (ws[0] + concat_all(ws.drop_first())) =~= cur + concat_all(ws));
    }
}

/// Every packed line is under the limit, or is the accumulated line, or is
/// a single token standing alone.
proof fn lemma_greedy_line_sources(ws: Seq<Seq<char>>, cur: Seq<char>, max: int)
    ensures
        forall|k: int|
            0 <= k < greedy_lines(ws, cur, max).len() ==> {
                let line = #[trigger] greedy_lines(ws, cur, max)[k];
                ||| line.len() < max
                ||| line == cur
                ||| exists|i: int| 0 <= i < ws.len() && line == ws[i]
            },
    decreases ws.len(),
{
    if ws.len() == 0 {
    } else if cur.len() + ws[0].len() < max {
        lemma_greedy_line_sources(ws.drop_first(), cur + ws[0], max);
        assert forall|k: int| 0 <= k < greedy_lines(ws, cur, max).len() implies {
            let line = #[trigger] greedy_lines(ws, cur, max)[k];
            ||| line.len() < max
            ||| line == cur
            ||| exists|i: int| 0 <= i < ws.len() && line == ws[i]
        } by {
            let line = greedy_lines(ws, cur, max)[k];
            assert(line == greedy_lines(ws.drop_first(), cur + ws[0], max)[k]);
            if line == cur + ws[0] {
                assert(line.len() < max);
            } else if exists|i: int| 0 <= i < ws.drop_first().len() && line == ws.drop_first()[i] {
                let i = choose|i: int| 0 <= i < ws.drop_first().len() && line == ws.drop_first()[i];
                assert(ws.drop_first()[i] == ws[i + 1]);
            }
        }
    } else {
        lemma_greedy_line_sources(ws.drop_first(), ws[0], max);
        assert forall|k: int| 0 <= k < greedy_lines(ws, cur, max).len() implies {
            let line = #[trigger] greedy_lines(ws, cur, max)[k];
            ||| line.len() < max
            ||| line == cur
            ||| exists|i: int| 0 <= i < ws.len() && line == ws[i]
        } by {
            let rest = greedy_lines(ws.drop_first(), ws[0], max);
            let line = greedy_lines(ws, cur, max)[k];
            if k == 0 {
                assert((seq![cur] + rest)[0] == cur);
            } else {
                assert(line == rest[k - 1]);
                if line == ws[0] {
                    assert(0 <= 0 < ws.len() && line == ws[0]);
                } else if exists|i: int|
                    0 <= i < ws.drop_first().len() && line == ws.drop_first()[i] {
                    let i = choose|i: int|
                        0 <= i < ws.drop_first().len() && line == ws.drop_first()[i];
                    assert(ws.drop_first()[i] == ws[i + 1]);
                }
            }
        }
    }
}

/// Every line of a wrapped topic stays under the character limit, except
/// a single token whose own length reaches the limit, which stands alone
/// unsplit.
pub proof fn lemma_wrap_line_fits(ws: Seq<Seq<char>>, max: int)
    requires
        max >= 1,
    ensures
        forall|k: int|
            0 <= k < greedy_lines(ws, Seq::empty(), max).len() ==> {
                let line = #[trigger] greedy_lines(ws, Seq::empty(), max)[k];
                ||| line.len() < max
                ||| exists|i: int| 0 <= i < ws.len() && line == ws[i]
            },
{
    lemma_greedy_line_sources(ws, Seq::empty(), max);
}

/// Relies on `jieba_rs::Jieba::cut`: the returned tokens are consecutive
/// pieces of the input, so their words, concatenated in order, rebuild
/// the input exactly.
#[verifier::external_body]
fn cut_words(jieba: &jieba_rs::Jieba, text: &str) -> (words: Vec<String>)
    ensures
        concat_all(views_of(words@)) == text@,
{
    jieba.cut(text, true).into_iter().map(|t| t.word.to_owned()).collect()
}

/// Pack whole tokens greedily into lines of fewer than `max_chars`
/// characters; a token that does not fit closes the current line and
/// starts the next one, and the leftover line is kept if non-empty.
pub fn pack_tokens(words: &Vec<String>, max_chars: usize) -> (lines: Vec<String>)
    ensures
        views_of(lines@) == greedy_lines(views_of(words@), Seq::empty(), max_chars as int),
{
    let ghost ws = views_of(words@);
    let ghost max = max_chars as int;
    let mut lines: Vec<String> = Vec::new();
    let mut current = String::new();
    let mut i: usize = 0;
    proof {
        assert(ws.skip(0) =~= ws);
        assert(views_of(lines@) + greedy_lines(ws, current@, max) =~= greedy_lines(ws, Seq::empty(), max));
    }
    while i < words.len()
        invariant
            i <= words@.len(),
            ws == views_of(words@),
            max == max_chars as int,
            greedy_lines(ws, Seq::empty(), max)
                == views_of(lines@) + greedy_lines(ws.skip(i as int), current@, max),
        decreases words@.len() - i,
    {
        let w = &words[i];
        let wlen = w.as_str().unicode_len();
        let clen = current.as_str().unicode_len();
        proof {
            assert(ws.skip(i as int)[0] == ws[i as int]);
            assert(ws[i as int] == words@[i as int]@);
            assert(ws.skip(i as int).drop_first() =~= ws.skip(i as int + 1));
        }
        if wlen < max_chars && clen < max_chars - wlen {
            current.append(w.as_str());
        } else {
            let ghost closed = current@;
            let ghost prev = lines@;
            lines.push(current);
            current = w.clone();
            proof {
                assert(clen + wlen >= max_chars);
                assert(lines@ =~= prev.push(prev.push(lines@.last()).last()));
                lemma_views_push(prev, lines@.last());
                assert(views_of(lines@) =~= views_of(prev).push(closed));
                assert(views_of(prev).push(closed)
                    + greedy_lines(ws.skip(i as int + 1), ws[i as int], max)
                    =~= views_of(prev)
                    + (seq![closed] + greedy_lines(ws.skip(i as int + 1), ws[i as int], max)));
            }
        }
        i += 1;
    }
    proof {
        assert(ws.skip(words@.len() as int) =~= Seq::<Seq<char>>::empty());
    }
    if !current.as_str().is_empty() {
        let ghost tail = current@;
        let ghost prev = lines@;
        lines.push(current);
        proof {
            lemma_views_push(prev, lines@.last());
            assert(lines@ =~= prev.push(lines@.last()));
            assert(views_of(lines@) =~= views_of(prev).push(tail));
            assert(views_of(prev).push(tail) =~= views_of(prev) + seq![tail]);
        }
    } else {
        proof {
            assert(views_of(lines@) + Seq::<Seq<char>>::empty() =~= views_of(lines@));
        }
    }
    lines
}

impl TitleResult {
    /// Wrap the topic into display lines if it is longer than `max_chars`
    /// characters, cutting it at word boundaries found by jieba; a shorter
    /// topic, or a result with no topic, is returned unchanged.
    pub fn wrap_topic(self, jieba: jieba_rs::Jieba, max_chars: usize) -> (r: TitleResult)
        ensures
            r.origin == self.origin,
            r.tags == self.tags,
            self.topic@.len() == 0 ==> r == self,
            self.topic@.len() > 0 && self.topic@[0]@.len() <= max_chars ==> r == self,
            self.topic@.len() > 0 && self.topic@[0]@.len() > max_chars ==> {
                &&& concat_all(views_of(r.topic@)) == self.topic@[0]@
                &&& exists|ws: Seq<Seq<char>>|
                    concat_all(ws) == self.topic@[0]@
                    && views_of(r.topic@) == greedy_lines(ws, Seq::empty(), max_chars as int)
            },
    {
        if self.topic.len() == 0 {
            return self;
        }
        let tlen = self.topic[0].as_str().unicode_len();
        if tlen <= max_chars {
            return self;
        }
        let words = cut_words(&jieba, self.topic[0].as_str());
        let lines = pack_tokens(&words, max_chars);
        proof {
            lemma_wrap_preserves_chars(views_of(words@), Seq::empty(), max_chars as int);
            assert(Seq::<char>::empty() + concat_all(views_of(words@))
                =~= concat_all(views_of(words@)));
            assert(concat_all(views_of(lines@)) == self.topic@[0]@);
            assert(concat_all(views_of(words@)) == self.topic@[0]@
                && views_of(lines@) == greedy_lines(views_of(words@), Seq::empty(), max_chars as int));
        }
        TitleResult { origin: self.origin, tags: self.tags, topic: lines }
    }
}

} // verus!
