//! Decomposition of a raw title into bracketed tags and a topic.
//!
//! A title such as `【tag】topic text` is cut into sections at each
//! fullwidth closing bracket; every section but the last becomes a tag
//! (delimiters stripped), and the last section is the topic.

use vstd::prelude::*;
use crate::text::concat_all;
use crate::text::lemma_concat_all_push;
use crate::text::views_of;
use crate::text::push_char;
use crate::text::lemma_views_push;

verus! {

/// The fullwidth opening bracket that starts a tag section.
pub const OPEN_BRACKET: char = '\u{3010}';

/// The fullwidth closing bracket that ends a tag section.
pub const CLOSE_BRACKET: char = '\u{3011}';

/// Namespace for title decomposition.
pub struct Title;

/// A decomposed title: its original text, the category tags from the
/// bracketed sections, and the final section as the topic.
#[derive(Debug)]
pub struct TitleResult {
    /// Full title string, preserved verbatim.
    pub origin: String,
    /// Tags from the bracketed sections, delimiters stripped, in order.
    pub tags: Vec<String>,
    /// The topic: at most one string here until wrapping splits it.
    pub topic: Vec<String>,
}

/// Normalization of one character: ASCII brackets become fullwidth.
pub open spec fn norm_char(c: char) -> char {
    if c == '[' {
        OPEN_BRACKET
    } else if c == ']' {
        CLOSE_BRACKET
    } else {
        c
    }
}

/// Normalization of a whole title.
pub open spec fn normalize(s: Seq<char>) -> Seq<char> {
    s.map_values(|c: char| norm_char(c))
}

/// The sectioning scan over the remaining characters `s`, with `cur` the
/// section accumulated so far: a closing bracket ends a section (and is
/// kept at its end); leftover characters form a final section.
pub open spec fn scan_sections(s: Seq<char>, cur: Seq<char>) -> Seq<Seq<char>>
    decreases s.len(),
{
    if s.len() == 0 {
        if cur.len() > 0 {
            seq![cur]
        } else {
            Seq::empty()
        }
    } else if s[0] == CLOSE_BRACKET {
        seq![cur.push(s[0])] + scan_sections(s.drop_first(), Seq::empty())
    } else {
        scan_sections(s.drop_first(), cur.push(s[0]))
    }
}

/// The sections of a normalized title.
pub open spec fn sections(s: Seq<char>) -> Seq<Seq<char>> {
    scan_sections(s, Seq::empty())
}

/// Dropping every leading fullwidth opening bracket.
pub open spec fn strip_open(s: Seq<char>) -> Seq<char>
    decreases s.len(),
{
    if s.len() > 0 && s[0] == OPEN_BRACKET {
        strip_open(s.drop_first())
    } else {
        s
    }
}

/// Dropping every trailing fullwidth closing bracket.
pub open spec fn strip_close(s: Seq<char>) -> Seq<char>
    decreases s.len(),
{
    if s.len() > 0 && s[s.len() - 1] == CLOSE_BRACKET {
        strip_close(s.drop_last())
    } else {
        s
    }
}

/// Dropping the bracket delimiters on both sides of a section.
pub open spec fn strip_brackets(s: Seq<char>) -> Seq<char> {
    strip_close(strip_open(s))
}

/// The bracket stripping applied to every section of a sequence.
pub open spec fn strip_all(ts: Seq<Seq<char>>) -> Seq<Seq<char>> {
    ts.map_values(|t: Seq<char>| strip_brackets(t))
}

/// Wrapping a tag back into its fullwidth bracket delimiters.
pub open spec fn rewrap(t: Seq<char>) -> Seq<char> {
    seq![OPEN_BRACKET] + t + seq![CLOSE_BRACKET]
}

/// The rewrapping applied to every tag of a sequence.
pub open spec fn rewrap_all(ts: Seq<Seq<char>>) -> Seq<Seq<char>> {
    ts.map_values(|t: Seq<char>| rewrap(t))
}

/// A well-formed tag section: exactly one opening bracket at the start,
/// exactly one closing bracket at the end, no bracket in between.
pub open spec fn wf_tag(t: Seq<char>) -> bool {
    &&& t.len() >= 2
    &&& t[0] == OPEN_BRACKET
    &&& t[t.len() - 1] == CLOSE_BRACKET
    &&& forall|j: int| 1 <= j < t.len() - 1 ==> t[j] != OPEN_BRACKET && t[j] != CLOSE_BRACKET
}

/// A well-bracketed normalized title: every section but the last is a
/// well-formed tag.
pub open spec fn well_bracketed(s: Seq<char>) -> bool {
    forall|i: int| 0 <= i < sections(s).len() - 1 ==> wf_tag(#[trigger] sections(s)[i])
}

/// Stripping a well-formed tag and wrapping it again gives the tag back.
proof fn lemma_rewrap_strip(t: Seq<char>)
    requires
        wf_tag(t),
    ensures
        rewrap(strip_brackets(t)) == t,
{
    let mid = t.subrange(1, t.len() - 1);
    assert(t.drop_first() =~= mid.push(t[t.len() - 1]));
    if mid.len() > 0 {
        assert(t.drop_first()[0] == t[1]);
        assert(t[1] != OPEN_BRACKET);
    }
    assert(strip_open(t.drop_first()) == t.drop_first());
    assert(strip_open(t) == t.drop_first());
    assert(t.drop_first().drop_last() =~= mid);
    if mid.len() > 0 {
        assert(mid[mid.len() - 1] == t[t.len() - 2]);
        assert(t[t.len() - 2] != CLOSE_BRACKET);
    }
    assert(strip_close(mid) == mid);
    assert(strip_close(t.drop_first()) == mid);
    assert(rewrap(mid) =~= t);
}

/// The title decomposition loses nothing: for a well-bracketed title,
/// wrapping each returned tag back into fullwidth brackets, in order, and
/// appending the topic reproduces the normalized title exactly.
pub proof fn lemma_decompose_reconstructs(title: Seq<char>)
    requires
        well_bracketed(normalize(title)),
        sections(normalize(title)).len() > 0,
    ensures
        concat_all(rewrap_all(strip_all(sections(normalize(title)).drop_last())))
            + sections(normalize(title)).last() == normalize(title),
{
    let s = normalize(title);
    let secs = sections(s);
    let dl = secs.drop_last();
    assert forall|i: int| 0 <= i < dl.len() implies rewrap_all(strip_all(dl))[i] == dl[i] by {
        assert(strip_all(dl)[i] == strip_brackets(dl[i]));
        assert(dl[i] == secs[i]);
        lemma_rewrap_strip(dl[i]);
    }
    assert(rewrap_all(strip_all(dl)) =~= dl);
    lemma_concat_all_push(dl, secs.last());
    assert(dl.push(secs.last()) =~= secs);
    lemma_sections_concat(s);
}

/// Stripping brackets over a sequence extended on the right.
proof fn lemma_strip_all_push(ts: Seq<Seq<char>>, t: Seq<char>)
    ensures
        strip_all(ts.push(t)) == strip_all(ts).push(strip_brackets(t)),
{
    assert(strip_all(ts.push(t)) =~= strip_all(ts).push(strip_brackets(t)));
}

/// The sections of a scan concatenate back to the scanned characters,
/// prefixed by the accumulated section.
proof fn lemma_scan_concat(s: Seq<char>, cur: Seq<char>)
    ensures
        concat_all(scan_sections(s, cur)) == cur + s,
    decreases s.len(),
{
    if s.len() == 0 {
        assert(concat_all(Seq::<Seq<char>>::empty()) == Seq::<char>::empty());
        if cur.len() > 0 {
            assert(seq![cur].drop_first() =~= Seq::<Seq<char>>::empty());
            assert(concat_all(scan_sections(s, cur)) == cur + Seq::<char>::empty());
        }
        assert(cur + s =~= cur + Seq::<char>::empty());
        assert(concat_all(scan_sections(s, cur)) =~= cur + s);
    } else if s[0] == CLOSE_BRACKET {
        lemma_scan_concat(s.drop_first(), Seq::empty());
        let rest = scan_sections(s.drop_first(), Seq::empty());
        assert((seq![cur.push(s[0])] + rest).drop_first() =~= rest);
        assert(concat_all(seq![cur.push(s[0])] + rest) == cur.push(s[0]) + concat_all(rest));
        assert(cur.push(s[0]) + (Seq::<char>::empty() + s.drop_first()) =~= cur + s);
    } else {
        lemma_scan_concat(s.drop_first(), cur.push(s[0]));
        assert(cur.push(s[0]) + s.drop_first() =~= cur + s);
    }
}

/// The sections of a title concatenate back to the title.
pub proof fn lemma_sections_concat(s: Seq<char>)
    ensures
        concat_all(sections(s)) == s,
{
    lemma_scan_concat(s, Seq::empty());
    assert(Seq::<char>::empty() + s =~= s);
}

impl Title {
    /// Normalize one character: ASCII brackets become fullwidth.
    fn normalize_char(c: char) -> (r: char)
        ensures
            r == norm_char(c),
    {
        if c == '[' {
            OPEN_BRACKET
        } else if c == ']' {
            CLOSE_BRACKET
        } else {
            c
        }
    }

    /// Cut the normalized title into sections: each fullwidth closing
    /// bracket ends a section (and is kept at its end), and any leftover
    /// characters after the last closing bracket form a final section.
    pub fn split(title: &str) -> (r: Vec<String>)
        ensures
            views_of(r@) == sections(normalize(title@)),
    {
        let ghost s = normalize(title@);
        let n = title.unicode_len();
        let mut i: usize = 0;
        let mut current = String::new();
        let mut result: Vec<String> = Vec::new();
        proof {
            assert(s.skip(0) =~= s);
            assert(views_of(result@) + scan_sections(s, current@) =~= scan_sections(s, Seq::empty()));
        }
        while i < n
            invariant
                i <= n,
                n == title@.len(),
                s == normalize(title@),
                s.len() == n,
                sections(s) == views_of(result@) + scan_sections(s.skip(i as int), current@),
            decreases n - i,
        {
            let c = Self::normalize_char(title.get_char(i));
            proof {
                assert(s[i as int] == norm_char(title@[i as int]));
                assert(s.skip(i as int)[0] == s[i as int]);
                assert(s.skip(i as int).drop_first() =~= s.skip(i as int + 1));
            }
            push_char(&mut current, c);
            if c == CLOSE_BRACKET {
                let ghost closed = current@;
                result.push(current);
                current = String::new();
                proof {
                    lemma_views_push(result@.drop_last(), result@.last());
                    assert(result@.drop_last().push(result@.last()) =~= result@);
                    assert(views_of(result@) =~= views_of(result@.drop_last()).push(closed));
                    assert(views_of(result@.drop_last()).push(closed)
                        + scan_sections(s.skip(i as int + 1), Seq::empty())
                        =~= views_of(result@.drop_last())
                        + (seq![closed] + scan_sections(s.skip(i as int + 1), Seq::empty())));
                }
            }
            i += 1;
        }
        proof {
            assert(s.skip(n as int) =~= Seq::<char>::empty());
        }
        if !current.as_str().is_empty() {
            let ghost tail = current@;
            result.push(current);
            proof {
                lemma_views_push(result@.drop_last(), result@.last());
                assert(result@.drop_last().push(result@.last()) =~= result@);
                assert(views_of(result@) =~= views_of(result@.drop_last()).push(tail));
                assert(views_of(result@.drop_last()).push(tail)
                    =~= views_of(result@.drop_last()) + seq![tail]);
            }
        } else {
            proof {
                assert(views_of(result@) + Seq::<Seq<char>>::empty() =~= views_of(result@));
            }
        }
        result
    }

    /// Remove the fullwidth brackets on the sides of a section.
    pub fn remove_parentheses(s: &String) -> (r: String)
        ensures
            r@ == strip_brackets(s@),
    {
        let n = s.as_str().unicode_len();
        let mut start: usize = 0;
        while start < n && s.as_str().get_char(start) == OPEN_BRACKET
            invariant
                start <= n,
                n == s@.len(),
                forall|j: int| 0 <= j < start ==> s@[j] == OPEN_BRACKET,
            decreases n - start,
        {
            start += 1;
        }
        let mut end: usize = n;
        while end > start && s.as_str().get_char(end - 1) == CLOSE_BRACKET
            invariant
                start <= end <= n,
                n == s@.len(),
                forall|j: int| end <= j < n ==> s@[j] == CLOSE_BRACKET,
            decreases end,
        {
            end -= 1;
        }
        proof {
            lemma_strip_open_run(s@, start as int);
            lemma_strip_close_run(s@.skip(start as int), end - start as int);
            assert(s@.skip(start as int).take(end - start as int)
                =~= s@.subrange(start as int, end as int));
        }
        s.as_str().substring_char(start, end).to_owned()
    }

    /// Read tags and topic from the title: all sections but the last become
    /// tags with their brackets stripped, and the last section is the topic.
    pub fn read(title: &str) -> (r: TitleResult)
        ensures
            r.origin@ == title@,
            sections(normalize(title@)).len() == 0 ==> r.tags@.len() == 0 && r.topic@.len() == 0,
            sections(normalize(title@)).len() > 0 ==> {
                &&& views_of(r.topic@) == seq![sections(normalize(title@)).last()]
                &&& views_of(r.tags@) == strip_all(sections(normalize(title@)).drop_last())
            },
    {
        let ghost secs = sections(normalize(title@));
        let mut sects = Self::split(title);
        if sects.is_empty() {
            TitleResult { origin: title.to_owned(), tags: Vec::new(), topic: Vec::new() }
        } else {
            let topic_str = sects.pop().unwrap();
            proof {
                assert(views_of(sects@) =~= secs.drop_last());
                assert(topic_str@ == secs.last());
            }
            let mut tags: Vec<String> = Vec::new();
            let mut i: usize = 0;
            while i < sects.len()
                invariant
                    i <= sects@.len(),
                    secs.len() > 0,
                    views_of(sects@) == secs.drop_last(),
                    views_of(tags@) == strip_all(secs.drop_last().take(i as int)),
                decreases sects@.len() - i,
            {
                let ghost dl = secs.drop_last();
                let ghost prev = tags@;
                let tag = Self::remove_parentheses(&sects[i]);
                tags.push(tag);
                proof {
                    assert(tags@ =~= prev.push(tag));
                    lemma_views_push(prev, tag);
                    assert(tag@ == strip_brackets(dl[i as int]));
                    assert(dl.take(i as int + 1) =~= dl.take(i as int).push(dl[i as int]));
                    lemma_strip_all_push(dl.take(i as int), dl[i as int]);
                    assert(views_of(tags@) == strip_all(dl.take(i as int + 1)));
                }
                i += 1;
            }
            proof {
                assert(secs.drop_last().take(sects@.len() as int) =~= secs.drop_last());
            }
            let topic = vec![topic_str];
            proof {
                assert(views_of(topic@) =~= seq![secs.last()]);
            }
            TitleResult { origin: title.to_owned(), tags, topic }
        }
    }
}

/// If the first `k` characters are opening brackets and the next one is
/// not, stripping the leading brackets skips exactly those `k`.
proof fn lemma_strip_open_run(s: Seq<char>, k: int)
    requires
        0 <= k <= s.len(),
        forall|j: int| 0 <= j < k ==> s[j] == OPEN_BRACKET,
        k == s.len() || s[k] != OPEN_BRACKET,
    ensures
        strip_open(s) == s.skip(k),
    decreases k,
{
    if k == 0 {
        assert(s.skip(0) =~= s);
    } else {
        assert(s[0] == OPEN_BRACKET);
        lemma_strip_open_run(s.drop_first(), k - 1);
        assert(s.drop_first().skip(k - 1) =~= s.skip(k));
    }
}

/// If the characters from position `e` on are all closing brackets and the
/// one before is not, stripping the trailing brackets keeps exactly the
/// first `e`.
proof fn lemma_strip_close_run(s: Seq<char>, e: int)
    requires
        0 <= e <= s.len(),
        forall|j: int| e <= j < s.len() ==> s[j] == CLOSE_BRACKET,
        e == 0 || s[e - 1] != CLOSE_BRACKET,
    ensures
        strip_close(s) == s.take(e),
    decreases s.len() - e,
{
    if e == s.len() {
        if s.len() == 0 || s[s.len() - 1] != CLOSE_BRACKET {
            assert(s.take(e) =~= s);
        } else {
            assert(s[e - 1] == s[s.len() - 1]);
            assert(false);
        }
    } else {
        assert(s[s.len() - 1] == CLOSE_BRACKET);
        lemma_strip_close_run(s.drop_last(), e);
        assert(s.drop_last().take(e) =~= s.take(e));
    }
}

} // verus!
