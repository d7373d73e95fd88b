//! Poem search over the static corpus, and poem synthesis from the poem
//! text model: sentences are accumulated until a terminal mark, capped at
//! eight, and grouped into stanzas by a blank line every two or three
//! sentences.

use vstd::prelude::*;
use vstd::multiset::Multiset;
use crate::chain::{token_in_feeds, TextModel};
use crate::rng::Rng;
use crate::text::{join_spaced, join_tokens};
use vstd::string::StrSliceExecFns;

verus! {

/// The relevance score that the skim fuzzy matcher assigns to a choice for a
/// pattern.
pub uninterp spec fn fuzzy_score_of(choice: Seq<char>, pattern: Seq<char>) -> Option<i64>;

/// Relies on fuzzy_matcher::skim::SkimMatcherV2::fuzzy with the default
/// configuration: the score depends on the choice and pattern text alone.
#[verifier::external_body]
fn fuzzy_score(choice: &str, pattern: &str) -> (r: Option<i64>)
    ensures
        r == fuzzy_score_of(choice@, pattern@),
{
    fuzzy_matcher::skim::SkimMatcherV2::default().fuzzy(choice, pattern, false).map(|p| p.0)
}

/// The score of poem `j` for the keywords, where `Some` means a fuzzy match.
pub open spec fn match_score(poems: Seq<Seq<char>>, kw: Seq<char>, j: int) -> Option<i64> {
    fuzzy_score_of(poems[j], kw)
}

/// Poem `i` wins the search: it scores above 10, and every other scored poem
/// scores lower, or ties with a position no later than `i`.
pub open spec fn is_best_poem(poems: Seq<Seq<char>>, kw: Seq<char>, i: int) -> bool {
    &&& 0 <= i < poems.len()
    &&& match_score(poems, kw, i) matches Some(si) && si > 10
    &&& forall|j: int|
        0 <= j < poems.len() ==> match (#[trigger] match_score(poems, kw, j)) {
            Some(sj) => sj < match_score(poems, kw, i).unwrap() || (sj == match_score(
                poems,
                kw,
                i,
            ).unwrap() && j <= i),
            None => true,
        }
}

/// No poem scores above 10 for the keywords.
pub open spec fn no_poem_matches(poems: Seq<Seq<char>>, kw: Seq<char>) -> bool {
    forall|j: int|
        0 <= j < poems.len() ==> match (#[trigger] match_score(poems, kw, j)) {
            Some(sj) => sj <= 10,
            None => true,
        }
}

/// Finds the highest-scoring poem for the keywords, the latest position
/// winning ties; `None` when nothing scores above 10.
pub fn search_poems(poems: &Vec<String>, kw: &str) -> (r: Option<usize>)
    ensures
        r matches Some(i) ==> is_best_poem(poems.deep_view(), kw@, i as int),
        r is None ==> no_poem_matches(poems.deep_view(), kw@),
{
    let ghost ps = poems.deep_view();
    let mut best: Option<usize> = None;
    let mut best_score: i64 = 0;
    let mut j: usize = 0;
    while j < poems.len()
        invariant
            j <= poems@.len(),
            ps == poems.deep_view(),
            ps.len() == poems@.len(),
            best matches Some(i) ==> (i < j && (match_score(ps, kw@, i as int) matches Some(si)
                && si > 10 && si == best_score) && forall|q: int|
                0 <= q < j ==> match (#[trigger] match_score(ps, kw@, q)) {
                    Some(sq) => sq < best_score || (sq == best_score && q <= i),
                    None => true,
                }),
            best is None ==> forall|q: int|
                0 <= q < j ==> match (#[trigger] match_score(ps, kw@, q)) {
                    Some(sq) => sq <= 10,
                    None => true,
                },
        decreases poems@.len() - j,
    {
        proof {
            assert(ps[j as int] == poems@[j as int]@);
        }
        let sc = fuzzy_score(poems[j].as_str(), kw);
        match sc {
            Some(s) => {
                if s > 10 {
                    match best {
                        Some(_) => {
                            if s >= best_score {
                                best = Some(j);
                                best_score = s;
                            }
                        },
                        None => {
                            best = Some(j);
                            best_score = s;
                        },
                    }
                }
            },
            None => {},
        }
        j += 1;
    }
    best
}

/// A token that closes a sentence: it ends with `.`, `!` or `?`.
pub open spec fn is_sentence_end_tok(t: Seq<char>) -> bool {
    t.len() > 0 && (t.last() == '.' || t.last() == '!' || t.last() == '?')
}

/// Does this token close a sentence?
pub fn ends_sentence(t: &str) -> (r: bool)
    ensures
        r == is_sentence_end_tok(t@),
{
    let n = t.unicode_len();
    if n == 0 {
        return false;
    }
    let c = t.get_char(n - 1);
    c == '.' || c == '!' || c == '?'
}

/// The rendering of the sentences from position `i` on: each sentence is
/// space-joined with a trailing space, closed by a newline, and followed by
/// a blank line whenever its index is a multiple of the stanza step.
pub open spec fn render_poem_from(sents: Seq<Seq<Seq<char>>>, sep: int, i: int) -> Seq<char>
    decreases sents.len() - i when 0 <= i <= sents.len()
{
    if i >= sents.len() {
        Seq::empty()
    } else {
        join_spaced(sents[i]) + seq!['\n'] + (if i % sep == 0 {
            seq!['\n']
        } else {
            Seq::empty()
        }) + render_poem_from(sents, sep, i + 1)
    }
}

/// The sentence split of a token walk, mirroring the assembly: tokens
/// accumulate into the current sentence, a terminal token closes it, at
/// most eight sentences are taken, and a trailing unterminated sentence is
/// dropped.
pub open spec fn split_rec(
    walk: Seq<Seq<char>>,
    i: int,
    cur: Seq<Seq<char>>,
    done: Seq<Seq<Seq<char>>>,
) -> Seq<Seq<Seq<char>>>
    decreases walk.len() - i when 0 <= i <= walk.len()
{
    if i >= walk.len() || done.len() >= 8 {
        done
    } else {
        let cur2 = cur.push(walk[i]);
        if is_sentence_end_tok(walk[i]) {
            split_rec(walk, i + 1, Seq::empty(), done.push(cur2))
        } else {
            split_rec(walk, i + 1, cur2, done)
        }
    }
}

/// The sentences of a token walk.
pub open spec fn split_sentences(walk: Seq<Seq<char>>) -> Seq<Seq<Seq<char>>> {
    split_rec(walk, 0, Seq::empty(), Seq::empty())
}

/// A poem drawn from the model: either nothing was ever fed and the poem is
/// empty, or it is the rendering, with a stanza step of two or three, of the
/// sentence split of some non-empty walk of fed tokens.
pub open spec fn is_poem_text(feeds: Multiset<Seq<Seq<char>>>, t: Seq<char>) -> bool {
    ||| (feeds.len() == 0 && t == Seq::<char>::empty())
    ||| exists|walk: Seq<Seq<char>>, sep: int|
        {
            &&& 2 <= sep <= 3
            &&& walk.len() > 0
            &&& (forall|i: int| 0 <= i < walk.len() ==> token_in_feeds(feeds, #[trigger] walk[i]))
            &&& t == #[trigger] render_poem_from(split_sentences(walk), sep, 0)
        }
}

/// Synthesizes a poem from the poem model: generation starts at a randomly
/// chosen capitalized token (or an arbitrary one when none occurs), sentences
/// are cut at terminal punctuation, capped at eight, and grouped into stanzas.
pub fn generate_poem_from(m: &TextModel, rng: &mut Rng) -> (r: String)
    requires
        m.wf(),
    ensures
        is_poem_text(m.feeds(), r@),
{
    if m.is_empty() {
        let r = String::new();
        proof {
            assert(r@ =~= Seq::<char>::empty());
            assert(is_poem_text(m.feeds(), r@));
        }
        return r;
    }
    let some_tokens = m.generate();
    let mut cands: Vec<String> = Vec::new();
    let mut i: usize = 0;
    while i < some_tokens.len()
        invariant
            i <= some_tokens@.len(),
            forall|q: int|
                0 <= q < some_tokens@.len() ==> token_in_feeds(
                    m.feeds(),
                    #[trigger] some_tokens@[q]@,
                ),
            forall|q: int|
                0 <= q < cands@.len() ==> token_in_feeds(m.feeds(), #[trigger] cands@[q]@),
        decreases some_tokens@.len() - i,
    {
        let t = &some_tokens[i];
        let n = t.unicode_len();
        if n > 0 {
            let c = t.get_char(0) as u32;
            if 65 <= c && c <= 90 {
                let ghost prevc = cands@;
                cands.push(t.clone());
                proof {
                    assert(cands@ =~= prevc.push(some_tokens@[i as int]));
                }
            }
        }
        i += 1;
    }
    let start: String = if cands.len() > 0 {
        let k = rng.below(cands.len() as u64) as usize;
        proof {
            assert(token_in_feeds(m.feeds(), cands@[k as int]@));
        }
        cands[k].clone()
    } else {
        proof {
            assert(token_in_feeds(m.feeds(), some_tokens@[0]@));
        }
        some_tokens[0].clone()
    };
    let sep: u64 = 2 + rng.below(2);
    let toks = m.generate_from(&start);
    proof {
        assert forall|q: int| 0 <= q < toks@.len() implies token_in_feeds(
            m.feeds(),
            #[trigger] toks@[q]@,
        ) by {
            if toks@[q]@ == start@ {
                assert(token_in_feeds(m.feeds(), start@));
            }
        }
    }
    let mut sents: Vec<Vec<String>> = Vec::new();
    let mut cur: Vec<String> = Vec::new();
    proof {
        assert(cur.deep_view() =~= Seq::<Seq<char>>::empty());
        assert(sents.deep_view() =~= Seq::<Seq<Seq<char>>>::empty());
    }
    let mut j: usize = 0;
    while j < toks.len() && sents.len() < 8
        invariant
            j <= toks@.len(),
            sents.deep_view().len() == sents@.len() <= 8,
            forall|q: int|
                0 <= q < toks@.len() ==> token_in_feeds(m.feeds(), #[trigger] toks@[q]@),
            split_rec(toks.deep_view(), j as int, cur.deep_view(), sents.deep_view())
                == split_sentences(toks.deep_view()),
        decreases toks@.len() - j,
    {
        let t = toks[j].clone();
        let closes = ends_sentence(t.as_str());
        let ghost curd = cur.deep_view();
        let ghost sd0 = sents.deep_view();
        cur.push(t);
        proof {
            assert(toks.deep_view()[j as int] == toks@[j as int]@);
            assert(cur.deep_view() =~= curd.push(toks.deep_view()[j as int]));
        }
        if closes {
            let done = cur;
            cur = Vec::new();
            sents.push(done);
            proof {
                assert(sents.deep_view() =~= sd0.push(
                    sents@[sents@.len() - 1].deep_view(),
                ));
                assert(cur.deep_view() =~= Seq::<Seq<char>>::empty());
            }
        }
        j += 1;
        proof {
            assert(split_rec(toks.deep_view(), j as int, cur.deep_view(), sents.deep_view())
                == split_sentences(toks.deep_view()));
        }
    }
    proof {
        assert(split_rec(toks.deep_view(), j as int, cur.deep_view(), sents.deep_view())
            == sents.deep_view());
    }
    let mut out = String::new();
    let mut q: usize = 0;
    let ghost sd = sents.deep_view();
    let nsents = sents.len();
    while q < nsents
        invariant
            q <= nsents,
            nsents == sents@.len(),
            sd == sents.deep_view(),
            sd.len() == sents@.len(),
            2 <= sep <= 3,
            out@ + render_poem_from(sd, sep as int, q as int) == render_poem_from(
                sd,
                sep as int,
                0,
            ),
        decreases nsents - q,
    {
        let line = join_tokens(&sents[q]);
        out.append(line.as_str());
        crate::text::push_char(&mut out, '\n');
        if q % (sep as usize) == 0 {
            crate::text::push_char(&mut out, '\n');
        }
        proof {
            assert(sd[q as int] == sents@[q as int].deep_view());
            assert(render_poem_from(sd, sep as int, q as int) == join_spaced(sd[q as int])
                + seq!['\n'] + (if (q as int) % (sep as int) == 0 {
                seq!['\n']
            } else {
                Seq::<char>::empty()
            }) + render_poem_from(sd, sep as int, q + 1));
            assert(out@ + render_poem_from(sd, sep as int, q + 1) =~= render_poem_from(
                sd,
                sep as int,
                0,
            ));
        }
        q += 1;
    }
    proof {
        assert(out@ =~= render_poem_from(sd, sep as int, 0));
        assert(toks@.len() > 0);
        assert forall|i: int| 0 <= i < toks.deep_view().len() implies token_in_feeds(
            m.feeds(),
            #[trigger] toks.deep_view()[i],
        ) by {
            assert(toks.deep_view()[i] == toks@[i]@);
        }
        assert(sd == split_sentences(toks.deep_view()));
        assert(out@ == render_poem_from(split_sentences(toks.deep_view()), sep as int, 0));
        assert(is_poem_text(m.feeds(), out@));
    }
    out
}

} // verus!
