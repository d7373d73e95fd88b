//! The generative response model of one channel: a global text model fed by
//! all authors, per-author models, a probability gate, token perturbation,
//! and the reply-assembly pipeline.

use vstd::prelude::*;
use vstd::multiset::Multiset;
use vstd::multiset::group_multiset_axioms;
use crate::chain::{feeds_wf, token_in_feeds, TextModel};
use crate::rng::Rng;
use crate::strmap::StrMap;
use crate::text::{
    all_tokens_wf, chars_to_string, chars_vec, is_space_spec, join_spaced, join_tokens, str_eq,
    token_wf,
};

verus! {

broadcast use group_multiset_axioms;

/// A feeds multiset after one feed call: an empty token list is ignored.
pub open spec fn fed_feeds(f: Multiset<Seq<Seq<char>>>, toks: Seq<Seq<char>>) -> Multiset<
    Seq<Seq<char>>,
> {
    if toks.len() > 0 {
        f.insert(toks)
    } else {
        f
    }
}

/// A feed log after one feed call: an empty token list is ignored.
pub open spec fn fed_log(log: Seq<Seq<Seq<char>>>, toks: Seq<Seq<char>>) -> Seq<Seq<Seq<char>>> {
    if toks.len() > 0 {
        log.push(toks)
    } else {
        log
    }
}

/// The feeds of an author's model before a feed: empty if the author has no
/// model yet.
pub open spec fn prior_user_feeds(pu: Map<Seq<char>, TextModel>, a: Seq<char>) -> Multiset<
    Seq<Seq<char>>,
> {
    if pu.contains_key(a) {
        pu[a].feeds()
    } else {
        Multiset::empty()
    }
}

/// The feed log of an author's model before a feed: empty if the author has
/// no model yet.
pub open spec fn prior_user_log(pu: Map<Seq<char>, TextModel>, a: Seq<char>) -> Seq<
    Seq<Seq<char>>,
> {
    if pu.contains_key(a) {
        pu[a].log_view()
    } else {
        Seq::empty()
    }
}

/// An ASCII alphanumeric character.
pub open spec fn is_alnum(c: char) -> bool {
    (48 <= c as u32 && c as u32 <= 57) || (65 <= c as u32 && c as u32 <= 90) || (97 <= c as u32
        && c as u32 <= 122)
}

/// `t` is `orig` with each character kept or replaced by an alphanumeric.
pub open spec fn typo_of(orig: Seq<char>, t: Seq<char>) -> bool {
    t.len() == orig.len() && forall|k: int| 0 <= k < t.len() ==> (t[k] == orig[k] || is_alnum(#[trigger] t[k]))
}

/// Every reply token is the typo perturbation of some token fed into the
/// model.
pub open spec fn reply_tokens_from(
    feeds: Multiset<Seq<Seq<char>>>,
    origs: Seq<Seq<char>>,
    toks: Seq<Seq<char>>,
) -> bool {
    &&& origs.len() == toks.len()
    &&& forall|i: int|
        0 <= i < toks.len() ==> (token_in_feeds(feeds, #[trigger] origs[i]) && typo_of(
            origs[i],
            toks[i],
        ))
}

/// A reply string: up to 31 well-formed tokens, space-joined.
pub open spec fn good_reply(t: Seq<char>) -> bool {
    exists|toks: Seq<Seq<char>>|
        all_tokens_wf(toks) && 1 <= toks.len() < 32 && t == #[trigger] join_spaced(toks)
}

/// A reply drawn from the model: up to 31 well-formed tokens, space-joined,
/// each the typo perturbation of a token the model was fed.
pub open spec fn good_reply_from(feeds: Multiset<Seq<Seq<char>>>, t: Seq<char>) -> bool {
    exists|toks: Seq<Seq<char>>, origs: Seq<Seq<char>>|
        all_tokens_wf(toks) && 1 <= toks.len() < 32 && t == join_spaced(toks)
            && #[trigger] reply_tokens_from(feeds, origs, toks)
}

/// The tokens of a plain (unperturbed) generation: each either fed into the
/// model or equal to the seed, and starting with the seed when one is given.
pub open spec fn walk_tokens(
    feeds: Multiset<Seq<Seq<char>>>,
    seed: Option<Seq<char>>,
    toks: Seq<Seq<char>>,
) -> bool {
    &&& forall|i: int|
        0 <= i < toks.len() ==> (token_in_feeds(feeds, #[trigger] toks[i]) || (seed matches Some(
            s,
        ) && toks[i] == s))
    &&& (seed matches Some(s) ==> (toks.len() > 0 ==> toks[0] == s))
}

/// A plain generation from the model: the space-join of a walk; with a seed,
/// empty exactly when the seed was never fed; without one, non-empty
/// whenever the model has data.
pub open spec fn plain_generation(
    feeds: Multiset<Seq<Seq<char>>>,
    seed: Option<Seq<char>>,
    t: Seq<char>,
) -> bool {
    exists|toks: Seq<Seq<char>>|
        {
            &&& all_tokens_wf(toks)
            &&& t == #[trigger] join_spaced(toks)
            &&& walk_tokens(feeds, seed, toks)
            &&& (match seed {
                Some(s) => (toks.len() == 0 <==> !token_in_feeds(feeds, s)),
                Option::None => (feeds.len() > 0 ==> toks.len() > 0),
            })
        }
}

/// The relation between a channel state before and after one feed: the
/// settings are kept, the channel model gains the tokens, and so does the
/// author's model, created on first sight.
pub open spec fn fed_model(
    pre: MarkovData,
    post: MarkovData,
    author: Seq<char>,
    toks: Seq<Seq<char>>,
) -> bool {
    &&& post.probability == pre.probability
    &&& post.enabled == pre.enabled
    &&& post.chain.feeds() == fed_feeds(pre.chain.feeds(), toks)
    &&& post.chain.log_view() == fed_log(pre.chain.log_view(), toks)
    &&& post.per_user@ == pre.per_user@.insert(author, post.per_user@[author])
    &&& post.per_user@[author].feeds() == fed_feeds(prior_user_feeds(pre.per_user@, author), toks)
    &&& post.per_user@[author].log_view() == fed_log(prior_user_log(pre.per_user@, author), toks)
}

/// What one generation attempt yields, given the two decision rolls:
/// nothing exactly when the channel is off, the probability roll falls
/// short, or the model is empty; otherwise a reply drawn from the model,
/// threaded exactly when the reply roll hit.
pub open spec fn gen_outcome(
    md: MarkovData,
    gate_roll: int,
    reply_roll: int,
    r: Option<(String, bool)>,
) -> bool {
    &&& (r is None <==> (!md.enabled || gate_roll >= md.probability || md.chain.feeds().len()
        == 0))
    &&& (r matches Some(p) ==> (p.1 == (reply_roll == 0) && good_reply_from(
        md.chain.feeds(),
        p.0@,
    ) && good_reply(p.0@)))
}

/// The generative state of one listening channel.
pub struct MarkovData {
    /// Integer percentage in [0, 100] gating ambient replies.
    pub probability: u8,
    /// When false, messages are still fed but no reply is generated.
    pub enabled: bool,
    /// The model fed by every author of the channel.
    pub chain: TextModel,
    /// One model per author, fed only by that author.
    pub per_user: StrMap<TextModel>,
}

impl MarkovData {
    /// Validity: the probability is a percentage, and every model carries
    /// its own well-formed feed log.
    pub open spec fn wf(self) -> bool {
        &&& self.probability <= 100
        &&& self.per_user.wf()
        &&& self.chain.wf()
        &&& forall|k: Seq<char>| #[trigger]
            self.per_user@.contains_key(k) ==> self.per_user@[k].wf()
    }
}

impl Default for MarkovData {
    /// A fresh channel state: probability 5, disabled, nothing fed.
    fn default() -> (r: Self)
        ensures
            r.probability == 5,
            !r.enabled,
            r.chain.feeds() == Multiset::<Seq<Seq<char>>>::empty(),
            r.chain.log_view() == Seq::<Seq<Seq<char>>>::empty(),
            r.per_user@ == Map::<Seq<char>, TextModel>::empty(),
            r.wf(),
    {
        MarkovData {
            probability: 5,
            enabled: false,
            chain: TextModel::new(),
            per_user: StrMap::new(),
        }
    }
}

impl MarkovData {
    /// Appends the message tokens to the channel model and to the author's
    /// own model, creating the author's model on first sight.
    pub fn feed(&mut self, author: &str, tokens: &Vec<String>)
        requires
            old(self).wf(),
            all_tokens_wf(tokens.deep_view()),
        ensures
            final(self).wf(),
            fed_model(*old(self), *final(self), author@, tokens.deep_view()),
    {
        self.chain.feed(tokens);
        let prior = self.per_user.remove(author);
        let mut user_model = match prior {
            Some(m) => m,
            None => TextModel::new(),
        };
        user_model.feed(tokens);
        self.per_user.insert(author.to_owned(), user_model);
        proof {
            assert(self.per_user@ =~= old(self).per_user@.insert(
                author@,
                self.per_user@[author@],
            ));
            assert forall|k: Seq<char>| #[trigger]
                self.per_user@.contains_key(k) implies self.per_user@[k].wf() by {
                if k != author@ {
                    assert(old(self).per_user@.contains_key(k));
                    assert(self.per_user@[k] == old(self).per_user@[k]);
                }
            }
        }
    }

    /// After a feed, applies the probability gate and, on success, builds a
    /// reply: seeded from the just-fed tokens when the reply roll hits (and
    /// threaded), otherwise from the model itself; degenerate output is
    /// regenerated from the model; the result is truncated to a random
    /// length in [16, 32) and space-joined. The two decision rolls are
    /// arguments; the remaining draws (seed position, typos, cut) stay
    /// internal.
    pub fn try_generate_with(
        &self,
        gate_roll: u64,
        reply_roll: u64,
        rng: &mut Rng,
        tokens: &Vec<String>,
    ) -> (r: Option<(String, bool)>)
        requires
            self.wf(),
            gate_roll < 100,
            reply_roll < 5,
            all_tokens_wf(tokens.deep_view()),
        ensures
            gen_outcome(*self, gate_roll as int, reply_roll as int, r),
    {
        proof {
            self.chain.lemma_feeds_wf();
        }
        if !self.enabled {
            return None;
        }
        if gate_roll >= self.probability as u64 {
            return None;
        }
        if self.chain.is_empty() {
            return None;
        }
        let is_reply = reply_roll == 0;
        let start: String = if is_reply && tokens.len() > 0 {
            let idx = rng.below(tokens.len() as u64) as usize;
            proof {
                assert(token_wf(tokens.deep_view()[idx as int]));
                assert(tokens.deep_view()[idx as int] == tokens@[idx as int]@);
            }
            tokens[idx].clone()
        } else {
            let g = self.chain.generate();
            proof {
                assert(token_in_feeds(self.chain.feeds(), g@[g@.len() - 1]@));
                lemma_token_in_wf_feeds(self.chain.feeds(), g@[g@.len() - 1]@);
            }
            g[g.len() - 1].clone()
        };
        proof {
            assert(token_wf(start@));
        }
        let gen = self.chain.generate_from(&start);
        proof {
            assert forall|i: int| 0 <= i < gen.deep_view().len() implies (token_wf(
                #[trigger] gen.deep_view()[i],
            ) && token_in_feeds(self.chain.feeds(), gen.deep_view()[i])) by {
                assert(gen.deep_view()[i] == gen@[i]@);
                if gen@[i]@ != start@ {
                    lemma_token_in_wf_feeds(self.chain.feeds(), gen@[i]@);
                } else {
                    assert(gen@.len() > 0);
                    assert(token_in_feeds(self.chain.feeds(), start@));
                }
            }
        }
        let mut toks = typo_tokens(rng, &gen);
        let ghost mut gorig = gen.deep_view();
        if toks.len() == 0 || (toks.len() == 1 && str_eq(toks[0].as_str(), start.as_str())) {
            let g2 = self.chain.generate();
            proof {
                assert forall|i: int| 0 <= i < g2.deep_view().len() implies (token_wf(
                    #[trigger] g2.deep_view()[i],
                ) && token_in_feeds(self.chain.feeds(), g2.deep_view()[i])) by {
                    assert(g2.deep_view()[i] == g2@[i]@);
                    lemma_token_in_wf_feeds(self.chain.feeds(), g2@[i]@);
                }
            }
            toks = typo_tokens(rng, &g2);
            proof {
                gorig = g2.deep_view();
            }
        }
        let cut = 16 + rng.below(16) as usize;
        let ghost prevd = toks.deep_view();
        let ghost prevorig = gorig;
        toks.truncate(cut);
        proof {
            gorig = if cut <= prevorig.len() {
                prevorig.subrange(0, cut as int)
            } else {
                prevorig
            };
            if cut <= prevd.len() {
                assert(toks.deep_view() =~= prevd.subrange(0, cut as int));
            } else {
                assert(toks.deep_view() =~= prevd);
            }
            assert(1 <= toks.deep_view().len() < 32);
            assert forall|k: int| 0 <= k < toks.deep_view().len() implies (token_wf(
                #[trigger] toks.deep_view()[k],
            ) && token_in_feeds(self.chain.feeds(), gorig[k]) && typo_of(
                gorig[k],
                toks.deep_view()[k],
            )) by {
                assert(toks.deep_view()[k] == prevd[k]);
                assert(gorig[k] == prevorig[k]);
            }
            assert(gorig.len() == toks.deep_view().len());
        }
        let text = join_tokens(&toks);
        proof {
            assert(reply_tokens_from(self.chain.feeds(), gorig, toks.deep_view()));
            assert(good_reply_from(self.chain.feeds(), text@));
            assert(good_reply(text@));
        }
        Some((text, is_reply))
    }

    /// One gated generation attempt with fresh decision rolls.
    pub fn try_generate(&self, rng: &mut Rng, tokens: &Vec<String>) -> (r: Option<(String, bool)>)
        requires
            self.wf(),
            all_tokens_wf(tokens.deep_view()),
        ensures
            exists|g: int, rr: int|
                0 <= g < 100 && 0 <= rr < 5 && #[trigger] gen_outcome(*self, g, rr, r),
    {
        let gate_roll = rng.below(100);
        let reply_roll = rng.below(5);
        let r = self.try_generate_with(gate_roll, reply_roll, rng, tokens);
        proof {
            assert(gen_outcome(*self, gate_roll as int, reply_roll as int, r));
        }
        r
    }

    /// Joins a plain generation from the channel model, optionally seeded at
    /// a given token.
    pub fn generate_plain(&self, token: Option<&String>) -> (r: String)
        requires
            self.wf(),
            token matches Some(t) ==> token_wf(t@),
        ensures
            plain_generation(
                self.chain.feeds(),
                match token {
                    Some(t) => Some(t@),
                    Option::None => Option::None,
                },
                r@,
            ),
    {
        proof {
            self.chain.lemma_feeds_wf();
        }
        let toks: Vec<String> = match token {
            Some(t) => {
                let g = self.chain.generate_from(t);
                proof {
                    assert forall|i: int| 0 <= i < g.deep_view().len() implies (token_wf(
                        #[trigger] g.deep_view()[i],
                    ) && (token_in_feeds(self.chain.feeds(), g.deep_view()[i])
                        || g.deep_view()[i] == t@)) by {
                        assert(g.deep_view()[i] == g@[i]@);
                        if g@[i]@ != t@ {
                            lemma_token_in_wf_feeds(self.chain.feeds(), g@[i]@);
                        }
                    }
                }
                g
            },
            None => {
                if self.is_empty_model() {
                    Vec::new()
                } else {
                    let g = self.chain.generate();
                    proof {
                        assert forall|i: int| 0 <= i < g.deep_view().len() implies (token_wf(
                            #[trigger] g.deep_view()[i],
                        ) && token_in_feeds(self.chain.feeds(), g.deep_view()[i])) by {
                            assert(g.deep_view()[i] == g@[i]@);
                            lemma_token_in_wf_feeds(self.chain.feeds(), g@[i]@);
                        }
                    }
                    g
                }
            },
        };
        let r = join_tokens(&toks);
        proof {
            let seed: Option<Seq<char>> = match token {
                Some(t) => Some(t@),
                Option::None => Option::None,
            };
            assert(walk_tokens(self.chain.feeds(), seed, toks.deep_view()));
            assert(plain_generation(self.chain.feeds(), seed, r@)) by {
                assert(all_tokens_wf(toks.deep_view()) && r@ == join_spaced(toks.deep_view()));
            }
        }
        r
    }

    /// Whether the channel model has no data.
    pub fn is_empty_model(&self) -> (r: bool)
        ensures
            r == (self.chain.feeds().len() == 0),
    {
        self.chain.is_empty()
    }

    /// Joins a plain generation from the author's own model; `None` when the
    /// author has no model in this channel.
    pub fn generate_user_plain(&self, author: &str) -> (r: Option<String>)
        requires
            self.wf(),
        ensures
            r is Some <==> self.per_user@.contains_key(author@),
            r matches Some(t) ==> plain_generation(
                self.per_user@[author@].feeds(),
                Option::None,
                t@,
            ),
    {
        match self.per_user.get(author) {
            Some(m) => {
                proof {
                    m.lemma_feeds_wf();
                }
                if m.is_empty() {
                    let t = String::new();
                    proof {
                        let ghost e: Seq<Seq<char>> = Seq::empty();
                        assert(t@ =~= join_spaced(e));
                        assert(walk_tokens(m.feeds(), Option::None, e));
                        assert(plain_generation(m.feeds(), Option::None, t@)) by {
                            assert(all_tokens_wf(e) && t@ == join_spaced(e));
                        }
                    }
                    Some(t)
                } else {
                    let g = m.generate();
                    proof {
                        assert forall|i: int| 0 <= i < g.deep_view().len() implies (token_wf(
                            #[trigger] g.deep_view()[i],
                        ) && token_in_feeds(m.feeds(), g.deep_view()[i])) by {
                            assert(g.deep_view()[i] == g@[i]@);
                            lemma_token_in_wf_feeds(m.feeds(), g@[i]@);
                        }
                    }
                    let t = join_tokens(&g);
                    proof {
                        assert(walk_tokens(m.feeds(), Option::None, g.deep_view()));
                        assert(plain_generation(m.feeds(), Option::None, t@)) by {
                            assert(all_tokens_wf(g.deep_view()) && t@ == join_spaced(
                                g.deep_view(),
                            ));
                        }
                    }
                    Some(t)
                }
            },
            None => None,
        }
    }
}

/// A reply is always shorter than 32 tokens: splitting it back recovers at
/// most 31 well-formed tokens.
pub proof fn lemma_reply_under_32_tokens(t: Seq<char>)
    requires
        good_reply(t),
    ensures
        1 <= crate::text::tokens_of(t).len() < 32,
{
    let toks = choose|toks: Seq<Seq<char>>|
        all_tokens_wf(toks) && 1 <= toks.len() < 32 && t == #[trigger] join_spaced(toks);
    crate::text::lemma_tokens_of_join(toks);
}

/// A token drawn from well-formed feeds is well-formed.
proof fn lemma_token_in_wf_feeds(feeds: Multiset<Seq<Seq<char>>>, tok: Seq<char>)
    requires
        feeds_wf(feeds),
        token_in_feeds(feeds, tok),
    ensures
        token_wf(tok),
{
    let s = choose|s: Seq<Seq<char>>| feeds.contains(s) && s.contains(tok);
    let i = choose|i: int| 0 <= i < s.len() && s[i] == tok;
    assert(token_wf(s[i]));
}

/// One of the 62 ASCII alphanumeric characters.
fn alnum_char(i: u64) -> (c: char)
    requires
        i < 62,
    ensures
        is_alnum(c),
        !is_space_spec(c),
{
    let c: char = if i < 26 {
        (65 + i as u8) as char
    } else if i < 52 {
        (97 + (i - 26) as u8) as char
    } else {
        (48 + (i - 52) as u8) as char
    };
    proof {
        assert(' ' as u32 == 32 && '\t' as u32 == 9 && '\n' as u32 == 10 && '\r' as u32 == 13
            && '\u{b}' as u32 == 11 && '\u{c}' as u32 == 12);
    }
    c
}

/// Simulates a typo: each character is independently replaced, with
/// probability 5 in 1000, by a random alphanumeric character. An empty token
/// passes through unchanged.
pub fn typo(rng: &mut Rng, s: &String) -> (r: String)
    ensures
        typo_of(s@, r@),
        forall|k: int|
            0 <= k < r@.len() ==> (r@[k] == s@[k] || !is_space_spec(#[trigger] r@[k])),
{
    let cs = chars_vec(s.as_str());
    let mut out: Vec<char> = Vec::new();
    let mut i: usize = 0;
    while i < cs.len()
        invariant
            i <= cs@.len(),
            cs@ == s@,
            out@.len() == i,
            forall|k: int|
                0 <= k < i ==> (out@[k] == s@[k] || (is_alnum(#[trigger] out@[k])
                    && !is_space_spec(out@[k]))),
        decreases cs@.len() - i,
    {
        let roll = rng.below(1000);
        if roll < 5 {
            let c = alnum_char(rng.below(62));
            out.push(c);
        } else {
            out.push(cs[i]);
        }
        i += 1;
    }
    chars_to_string(&out)
}

/// Applies the typo perturbation to every token; well-formed tokens stay
/// well-formed and each output token perturbs the matching input token.
fn typo_tokens(rng: &mut Rng, toks: &Vec<String>) -> (r: Vec<String>)
    ensures
        r@.len() == toks@.len(),
        forall|i: int|
            0 <= i < r@.len() ==> typo_of(toks.deep_view()[i], #[trigger] r.deep_view()[i]),
        all_tokens_wf(toks.deep_view()) ==> all_tokens_wf(r.deep_view()),
{
    let mut out: Vec<String> = Vec::new();
    let mut i: usize = 0;
    while i < toks.len()
        invariant
            i <= toks@.len(),
            out@.len() == i,
            forall|k: int|
                0 <= k < i ==> typo_of(toks.deep_view()[k], #[trigger] out.deep_view()[k]),
            forall|k: int|
                0 <= k < i ==> (token_wf(toks.deep_view()[k]) ==> token_wf(
                    #[trigger] out.deep_view()[k],
                )),
        decreases toks@.len() - i,
    {
        let t = typo(rng, &toks[i]);
        proof {
            assert(toks.deep_view()[i as int] == toks@[i as int]@);
            if token_wf(toks.deep_view()[i as int]) {
                assert forall|k: int| 0 <= k < t@.len() implies !is_space_spec(t@[k]) by {
                    assert(t@[k] == toks@[i as int]@[k] || !is_space_spec(t@[k]));
                }
                assert(token_wf(t@));
            }
        }
        let ghost prev = out.deep_view();
        out.push(t);
        proof {
            assert(out.deep_view() =~= prev.push(t@));
        }
        i += 1;
    }
    proof {
        if all_tokens_wf(toks.deep_view()) {
            assert forall|k: int| 0 <= k < out.deep_view().len() implies token_wf(
                #[trigger] out.deep_view()[k],
            ) by {
                assert(token_wf(toks.deep_view()[k]));
            }
        }
    }
    out
}

} // verus!
