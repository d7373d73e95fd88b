//! The bot aggregate: the per-conversation state store, the insult state
//! machine, the generative model of each channel, the prefix configuration,
//! and the command router over incoming messages.

use vstd::prelude::*;
use vstd::multiset::Multiset;
use vstd::multiset::group_multiset_axioms;
use crate::chain::{log_wf, TextModel};
use crate::insult::{bump_count, bumped, fire_threshold, InsultData, FIRE_DENOM};
use crate::model::{gen_outcome, plain_generation, MarkovData};
use crate::rng::Rng;
use crate::strmap::StrMap;
use crate::text::{
    all_tokens_wf, contains_seq, contains_sub, dec_str, lemma_tokens_from_wf, parse_prob,
    prob_of_input, str_eq, tokenize, tokens_of, u8_dec_string,
};
use vstd::string::StringExecFns;

verus! {

broadcast use group_multiset_axioms, crate::codec::lemma_le32_len, crate::codec::lemma_le64_len;

/// The default command prefix.
pub open spec fn default_prefix() -> Seq<char> {
    "b/"@
}

/// The reply sent when a channel was never set up for listening.
pub open spec fn mark_msg() -> Seq<char> {
    "First set this channel for listening, dumb human.\nA tip: you can do so with `listen`."@
}

/// The reply sent when a listen command lacks the manage capability.
pub open spec fn no_perms_msg() -> Seq<char> {
    "Foolish human, you don't have enough permissions to do this."@
}

/// The phrase that, in a reply to the last taunt, counts as retaliation.
pub open spec fn retaliation_phrase() -> Seq<char> {
    "fuck you"@
}

/// An unrecognized command reply: a random insult, then the command in
/// backticks.
pub open spec fn is_unrecognised_reply(insults: Seq<Seq<char>>, cmd: Seq<char>, t: Seq<char>) -> bool {
    exists|i: int|
        0 <= i < insults.len() && t == #[trigger] insults[i] + "`"@ + cmd + "` isn't a command."@
}

/// A value drawn from a list.
pub open spec fn is_choice_of(list: Seq<Seq<char>>, t: Seq<char>) -> bool {
    exists|i: int| 0 <= i < list.len() && t == #[trigger] list[i]
}

/// The default insult state of a channel.
pub open spec fn insult_default() -> InsultData {
    InsultData { message_id: None, count_passed: 1, enabled: false }
}

/// The insult state of a channel, default when absent.
pub open spec fn insult_at(m: Map<Seq<char>, InsultData>, ch: Seq<char>) -> InsultData {
    if m.contains_key(ch) {
        m[ch]
    } else {
        insult_default()
    }
}

/// The outcome of one proactive insult roll on the insult store: on a fire
/// the entry is only materialized; on a miss its counter is bumped.
pub open spec fn insult_roll_step(
    pre: Map<Seq<char>, InsultData>,
    post: Map<Seq<char>, InsultData>,
    ch: Seq<char>,
    insults: Seq<Seq<char>>,
    r: Option<String>,
    roll: int,
) -> bool {
    let d0 = insult_at(pre, ch);
    if d0.enabled && roll < fire_threshold(d0.count_passed) {
        &&& r matches Some(t) && is_choice_of(insults, t@)
        &&& post == pre.insert(ch, d0)
    } else {
        &&& r is None
        &&& post == pre.insert(
            ch,
            InsultData {
                message_id: d0.message_id,
                count_passed: bumped(d0.count_passed),
                enabled: d0.enabled,
            },
        )
    }
}

/// The conversational responder: all per-conversation state, the corpora,
/// and the pre-seeded poem model.
pub struct Bot {
    user_id: String,
    insult_data: StrMap<InsultData>,
    mchain: StrMap<MarkovData>,
    prefix: StrMap<String>,
    poem_chain: TextModel,
    poems: Vec<String>,
    insults: Vec<String>,
}

impl Bot {
    /// The bot's own account identifier.
    pub closed spec fn user_id_view(&self) -> Seq<char> {
        self.user_id@
    }

    /// The insult store.
    pub closed spec fn insult_map(&self) -> Map<Seq<char>, InsultData> {
        self.insult_data@
    }

    /// The generative store.
    pub closed spec fn markov_map(&self) -> Map<Seq<char>, MarkovData> {
        self.mchain@
    }

    /// The prefix configuration.
    pub closed spec fn prefix_map(&self) -> Map<Seq<char>, String> {
        self.prefix@
    }

    /// The poem corpus.
    pub closed spec fn poems_view(&self) -> Seq<Seq<char>> {
        self.poems.deep_view()
    }

    /// The insult corpus.
    pub closed spec fn insults_view(&self) -> Seq<Seq<char>> {
        self.insults.deep_view()
    }

    /// What has been fed into the poem model.
    pub closed spec fn poem_feeds(&self) -> Multiset<Seq<Seq<char>>> {
        self.poem_chain.feeds()
    }

    /// Validity: every store is well-formed, every channel state is valid,
    /// and both corpora are non-empty.
    pub closed spec fn wf(&self) -> bool {
        &&& self.insult_data.wf()
        &&& self.mchain.wf()
        &&& self.prefix.wf()
        &&& forall|k: Seq<char>| #[trigger]
            self.mchain@.contains_key(k) ==> self.mchain@[k].wf()
        &&& forall|k: Seq<char>| #[trigger]
            self.insult_data@.contains_key(k) ==> self.insult_data@[k].count_passed >= 1
        &&& self.poem_chain.wf()
        &&& self.poems@.len() > 0
        &&& self.insults@.len() > 0
    }

    /// Every other part of the bot is as it was.
    pub open spec fn same_but_markov(&self, other: &Bot) -> bool {
        &&& self.user_id_view() == other.user_id_view()
        &&& self.insult_map() == other.insult_map()
        &&& self.prefix_map() == other.prefix_map()
        &&& self.poems_view() == other.poems_view()
        &&& self.insults_view() == other.insults_view()
    }

    /// Every other part of the bot is as it was.
    pub open spec fn same_but_insult(&self, other: &Bot) -> bool {
        &&& self.user_id_view() == other.user_id_view()
        &&& self.markov_map() == other.markov_map()
        &&& self.prefix_map() == other.prefix_map()
        &&& self.poems_view() == other.poems_view()
        &&& self.insults_view() == other.insults_view()
    }

    /// Every other part of the bot is as it was.
    pub open spec fn same_but_prefix(&self, other: &Bot) -> bool {
        &&& self.user_id_view() == other.user_id_view()
        &&& self.insult_map() == other.insult_map()
        &&& self.markov_map() == other.markov_map()
        &&& self.poems_view() == other.poems_view()
        &&& self.insults_view() == other.insults_view()
    }

    /// Nothing about the bot changed.
    pub open spec fn unchanged(&self, other: &Bot) -> bool {
        &&& self.same_but_markov(other)
        &&& self.markov_map() == other.markov_map()
    }

    /// A fresh bot over the given corpora, with every store empty and the
    /// poem model fed from the poem corpus.
    pub fn new(user_id: String, poems: Vec<String>, insults: Vec<String>) -> (r: Bot)
        requires
            poems@.len() > 0,
            insults@.len() > 0,
        ensures
            r.wf(),
            r.user_id_view() == user_id@,
            r.insult_map() == Map::<Seq<char>, InsultData>::empty(),
            r.markov_map() == Map::<Seq<char>, MarkovData>::empty(),
            r.prefix_map() == Map::<Seq<char>, String>::empty(),
            r.poems_view() == poems.deep_view(),
            r.insults_view() == insults.deep_view(),
            r.poem_feeds() == crate::model::fed_feeds(
                Multiset::empty(),
                corpus_tokens(poems.deep_view()),
            ),
    {
        let poem_chain = default_poem_chain(&poems);
        Bot {
            user_id,
            insult_data: StrMap::new(),
            mchain: StrMap::new(),
            prefix: StrMap::new(),
            poem_chain,
            poems,
            insults,
        }
    }

    /// Toggles whether the channel is listened to, creating its state on
    /// first use; reports the new setting.
    pub fn markov_toggle_mark_channel(&mut self, channel_id: &str) -> (r: String)
        requires
            old(self).wf(),
        ensures
            final(self).wf(),
            final(self).same_but_markov(old(self)),
            final(self).markov_map() == old(self).markov_map().insert(
                channel_id@,
                final(self).markov_map()[channel_id@],
            ),
            ({
                let md = final(self).markov_map()[channel_id@];
                let pre = old(self).markov_map();
                &&& (pre.contains_key(channel_id@) ==> md == (MarkovData {
                    enabled: !pre[channel_id@].enabled,
                    ..pre[channel_id@]
                }))
                &&& (!pre.contains_key(channel_id@) ==> (md.probability == 5 && md.enabled
                    && md.chain.feeds().len() == 0 && md.per_user@ == Map::<
                    Seq<char>,
                    TextModel,
                >::empty()))
                &&& r@ == (if md.enabled {
                    "marked channel"@
                } else {
                    "unmarked channel"@
                })
            }),
    {
        let prior = self.mchain.remove(channel_id);
        let enabled_now: bool;
        match prior {
            Some(mut m) => {
                m.enabled = !m.enabled;
                enabled_now = m.enabled;
                self.mchain.insert(channel_id.to_owned(), m);
            },
            None => {
                let mut m = MarkovData::default();
                m.enabled = true;
                enabled_now = true;
                self.mchain.insert(channel_id.to_owned(), m);
            },
        }
        proof {
            assert(self.mchain@ =~= old(self).mchain@.insert(
                channel_id@,
                self.mchain@[channel_id@],
            ));
            assert forall|k: Seq<char>| #[trigger] self.mchain@.contains_key(k) implies
                self.mchain@[k].wf() by {
                if k != channel_id@ {
                    assert(old(self).mchain@.contains_key(k));
                    assert(self.mchain@[k] == old(self).mchain@[k]);
                }
            }
        }
        if enabled_now {
            String::from_str("marked channel")
        } else {
            String::from_str("unmarked channel")
        }
    }

    /// Sets the reply probability of a listening channel from the given
    /// text, clamping into [0, 100] and defaulting to 5; a channel never
    /// set up only gets the instructional message.
    pub fn markov_set_prob(&mut self, channel_id: &str, new_prob: &str) -> (r: String)
        requires
            old(self).wf(),
        ensures
            final(self).wf(),
            final(self).same_but_markov(old(self)),
            !old(self).markov_map().contains_key(channel_id@) ==> (final(self).markov_map()
                == old(self).markov_map() && r@ == mark_msg()),
            old(self).markov_map().contains_key(channel_id@) ==> (final(self).markov_map()
                == old(self).markov_map().insert(
                channel_id@,
                MarkovData {
                    probability: prob_of_input(new_prob@) as u8,
                    ..old(self).markov_map()[channel_id@]
                },
            ) && r@ == "Set probability to "@ + dec_str(prob_of_input(new_prob@)) + "%"@),
    {
        let prior = self.mchain.remove(channel_id);
        match prior {
            Some(mut m) => {
                let p = parse_prob(new_prob);
                m.probability = p;
                self.mchain.insert(channel_id.to_owned(), m);
                proof {
                    assert(self.mchain@ =~= old(self).mchain@.insert(
                        channel_id@,
                        MarkovData {
                            probability: prob_of_input(new_prob@) as u8,
                            ..old(self).markov_map()[channel_id@]
                        },
                    ));
                    assert forall|k: Seq<char>| #[trigger] self.mchain@.contains_key(k) implies
                        self.mchain@[k].wf() by {
                        if k != channel_id@ {
                            assert(old(self).mchain@.contains_key(k));
                            assert(self.mchain@[k] == old(self).mchain@[k]);
                        }
                    }
                }
                let mut out = String::from_str("Set probability to ");
                out.append(u8_dec_string(p).as_str());
                out.append("%");
                out
            },
            None => {
                proof {
                    assert(self.mchain@ =~= old(self).mchain@);
                }
                String::from_str(
                    "First set this channel for listening, dumb human.\nA tip: you can do so with `listen`.",
                )
            },
        }
    }

    /// Reports the reply probability of a listening channel; a channel never
    /// set up only gets the instructional message.
    pub fn markov_get_prob(&self, channel_id: &str) -> (r: String)
        requires
            self.wf(),
        ensures
            !self.markov_map().contains_key(channel_id@) ==> r@ == mark_msg(),
            self.markov_map().contains_key(channel_id@) ==> r@ == "Probability is "@ + dec_str(
                self.markov_map()[channel_id@].probability as int,
            ) + "%"@,
    {
        match self.mchain.get(channel_id) {
            Some(m) => {
                let mut out = String::from_str("Probability is ");
                out.append(u8_dec_string(m.probability).as_str());
                out.append("%");
                out
            },
            None => {
                String::from_str(
                    "First set this channel for listening, dumb human.\nA tip: you can do so with `listen`.",
                )
            },
        }
    }

    /// Makes sure the channel has an insult entry, creating the default one
    /// on first use.
    pub fn insult_entry(&mut self, channel_id: &str)
        requires
            old(self).wf(),
        ensures
            final(self).wf(),
            final(self).same_but_insult(old(self)),
            final(self).insult_map() == old(self).insult_map().insert(
                channel_id@,
                insult_at(old(self).insult_map(), channel_id@),
            ),
    {
        let present = self.insult_data.contains_key(channel_id);
        if !present {
            self.insult_data.insert(channel_id.to_owned(), InsultData::default());
        }
        proof {
            assert(self.insult_data@ =~= old(self).insult_data@.insert(
                channel_id@,
                insult_at(old(self).insult_map(), channel_id@),
            ));
            assert forall|k: Seq<char>| #[trigger]
                self.insult_data@.contains_key(k) implies self.insult_data@[k].count_passed
                >= 1 by {
                if k != channel_id@ {
                    assert(old(self).insult_data@.contains_key(k));
                    assert(self.insult_data@[k] == old(self).insult_data@[k]);
                }
            }
        }
    }

    /// Records a sent taunt: the counter restarts at 1 and the taunt's
    /// message identifier is remembered for retaliation detection.
    pub fn insult(&mut self, channel_id: &str, message_id: String)
        requires
            old(self).wf(),
        ensures
            final(self).wf(),
            final(self).same_but_insult(old(self)),
            final(self).insult_map() == old(self).insult_map().insert(
                channel_id@,
                InsultData {
                    message_id: Some(message_id),
                    count_passed: 1,
                    enabled: insult_at(old(self).insult_map(), channel_id@).enabled,
                },
            ),
    {
        self.insult_entry(channel_id);
        let mut d = match self.insult_data.remove(channel_id) {
            Some(d) => d,
            None => InsultData::default(),
        };
        d.count_passed = 1;
        d.message_id = Some(message_id);
        self.insult_data.insert(channel_id.to_owned(), d);
        proof {
            assert(self.insult_data@ =~= old(self).insult_data@.insert(
                channel_id@,
                InsultData {
                    message_id: d.message_id,
                    count_passed: 1,
                    enabled: insult_at(old(self).insult_map(), channel_id@).enabled,
                },
            ));
        }
    }

    /// Retaliation detection: true exactly when the message contains the
    /// retaliatory phrase and replies to the last recorded taunt.
    pub fn has_insult_response(&self, channel_id: &str, message_id: &str, message_content: &str)
        -> (r: bool)
        requires
            self.wf(),
        ensures
            r == (contains_seq(message_content@, retaliation_phrase())
                && self.insult_map().contains_key(channel_id@)
                && (self.insult_map()[channel_id@].message_id matches Some(m) && m@
                == message_id@)),
    {
        if !contains_sub(message_content, "fuck you") {
            return false;
        }
        match self.insult_data.get(channel_id) {
            Some(d) => {
                match &d.message_id {
                    Some(m) => str_eq(m.as_str(), message_id),
                    None => false,
                }
            },
            None => false,
        }
    }

    /// One proactive insult roll with the drawn value given: fires exactly
    /// when taunting is on and the roll is under the threshold for the
    /// channel's counter.
    pub fn try_insult_with(&mut self, channel_id: &str, roll: u64) -> (r: Option<String>)
        requires
            old(self).wf(),
            roll < FIRE_DENOM,
        ensures
            final(self).wf(),
            final(self).same_but_insult(old(self)),
            insult_roll_step(
                old(self).insult_map(),
                final(self).insult_map(),
                channel_id@,
                old(self).insults_view(),
                r,
                roll as int,
            ),
    {
        self.insult_entry(channel_id);
        let mut d = match self.insult_data.remove(channel_id) {
            Some(d) => d,
            None => InsultData::default(),
        };
        let threshold: u64 = 5 * (d.count_passed as u64);
        if d.enabled && roll < threshold {
            self.insult_data.insert(channel_id.to_owned(), d);
            let mut rng = Rng::new();
            let pick = rng.below(self.insults.len() as u64) as usize;
            proof {
                assert(self.insult_data@ =~= old(self).insult_data@.insert(
                    channel_id@,
                    insult_at(old(self).insult_map(), channel_id@),
                ));
                assert(self.insults.deep_view()[pick as int] == self.insults@[pick as int]@);
            }
            Some(self.insults[pick].clone())
        } else {
            d.count_passed = bump_count(d.count_passed);
            self.insult_data.insert(channel_id.to_owned(), d);
            proof {
                let d0 = insult_at(old(self).insult_map(), channel_id@);
                assert(self.insult_data@ =~= old(self).insult_data@.insert(
                    channel_id@,
                    InsultData {
                        message_id: d0.message_id,
                        count_passed: bumped(d0.count_passed),
                        enabled: d0.enabled,
                    },
                ));
            }
            None
        }
    }

    /// One proactive insult roll with a fresh random draw.
    pub fn try_insult(&mut self, channel_id: &str) -> (r: Option<String>)
        requires
            old(self).wf(),
        ensures
            final(self).wf(),
            final(self).same_but_insult(old(self)),
            exists|roll: int|
                0 <= roll < FIRE_DENOM && insult_roll_step(
                    old(self).insult_map(),
                    final(self).insult_map(),
                    channel_id@,
                    old(self).insults_view(),
                    r,
                    roll,
                ),
    {
        let mut rng = Rng::new();
        let roll = rng.below(10000);
        let r = self.try_insult_with(channel_id, roll);
        proof {
            assert(insult_roll_step(
                old(self).insult_map(),
                self.insult_map(),
                channel_id@,
                old(self).insults_view(),
                r,
                roll as int,
            ));
        }
        r
    }

    /// An unrecognized command reply: a random insult followed by the
    /// command itself in backticks.
    pub fn unrecognised_command(&self, cmd: &str) -> (r: String)
        requires
            self.wf(),
        ensures
            is_unrecognised_reply(self.insults_view(), cmd@, r@),
    {
        let mut rng = Rng::new();
        let pick = rng.below(self.insults.len() as u64) as usize;
        let mut out = self.insults[pick].clone();
        out.append("`");
        out.append(cmd);
        out.append("` isn't a command.");
        proof {
            assert(self.insults.deep_view()[pick as int] == self.insults@[pick as int]@);
            assert(out@ == self.insults_view()[pick as int] + "`"@ + cmd@
                + "` isn't a command."@);
        }
        out
    }
}

impl Bot {
    /// Text generated from an author's chain in the channel, or the fitting
    /// notice when the channel or the author has no data.
    pub fn gen_user_message(&self, channel_id: &str, message_author: &str) -> (r: String)
        requires
            self.wf(),
        ensures
            !self.markov_map().contains_key(channel_id@) ==> r@ == mark_msg(),
            self.markov_map().contains_key(channel_id@) && !self.markov_map()[channel_id@]
                .per_user@.contains_key(message_author@) ==> r@
                == "User has no messages recorded"@,
            self.markov_map().contains_key(channel_id@) && self.markov_map()[channel_id@]
                .per_user@.contains_key(message_author@) ==> plain_generation(
                self.markov_map()[channel_id@].per_user@[message_author@].feeds(),
                Option::None,
                r@,
            ),
    {
        match self.mchain.get(channel_id) {
            Some(m) => {
                match m.generate_user_plain(message_author) {
                    Some(t) => t,
                    None => String::from_str("User has no messages recorded"),
                }
            },
            None => {
                String::from_str(
                    "First set this channel for listening, dumb human.\nA tip: you can do so with `listen`.",
                )
            },
        }
    }

    /// Text generated from the channel chain, optionally seeded at a token,
    /// or the instructional notice when the channel has no data.
    pub fn gen_message(&self, channel_id: &str, token: Option<String>) -> (r: String)
        requires
            self.wf(),
            token matches Some(t) ==> crate::text::token_wf(t@),
        ensures
            !self.markov_map().contains_key(channel_id@) ==> r@ == mark_msg(),
            self.markov_map().contains_key(channel_id@) ==> plain_generation(
                self.markov_map()[channel_id@].chain.feeds(),
                match token {
                    Some(t) => Some(t@),
                    Option::None => Option::None,
                },
                r@,
            ),
    {
        match self.mchain.get(channel_id) {
            Some(m) => {
                match &token {
                    Some(t) => m.generate_plain(Some(t)),
                    None => m.generate_plain(None),
                }
            },
            None => {
                String::from_str(
                    "First set this channel for listening, dumb human.\nA tip: you can do so with `listen`.",
                )
            },
        }
    }

    /// Feeds the message into the channel's model and rolls for an ambient
    /// reply. A channel never set up for listening is left untouched.
    pub fn markov_try_gen_message(
        &mut self,
        channel_id: &str,
        message_content: &str,
        message_author: &str,
    ) -> (r: Option<(String, bool)>)
        requires
            old(self).wf(),
        ensures
            final(self).wf(),
            final(self).same_but_markov(old(self)),
            !old(self).markov_map().contains_key(channel_id@) ==> (final(self).markov_map()
                == old(self).markov_map() && r is None),
            old(self).markov_map().contains_key(channel_id@) ==> (final(self).markov_map()
                == old(self).markov_map().insert(
                channel_id@,
                final(self).markov_map()[channel_id@],
            ) && crate::model::fed_model(
                old(self).markov_map()[channel_id@],
                final(self).markov_map()[channel_id@],
                message_author@,
                tokens_of(message_content@),
            )),
            old(self).markov_map().contains_key(channel_id@) ==> (exists|g: int, rr: int|
                0 <= g < 100 && 0 <= rr < 5 && #[trigger] gen_outcome(
                    final(self).markov_map()[channel_id@],
                    g,
                    rr,
                    r,
                )),
            (old(self).markov_map().contains_key(channel_id@) && !old(self).markov_map()[channel_id@].enabled)
                ==> r is None,
            (old(self).markov_map().contains_key(channel_id@)
                && old(self).markov_map()[channel_id@].probability == 0) ==> r is None,
            (old(self).markov_map().contains_key(channel_id@)
                && old(self).markov_map()[channel_id@].enabled
                && old(self).markov_map()[channel_id@].probability == 100
                && (tokens_of(message_content@).len() > 0
                || old(self).markov_map()[channel_id@].chain.feeds().len() > 0))
                ==> r is Some,
            r matches Some(p) ==> crate::model::good_reply(p.0@),
    {
        let toks = tokenize(message_content);
        proof {
            lemma_tokens_from_wf(message_content@, 0);
        }
        let prior = self.mchain.remove(channel_id);
        match prior {
            Some(mut m) => {
                m.feed(message_author, &toks);
                let mut rng = Rng::new();
                let r = m.try_generate(&mut rng, &toks);
                proof {
                    if toks.deep_view().len() > 0 {
                        assert(m.chain.feeds().len() > 0);
                    }
                    let (g, rr) = choose|g: int, rr: int|
                        0 <= g < 100 && 0 <= rr < 5 && #[trigger] gen_outcome(m, g, rr, r);
                    assert(gen_outcome(m, g, rr, r));
                }
                self.mchain.insert(channel_id.to_owned(), m);
                proof {
                    assert(self.mchain@ =~= old(self).mchain@.insert(
                        channel_id@,
                        self.mchain@[channel_id@],
                    ));
                    assert forall|k: Seq<char>| #[trigger] self.mchain@.contains_key(k) implies
                        self.mchain@[k].wf() by {
                        if k != channel_id@ {
                            assert(old(self).mchain@.contains_key(k));
                            assert(self.mchain@[k] == old(self).mchain@[k]);
                        }
                    }
                }
                r
            },
            None => {
                proof {
                    assert(self.mchain@ =~= old(self).mchain@);
                }
                None
            },
        }
    }

    /// Synthesizes a poem from the pre-seeded poem model.
    pub fn generate_poem(&self) -> (r: String)
        requires
            self.wf(),
        ensures
            crate::poem::is_poem_text(self.poem_feeds(), r@),
    {
        let mut rng = Rng::new();
        crate::poem::generate_poem_from(&self.poem_chain, &mut rng)
    }

    /// A random poem when no keywords are given; otherwise the best fuzzy
    /// match above the score threshold, or the fixed notice when nothing
    /// matches.
    pub fn process_poem_command(&self, keywords: &str) -> (r: String)
        requires
            self.wf(),
        ensures
            keywords@.len() == 0 ==> is_choice_of(self.poems_view(), r@),
            keywords@.len() > 0 ==> ((exists|i: int|
                crate::poem::is_best_poem(self.poems_view(), keywords@, i) && r@
                    == self.poems_view()[i]) || (crate::poem::no_poem_matches(
                self.poems_view(),
                keywords@,
            ) && r@ == "No poem with those words. Try again, maybe a miracle will occur."@)),
    {
        if keywords.is_empty() {
            let mut rng = Rng::new();
            choose_random_poem(&self.poems, &mut rng)
        } else {
            match crate::poem::search_poems(&self.poems, keywords) {
                Some(i) => {
                    proof {
                        assert(self.poems.deep_view()[i as int] == self.poems@[i as int]@);
                    }
                    self.poems[i].clone()
                },
                None => {
                    String::from_str(
                        "No poem with those words. Try again, maybe a miracle will occur.",
                    )
                },
            }
        }
    }
}

/// One incoming message, as plain values handed over by the transport.
pub struct MessageEvent {
    /// The message's own identifier.
    pub id: String,
    /// The author's identifier.
    pub author: String,
    /// The textual content.
    pub content: String,
    /// The channel the message arrived in.
    pub channel_id: String,
    /// The guild or server, when the channel belongs to one.
    pub guild_id: Option<String>,
    /// The message this one replies to, if any.
    pub referenced_id: Option<String>,
}

/// The scope key for configuration commands: the guild when present, else
/// the channel.
pub open spec fn context_of(msg: MessageEvent) -> Seq<char> {
    match msg.guild_id {
        Some(g) => g@,
        None => msg.channel_id@,
    }
}

/// Do these command tokens demand the manage capability before they run?
pub open spec fn needs_perm_toks(toks: Seq<Seq<char>>) -> bool {
    toks.len() >= 1 && (toks[0] == "set"@ || (toks[0] == "listen"@ && (toks.len() == 1 || (
    toks.len() >= 3 && toks[1] == "prob"@) || (toks.len() >= 2 && toks[1] == "clear"@))))
}

/// What the router decided about an incoming message.
pub enum RouteDecision {
    /// The bot's own message: nothing happens.
    Ignore,
    /// An ordinary message: feed the model, check retaliation, roll.
    Chat,
    /// A command; the flag says whether to query the manage capability
    /// before running it.
    Command { needs_perm: bool },
}

/// What a command sends back.
pub enum Reply {
    /// A text reply.
    Text(String),
    /// The joke image attachment.
    Image,
}

/// The outcome of a command: the reply to send, and whether the sent
/// reply's identifier must be recorded as a fresh taunt.
pub struct CommandOutcome {
    /// The reply to send, threaded to the triggering message.
    pub reply: Reply,
    /// Record the sent reply as the channel's latest taunt.
    pub record_taunt: bool,
}

/// A plain text outcome.
pub open spec fn out_text(out: CommandOutcome, t: Seq<char>) -> bool {
    (out.reply matches Reply::Text(s) && s@ == t) && !out.record_taunt
}

/// An insult-flavored outcome for an unrecognized command, to be recorded
/// as a taunt once sent.
pub open spec fn out_insult(out: CommandOutcome, insults: Seq<Seq<char>>, cmd: Seq<char>) -> bool {
    (out.reply matches Reply::Text(s) && is_unrecognised_reply(insults, cmd, s@))
        && out.record_taunt
}

impl Bot {
    /// The command prefix of a scope: the configured one, or the default.
    pub open spec fn prefix_of(&self, ctx: Seq<char>) -> Seq<char> {
        if self.prefix_map().contains_key(ctx) {
            self.prefix_map()[ctx]@
        } else {
            default_prefix()
        }
    }

    /// The command tokens of a message whose content starts with the
    /// scope's prefix.
    pub open spec fn cmd_tokens_of(&self, msg: MessageEvent) -> Option<Seq<Seq<char>>> {
        let p = self.prefix_of(context_of(msg));
        if crate::text::has_prefix(msg.content@, p) {
            Some(tokens_of(msg.content@.skip(p.len() as int)))
        } else {
            None
        }
    }

    /// The routing of one message.
    pub open spec fn plan_spec(&self, msg: MessageEvent) -> RouteDecision {
        match self.cmd_tokens_of(msg) {
            Some(toks) => RouteDecision::Command { needs_perm: needs_perm_toks(toks) },
            None => {
                if msg.author@ != self.user_id_view() {
                    RouteDecision::Chat
                } else {
                    RouteDecision::Ignore
                }
            },
        }
    }

    /// Routes one message: command, ordinary chat, or the bot's own echo.
    pub fn plan(&self, msg: &MessageEvent) -> (r: RouteDecision)
        requires
            self.wf(),
        ensures
            r == self.plan_spec(*msg),
    {
        let ctx: &str = match &msg.guild_id {
            Some(g) => g.as_str(),
            None => msg.channel_id.as_str(),
        };
        let stripped = match self.prefix.get(ctx) {
            Some(p) => crate::text::strip_prefix_str(msg.content.as_str(), p.as_str()),
            None => crate::text::strip_prefix_str(msg.content.as_str(), "b/"),
        };
        match stripped {
            Some(rest) => {
                let toks = tokenize(rest.as_str());
                proof {
                    let p = self.prefix_of(context_of(*msg));
                    assert(rest@ =~= msg.content@.skip(p.len() as int));
                }
                let needs = self.toks_need_perm(&toks);
                RouteDecision::Command { needs_perm: needs }
            },
            None => {
                if !str_eq(msg.author.as_str(), self.user_id.as_str()) {
                    RouteDecision::Chat
                } else {
                    RouteDecision::Ignore
                }
            },
        }
    }

    /// Whether the parsed command demands the manage capability.
    fn toks_need_perm(&self, toks: &Vec<String>) -> (r: bool)
        ensures
            r == needs_perm_toks(toks.deep_view()),
    {
        proof {
            assert(forall|i: int|
                0 <= i < toks@.len() ==> toks.deep_view()[i] == #[trigger] toks@[i]@);
        }
        if toks.len() == 0 {
            return false;
        }
        if str_eq(toks[0].as_str(), "set") {
            return true;
        }
        if str_eq(toks[0].as_str(), "listen") {
            if toks.len() == 1 {
                return true;
            }
            if toks.len() >= 3 && str_eq(toks[1].as_str(), "prob") {
                return true;
            }
            if toks.len() >= 2 && str_eq(toks[1].as_str(), "clear") {
                return true;
            }
            return false;
        }
        false
    }
}

/// What a command run does, given the token list, the queried capability,
/// and the outcome: the reply text, the state change, and whether the sent
/// reply becomes a taunt.
pub open spec fn command_step(
    pre: Bot,
    post: Bot,
    msg: MessageEvent,
    toks: Seq<Seq<char>>,
    perm: Option<bool>,
    out: CommandOutcome,
) -> bool {
    let ctx = context_of(msg);
    let ch = msg.channel_id@;
    if toks.len() == 0 {
        &&& out_text(out, "What do you want?"@)
        &&& post.unchanged(&pre)
    } else if toks[0] == "help"@ {
        &&& post.unchanged(&pre)
        &&& if toks.len() == 1 {
            out_text(out, help_text())
        } else if toks[1] == "poem"@ {
            out_text(out, poem_help_text())
        } else if toks[1] == "listen"@ {
            out_text(out, listen_help_text())
        } else if toks[1] == "fuckyou"@ {
            out_text(out, fuckyou_help_text())
        } else if toks[1] == "gen"@ {
            out_text(out, gen_help_text())
        } else {
            out_insult(out, pre.insults_view(), toks[1])
        }
    } else if toks[0] == "set"@ {
        if perm == Some(false) {
            &&& out_text(out, "not enough permissions"@)
            &&& post.unchanged(&pre)
        } else if toks.len() == 1 {
            &&& out_insult(out, pre.insults_view(), "set"@)
            &&& post.unchanged(&pre)
        } else if toks[1] == "prefix"@ {
            if toks.len() >= 3 {
                &&& post.same_but_prefix(&pre)
                &&& post.prefix_map() == pre.prefix_map().insert(ctx, post.prefix_map()[ctx])
                &&& post.prefix_map()[ctx]@ == toks[2]
                &&& out_text(out, "prefix is now `"@ + toks[2] + "`."@)
            } else {
                &&& out_text(out, "no value"@)
                &&& post.unchanged(&pre)
            }
        } else if toks[1] == "insult"@ {
            let d0 = insult_at(pre.insult_map(), ctx);
            &&& post.same_but_insult(&pre)
            &&& post.insult_map() == pre.insult_map().insert(
                ctx,
                InsultData {
                    message_id: d0.message_id,
                    count_passed: d0.count_passed,
                    enabled: !d0.enabled,
                },
            )
            &&& out_text(
                out,
                if d0.enabled {
                    "turned off insults"@
                } else {
                    "turned on insults"@
                },
            )
        } else {
            &&& out_insult(out, pre.insults_view(), toks[1])
            &&& post.unchanged(&pre)
        }
    } else if toks[0] == "poem"@ {
        let kw = crate::text::join_words(toks.drop_first());
        &&& post.unchanged(&pre)
        &&& !out.record_taunt
        &&& out.reply matches Reply::Text(s)
        &&& (out.reply matches Reply::Text(s) ==> (if kw.len() == 0 {
            is_choice_of(pre.poems_view(), s@)
        } else {
            (exists|i: int|
                crate::poem::is_best_poem(pre.poems_view(), kw, i) && s@ == pre.poems_view()[i])
                || (crate::poem::no_poem_matches(pre.poems_view(), kw) && s@
                == "No poem with those words. Try again, maybe a miracle will occur."@)
        }))
    } else if toks[0] == "fuckyou"@ {
        &&& out.reply is Image
        &&& !out.record_taunt
        &&& post.unchanged(&pre)
    } else if toks[0] == "gen"@ {
        &&& post.unchanged(&pre)
        &&& !out.record_taunt
        &&& out.reply matches Reply::Text(s)
        &&& (out.reply matches Reply::Text(s) ==> (if toks.len() == 1 {
            if pre.markov_map().contains_key(ch) {
                plain_generation(pre.markov_map()[ch].chain.feeds(), Option::None, s@)
            } else {
                s@ == mark_msg()
            }
        } else if toks[1] == "poem"@ {
            crate::poem::is_poem_text(pre.poem_feeds(), s@)
        } else if toks[1] == "token"@ {
            if toks.len() >= 3 {
                if pre.markov_map().contains_key(ch) {
                    plain_generation(pre.markov_map()[ch].chain.feeds(), Some(toks[2]), s@)
                } else {
                    s@ == mark_msg()
                }
            } else {
                s@ == "put a token"@
            }
        } else {
            if !pre.markov_map().contains_key(ch) {
                s@ == mark_msg()
            } else if !pre.markov_map()[ch].per_user@.contains_key(toks[1]) {
                s@ == "User has no messages recorded"@
            } else {
                plain_generation(pre.markov_map()[ch].per_user@[toks[1]].feeds(), Option::None, s@)
            }
        }))
    } else if toks[0] == "listen"@ {
        if toks.len() == 1 {
            if perm == Some(true) {
                &&& post.same_but_markov(&pre)
                &&& post.markov_map() == pre.markov_map().insert(ch, post.markov_map()[ch])
                &&& (pre.markov_map().contains_key(ch) ==> post.markov_map()[ch] == (MarkovData {
                    enabled: !pre.markov_map()[ch].enabled,
                    ..pre.markov_map()[ch]
                }))
                &&& (!pre.markov_map().contains_key(ch) ==> post.markov_map()[ch].enabled)
                &&& out_text(
                    out,
                    if post.markov_map()[ch].enabled {
                        "marked channel"@
                    } else {
                        "unmarked channel"@
                    },
                )
            } else {
                &&& out_text(out, no_perms_msg())
                &&& post.unchanged(&pre)
            }
        } else if toks[1] == "prob"@ {
            if toks.len() >= 3 {
                if perm == Some(true) {
                    &&& post.same_but_markov(&pre)
                    &&& (!pre.markov_map().contains_key(ch) ==> (post.markov_map()
                        == pre.markov_map() && out_text(out, mark_msg())))
                    &&& (pre.markov_map().contains_key(ch) ==> (post.markov_map()
                        == pre.markov_map().insert(
                        ch,
                        MarkovData {
                            probability: prob_of_input(toks[2]) as u8,
                            ..pre.markov_map()[ch]
                        },
                    ) && out_text(
                        out,
                        "Set probability to "@ + dec_str(prob_of_input(toks[2])) + "%"@,
                    )))
                } else {
                    &&& out_text(out, no_perms_msg())
                    &&& post.unchanged(&pre)
                }
            } else {
                &&& post.unchanged(&pre)
                &&& (pre.markov_map().contains_key(ch) ==> out_text(
                    out,
                    "Probability is "@ + dec_str(pre.markov_map()[ch].probability as int) + "%"@,
                ))
                &&& (!pre.markov_map().contains_key(ch) ==> out_text(out, mark_msg()))
            }
        } else if toks[1] == "clear"@ {
            if perm == Some(true) {
                &&& post.same_but_markov(&pre)
                &&& post.markov_map() == pre.markov_map().remove(ch)
                &&& out_text(out, "cleared data"@)
            } else {
                &&& out_text(out, no_perms_msg())
                &&& post.unchanged(&pre)
            }
        } else {
            &&& out_insult(out, pre.insults_view(), toks[1])
            &&& post.unchanged(&pre)
        }
    } else {
        &&& out_insult(out, pre.insults_view(), toks[0])
        &&& post.unchanged(&pre)
    }
}

impl Bot {
    /// Runs one command against the state, the manage capability already
    /// queried where the routing demanded it.
    pub fn run_command(&mut self, msg: &MessageEvent, has_perm: Option<bool>) -> (r:
        CommandOutcome)
        requires
            old(self).wf(),
            old(self).cmd_tokens_of(*msg) is Some,
            needs_perm_toks(old(self).cmd_tokens_of(*msg).unwrap()) ==> has_perm is Some,
        ensures
            final(self).wf(),
            command_step(
                *old(self),
                *final(self),
                *msg,
                old(self).cmd_tokens_of(*msg).unwrap(),
                has_perm,
                r,
            ),
    {
        let ctx_string: String = match &msg.guild_id {
            Some(g) => g.clone(),
            None => msg.channel_id.clone(),
        };
        proof {
            assert(ctx_string@ == context_of(*msg));
        }
        let rest_opt = match self.prefix.get(ctx_string.as_str()) {
            Some(p) => crate::text::strip_prefix_str(msg.content.as_str(), p.as_str()),
            None => crate::text::strip_prefix_str(msg.content.as_str(), "b/"),
        };
        let rest = match rest_opt {
            Some(s) => s,
            None => {
                proof {
                    assert(false);
                }
                String::new()
            },
        };
        let toks = tokenize(rest.as_str());
        let ghost tv = self.cmd_tokens_of(*msg).unwrap();
        proof {
            let p = self.prefix_of(context_of(*msg));
            assert(rest@ =~= msg.content@.skip(p.len() as int));
            assert(toks.deep_view() == tv);
            assert(forall|i: int|
                0 <= i < toks@.len() ==> toks.deep_view()[i] == #[trigger] toks@[i]@);
            lemma_tokens_from_wf(msg.content@.skip(p.len() as int), 0);
        }
        if toks.len() == 0 {
            return CommandOutcome {
                reply: Reply::Text(String::from_str("What do you want?")),
                record_taunt: false,
            };
        }
        if str_eq(toks[0].as_str(), "help") {
            let text: String = if toks.len() == 1 {
                String::from_str(
                    "commands are:\n- `help`: posts this text\n- `poem`: search / get random poem\n- `gen`: generate stuff from markov chains\n- `listen`: markov chain listener management commands\n- `fuckyou`: posts funny \"u mad?\" image\n\nuse `help command` to get more information about a command",
                )
            } else if str_eq(toks[1].as_str(), "poem") {
                String::from_str(
                    "search / get random poem or generate one\n\nif called with no arguments it will get a random poem\narguments are counted as search keywords",
                )
            } else if str_eq(toks[1].as_str(), "listen") {
                String::from_str(
                    "markov chain listener management commands\n\nif called with no arguments it will toggle listen status for the current channel\n\nsubcommands are:\n- `getprob`: get message posting probability value\n- `setprob <value>`: set message posting probability value. must be a percentage. calling it without any argument or invalid argument will set it to `5.0`.",
                )
            } else if str_eq(toks[1].as_str(), "fuckyou") {
                String::from_str("posts funny \"u mad?\" image")
            } else if str_eq(toks[1].as_str(), "gen") {
                String::from_str(
                    "generate stuff from markov chains\n\nif called with no arguments it will generate random text using the channel's markov chain\nif called with a user id it will generate random text using the user's markov chain in this channel\n\nsubcommands are:\n- `poem`: generates a random poem",
                )
            } else {
                let t = self.unrecognised_command(toks[1].as_str());
                return CommandOutcome { reply: Reply::Text(t), record_taunt: true };
            };
            return CommandOutcome { reply: Reply::Text(text), record_taunt: false };
        }
        if str_eq(toks[0].as_str(), "set") {
            let allowed: bool = match has_perm {
                Some(b) => b,
                None => {
                    proof {
                        assert(false);
                    }
                    false
                },
            };
            if !allowed {
                return CommandOutcome {
                    reply: Reply::Text(String::from_str("not enough permissions")),
                    record_taunt: false,
                };
            }
            if toks.len() == 1 {
                let t = self.unrecognised_command("set");
                return CommandOutcome { reply: Reply::Text(t), record_taunt: true };
            }
            if str_eq(toks[1].as_str(), "prefix") {
                if toks.len() >= 3 {
                    self.prefix.insert(ctx_string.clone(), toks[2].clone());
                    proof {
                        assert(self.prefix@ =~= old(self).prefix@.insert(
                            context_of(*msg),
                            self.prefix@[context_of(*msg)],
                        ));
                    }
                    let mut text = String::from_str("prefix is now `");
                    text.append(toks[2].as_str());
                    text.append("`.");
                    return CommandOutcome { reply: Reply::Text(text), record_taunt: false };
                } else {
                    return CommandOutcome {
                        reply: Reply::Text(String::from_str("no value")),
                        record_taunt: false,
                    };
                }
            }
            if str_eq(toks[1].as_str(), "insult") {
                let mut d = match self.insult_data.remove(ctx_string.as_str()) {
                    Some(d) => d,
                    None => InsultData::default(),
                };
                let was = d.enabled;
                d.enabled = !was;
                self.insult_data.insert(ctx_string.clone(), d);
                proof {
                    let d0 = insult_at(old(self).insult_map(), context_of(*msg));
                    assert(self.insult_data@ =~= old(self).insult_data@.insert(
                        context_of(*msg),
                        InsultData {
                            message_id: d0.message_id,
                            count_passed: d0.count_passed,
                            enabled: !d0.enabled,
                        },
                    ));
                }
                let text = if was {
                    String::from_str("turned off insults")
                } else {
                    String::from_str("turned on insults")
                };
                return CommandOutcome { reply: Reply::Text(text), record_taunt: false };
            }
            let t = self.unrecognised_command(toks[1].as_str());
            return CommandOutcome { reply: Reply::Text(t), record_taunt: true };
        }
        if str_eq(toks[0].as_str(), "poem") {
            let kw = crate::text::join_words_from(&toks, 1);
            proof {
                assert(toks.deep_view().skip(1) =~= tv.drop_first());
            }
            let text = self.process_poem_command(kw.as_str());
            return CommandOutcome { reply: Reply::Text(text), record_taunt: false };
        }
        if str_eq(toks[0].as_str(), "fuckyou") {
            return CommandOutcome { reply: Reply::Image, record_taunt: false };
        }
        if str_eq(toks[0].as_str(), "gen") {
            let text: String = if toks.len() == 1 {
                self.gen_message(msg.channel_id.as_str(), None)
            } else if str_eq(toks[1].as_str(), "poem") {
                self.generate_poem()
            } else if str_eq(toks[1].as_str(), "token") {
                if toks.len() >= 3 {
                    proof {
                        assert(crate::text::token_wf(tv[2]));
                    }
                    self.gen_message(msg.channel_id.as_str(), Some(toks[2].clone()))
                } else {
                    String::from_str("put a token")
                }
            } else {
                self.gen_user_message(msg.channel_id.as_str(), toks[1].as_str())
            };
            return CommandOutcome { reply: Reply::Text(text), record_taunt: false };
        }
        if str_eq(toks[0].as_str(), "listen") {
            if toks.len() == 1 {
                let allowed: bool = match has_perm {
                    Some(b) => b,
                    None => {
                        proof {
                            assert(false);
                        }
                        false
                    },
                };
                if allowed {
                    let text = self.markov_toggle_mark_channel(msg.channel_id.as_str());
                    return CommandOutcome { reply: Reply::Text(text), record_taunt: false };
                } else {
                    return CommandOutcome {
                        reply: Reply::Text(
                            String::from_str(
                                "Foolish human, you don't have enough permissions to do this.",
                            ),
                        ),
                        record_taunt: false,
                    };
                }
            }
            if str_eq(toks[1].as_str(), "prob") {
                if toks.len() >= 3 {
                    let allowed: bool = match has_perm {
                        Some(b) => b,
                        None => {
                            proof {
                                assert(false);
                            }
                            false
                        },
                    };
                    if allowed {
                        let text = self.markov_set_prob(
                            msg.channel_id.as_str(),
                            toks[2].as_str(),
                        );
                        return CommandOutcome { reply: Reply::Text(text), record_taunt: false };
                    } else {
                        return CommandOutcome {
                            reply: Reply::Text(
                                String::from_str(
                                    "Foolish human, you don't have enough permissions to do this.",
                                ),
                            ),
                            record_taunt: false,
                        };
                    }
                } else {
                    let text = self.markov_get_prob(msg.channel_id.as_str());
                    return CommandOutcome { reply: Reply::Text(text), record_taunt: false };
                }
            }
            if str_eq(toks[1].as_str(), "clear") {
                let allowed: bool = match has_perm {
                    Some(b) => b,
                    None => {
                        proof {
                            assert(false);
                        }
                        false
                    },
                };
                if allowed {
                    self.mchain.remove(msg.channel_id.as_str());
                    proof {
                        assert forall|k: Seq<char>| #[trigger] self.mchain@.contains_key(
                            k,
                        ) implies self.mchain@[k].wf() by {
                            assert(old(self).mchain@.contains_key(k));
                            assert(self.mchain@[k] == old(self).mchain@[k]);
                        }
                    }
                    return CommandOutcome {
                        reply: Reply::Text(String::from_str("cleared data")),
                        record_taunt: false,
                    };
                } else {
                    return CommandOutcome {
                        reply: Reply::Text(
                            String::from_str(
                                "Foolish human, you don't have enough permissions to do this.",
                            ),
                        ),
                        record_taunt: false,
                    };
                }
            }
            let t = self.unrecognised_command(toks[1].as_str());
            return CommandOutcome { reply: Reply::Text(t), record_taunt: true };
        }
        let t = self.unrecognised_command(toks[0].as_str());
        CommandOutcome { reply: Reply::Text(t), record_taunt: true }
    }
}

/// What the chat flow asks the transport to do for one ordinary message.
pub enum ChatAction {
    /// The message retaliated against the last taunt: send the joke image.
    SendImage,
    /// A proactive taunt fired: send it, then record the sent identifier.
    SendTaunt(String),
    /// An ambient generated reply; the flag asks for threading.
    SendGenerated(String, bool),
    /// Nothing to send.
    Nothing,
}

/// The taunt text carried by an action, if any.
pub open spec fn taunt_of(out: ChatAction) -> Option<String> {
    match out {
        ChatAction::SendTaunt(t) => Some(t),
        _ => Option::None,
    }
}

/// The message retaliates against the channel's last taunt.
pub open spec fn retaliation_of(pre: Bot, msg: MessageEvent) -> bool {
    let ch = msg.channel_id@;
    (msg.referenced_id matches Some(rid) && contains_seq(msg.content@, retaliation_phrase())
        && pre.insult_map().contains_key(ch) && (pre.insult_map()[ch].message_id matches Some(m)
        && m@ == rid@))
}

/// What one ordinary (non-command) message does: it always feeds the
/// channel's model; a retaliation answers with the image; otherwise the
/// insult roll runs, and a miss leaves the floor to the generated reply.
pub open spec fn chat_step_post(pre: Bot, post: Bot, msg: MessageEvent, out: ChatAction) -> bool {
    let ch = msg.channel_id@;
    let toks = tokens_of(msg.content@);
    let retaliation = retaliation_of(pre, msg);
    &&& post.user_id_view() == pre.user_id_view()
    &&& post.prefix_map() == pre.prefix_map()
    &&& post.poems_view() == pre.poems_view()
    &&& post.insults_view() == pre.insults_view()
    &&& (pre.markov_map().contains_key(ch) ==> (post.markov_map() == pre.markov_map().insert(
        ch,
        post.markov_map()[ch],
    ) && crate::model::fed_model(
        pre.markov_map()[ch],
        post.markov_map()[ch],
        msg.author@,
        toks,
    )))
    &&& (!pre.markov_map().contains_key(ch) ==> post.markov_map() == pre.markov_map())
    &&& (retaliation ==> (out is SendImage && post.insult_map() == pre.insult_map()))
    &&& (!retaliation ==> (!(out is SendImage) && exists|roll: int|
        0 <= roll < FIRE_DENOM && #[trigger] insult_roll_step(
            pre.insult_map(),
            post.insult_map(),
            ch,
            pre.insults_view(),
            taunt_of(out),
            roll,
        )))
    &&& (out matches ChatAction::SendGenerated(t, _) ==> crate::model::good_reply(t@))
    &&& (pre.markov_map().contains_key(ch) && !pre.markov_map()[ch].enabled ==> !(out
        is SendGenerated))
    &&& (!pre.markov_map().contains_key(ch) ==> (out is SendImage || out is SendTaunt || out
        is Nothing))
    &&& (!retaliation && !(out is SendTaunt) && pre.markov_map().contains_key(ch)
        && pre.markov_map()[ch].enabled && pre.markov_map()[ch].probability == 100 && (toks.len()
        > 0 || pre.markov_map()[ch].chain.feeds().len() > 0) ==> out is SendGenerated)
}

impl Bot {
    /// Handles one ordinary message: feeds the model, answers retaliation
    /// with the image, else rolls the proactive taunt, else offers the
    /// ambient reply when the probability roll allows one.
    pub fn chat_step(&mut self, msg: &MessageEvent) -> (r: ChatAction)
        requires
            old(self).wf(),
        ensures
            final(self).wf(),
            chat_step_post(*old(self), *final(self), *msg, r),
    {
        let markov = self.markov_try_gen_message(
            msg.channel_id.as_str(),
            msg.content.as_str(),
            msg.author.as_str(),
        );
        let retaliation: bool = match &msg.referenced_id {
            Some(rid) => self.has_insult_response(
                msg.channel_id.as_str(),
                rid.as_str(),
                msg.content.as_str(),
            ),
            None => false,
        };
        if retaliation {
            return ChatAction::SendImage;
        }
        let ghost pre_try = *self;
        let ti = self.try_insult(msg.channel_id.as_str());
        let ghost tio = ti;
        let ghost m_out = markov;
        let out = match ti {
            Some(t) => ChatAction::SendTaunt(t),
            None => {
                match markov {
                    Some(p) => ChatAction::SendGenerated(p.0, p.1),
                    None => ChatAction::Nothing,
                }
            },
        };
        proof {
            let ch = msg.channel_id@;
            assert(pre_try.insult_map() == old(self).insult_map());
            assert(pre_try.insults_view() == old(self).insults_view());
            let roll = choose|roll: int|
                0 <= roll < FIRE_DENOM && insult_roll_step(
                    pre_try.insult_map(),
                    self.insult_map(),
                    ch,
                    pre_try.insults_view(),
                    tio,
                    roll,
                );
            assert(insult_roll_step(
                old(self).insult_map(),
                self.insult_map(),
                ch,
                old(self).insults_view(),
                tio,
                roll,
            ));
            assert(taunt_of(out) == tio);
            assert(insult_roll_step(
                old(self).insult_map(),
                self.insult_map(),
                ch,
                old(self).insults_view(),
                taunt_of(out),
                roll,
            ));
            assert(!retaliation_of(*old(self), *msg));
            assert(self.user_id_view() == old(self).user_id_view());
            assert(self.prefix_map() == old(self).prefix_map());
            assert(self.poems_view() == old(self).poems_view());
            assert(self.insults_view() == old(self).insults_view());
            assert(self.markov_map() == pre_try.markov_map());
            assert(out matches ChatAction::SendGenerated(t, _) ==> crate::model::good_reply(t@));
        }
        out
    }
}

/// The help text for the command list.
pub open spec fn help_text() -> Seq<char> {
    "commands are:\n- `help`: posts this text\n- `poem`: search / get random poem\n- `gen`: generate stuff from markov chains\n- `listen`: markov chain listener management commands\n- `fuckyou`: posts funny \"u mad?\" image\n\nuse `help command` to get more information about a command"@
}

pub open spec fn gen_help_text() -> Seq<char> {
    "generate stuff from markov chains\n\nif called with no arguments it will generate random text using the channel's markov chain\nif called with a user id it will generate random text using the user's markov chain in this channel\n\nsubcommands are:\n- `poem`: generates a random poem"@
}

pub open spec fn poem_help_text() -> Seq<char> {
    "search / get random poem or generate one\n\nif called with no arguments it will get a random poem\narguments are counted as search keywords"@
}

pub open spec fn fuckyou_help_text() -> Seq<char> {
    "posts funny \"u mad?\" image"@
}

pub open spec fn listen_help_text() -> Seq<char> {
    "markov chain listener management commands\n\nif called with no arguments it will toggle listen status for the current channel\n\nsubcommands are:\n- `getprob`: get message posting probability value\n- `setprob <value>`: set message posting probability value. must be a percentage. calling it without any argument or invalid argument will set it to `5.0`."@
}

// --- Persistence: the byte image of the whole state store. ---
/// The form of one insult entry.
pub open spec fn enc_insult_entry(k: Seq<char>, d: InsultData) -> Seq<u8> {
    crate::codec::enc_str(k) + crate::codec::enc_opt_str(crate::codec::opt_str_view(d.message_id))
        + crate::codec::enc_u8(d.count_passed) + crate::codec::enc_bool(d.enabled)
}

/// The form of the prefix entries, in store order.
pub open spec fn enc_prefix_entries(es: Seq<(String, String)>) -> Seq<u8>
    decreases es.len(),
{
    if es.len() == 0 {
        Seq::empty()
    } else {
        crate::codec::enc_str(es[0].0@) + crate::codec::enc_str(es[0].1@) + enc_prefix_entries(
            es.drop_first(),
        )
    }
}

/// The form of the insult entries, in store order.
pub open spec fn enc_insult_entries(es: Seq<(String, InsultData)>) -> Seq<u8>
    decreases es.len(),
{
    if es.len() == 0 {
        Seq::empty()
    } else {
        enc_insult_entry(es[0].0@, es[0].1) + enc_insult_entries(es.drop_first())
    }
}

/// The form of one fed token list.
pub open spec fn enc_tokens(e: Seq<Seq<char>>) -> Seq<u8>
    decreases e.len(),
{
    if e.len() == 0 {
        Seq::empty()
    } else {
        crate::codec::enc_str(e[0]) + enc_tokens(e.drop_first())
    }
}

/// The form of a feed log, entry by entry.
pub open spec fn enc_log_entries(log: Seq<Seq<Seq<char>>>) -> Seq<u8>
    decreases log.len(),
{
    if log.len() == 0 {
        Seq::empty()
    } else {
        crate::codec::le64(log[0].len() as u64) + enc_tokens(log[0]) + enc_log_entries(
            log.drop_first(),
        )
    }
}

/// The form of a text model: its feed log.
pub open spec fn enc_model(m: TextModel) -> Seq<u8> {
    crate::codec::le64(m.log_view().len() as u64) + enc_log_entries(m.log_view())
}

/// The form of the per-author models, in store order.
pub open spec fn enc_user_entries(es: Seq<(String, TextModel)>) -> Seq<u8>
    decreases es.len(),
{
    if es.len() == 0 {
        Seq::empty()
    } else {
        crate::codec::enc_str(es[0].0@) + enc_model(es[0].1) + enc_user_entries(es.drop_first())
    }
}

/// The form of the channel entries, in store order.
pub open spec fn enc_chan_entries(es: Seq<(String, MarkovData)>) -> Seq<u8>
    decreases es.len(),
{
    if es.len() == 0 {
        Seq::empty()
    } else {
        crate::codec::enc_str(es[0].0@) + crate::codec::enc_u8(es[0].1.probability)
            + crate::codec::enc_bool(es[0].1.enabled) + enc_model(es[0].1.chain)
            + crate::codec::le64(es[0].1.per_user.spec_len() as u64) + enc_user_entries(
            es[0].1.per_user.entries_seq(),
        ) + enc_chan_entries(es.drop_first())
    }
}

impl Bot {
    /// The entries of the prefix store, in order.
    pub closed spec fn prefix_entries(&self) -> Seq<(String, String)> {
        self.prefix.entries_seq()
    }

    /// The entries of the insult store, in order.
    pub closed spec fn insult_entries(&self) -> Seq<(String, InsultData)> {
        self.insult_data.entries_seq()
    }

    /// The entries of the generative store, in order.
    pub closed spec fn chan_entries(&self) -> Seq<(String, MarkovData)> {
        self.mchain.entries_seq()
    }
}

/// The store sections of the image: the three counted entry lists.
pub open spec fn enc_bot_sections(a: Bot) -> Seq<u8> {
    crate::codec::le64(a.prefix_entries().len() as u64) + enc_prefix_entries(a.prefix_entries())
        + crate::codec::le64(a.insult_entries().len() as u64) + enc_insult_entries(
        a.insult_entries(),
    ) + crate::codec::le64(a.chan_entries().len() as u64) + enc_chan_entries(a.chan_entries())
}

/// The uncompressed serialization of the whole state of `a`: a function of
/// the state, since models are stored as their feed logs.
pub open spec fn enc_bot_image(a: Bot) -> Seq<u8> {
    crate::codec::enc_str(a.user_id_view()) + enc_bot_sections(a)
}

/// `bytes` is the compressed serialization of the whole state of `a`, whose
/// image is small enough for the compressor's 32-bit length prefix.
pub open spec fn saved_bot_bytes(bytes: Seq<u8>, a: Bot) -> bool {
    &&& enc_bot_image(a).len() < 0x100000000
    &&& bytes == crate::codec::lz4_of(enc_bot_image(a))
}

/// Serializes the prefix entries from position `i` on.
#[verifier::rlimit(100)]
fn encode_prefix_entries_from(m: &StrMap<String>, i: usize) -> (r: Vec<u8>)
    requires
        i <= m.spec_len(),
    ensures
        r@ == enc_prefix_entries(m.entries_seq().skip(i as int)),
    decreases m.spec_len() - i,
{
    if i == m.len() {
        let r: Vec<u8> = Vec::new();
        proof {
            assert(m.entries_seq().skip(i as int) =~= Seq::<(String, String)>::empty());
        }
        r
    } else {
        let pair = m.pair_at(i);
        let mut out: Vec<u8> = Vec::new();
        crate::codec::emit_str(&mut out, &pair.0);
        crate::codec::emit_str(&mut out, &pair.1);
        let mut rest = encode_prefix_entries_from(m, i + 1);
        let ghost restv = rest@;
        out.append(&mut rest);
        proof {
            let es = m.entries_seq().skip(i as int);
            assert(es[0] == m.entries_seq()[i as int]);
            assert(es.drop_first() =~= m.entries_seq().skip(i + 1));
            assert(out@ =~= crate::codec::enc_str(es[0].0@) + crate::codec::enc_str(es[0].1@)
                + restv);
        }
        out
    }
}

/// Serializes the insult entries from position `i` on.
#[verifier::rlimit(100)]
fn encode_insult_entries_from(m: &StrMap<InsultData>, i: usize) -> (r: Vec<u8>)
    requires
        i <= m.spec_len(),
    ensures
        r@ == enc_insult_entries(m.entries_seq().skip(i as int)),
    decreases m.spec_len() - i,
{
    if i == m.len() {
        let r: Vec<u8> = Vec::new();
        proof {
            assert(m.entries_seq().skip(i as int) =~= Seq::<(String, InsultData)>::empty());
        }
        r
    } else {
        let pair = m.pair_at(i);
        let mut out: Vec<u8> = Vec::new();
        crate::codec::emit_str(&mut out, &pair.0);
        crate::codec::emit_opt_str(&mut out, &pair.1.message_id);
        crate::codec::emit_u8(&mut out, pair.1.count_passed);
        crate::codec::emit_bool(&mut out, pair.1.enabled);
        let mut rest = encode_insult_entries_from(m, i + 1);
        let ghost restv = rest@;
        out.append(&mut rest);
        proof {
            let es = m.entries_seq().skip(i as int);
            assert(es[0] == m.entries_seq()[i as int]);
            assert(es.drop_first() =~= m.entries_seq().skip(i + 1));
            assert(out@ =~= enc_insult_entry(es[0].0@, es[0].1) + restv);
        }
        out
    }
}

/// Serializes the tokens of one logged feed call, from position `i` on.
#[verifier::rlimit(100)]
fn encode_tokens_from(e: &Vec<String>, i: usize) -> (r: Vec<u8>)
    requires
        i <= e@.len(),
    ensures
        r@ == enc_tokens(e.deep_view().skip(i as int)),
    decreases e@.len() - i,
{
    if i == e.len() {
        let r: Vec<u8> = Vec::new();
        proof {
            assert(e.deep_view().skip(i as int) =~= Seq::<Seq<char>>::empty());
        }
        r
    } else {
        let mut out: Vec<u8> = Vec::new();
        crate::codec::emit_str(&mut out, &e[i]);
        let mut rest = encode_tokens_from(e, i + 1);
        let ghost restv = rest@;
        out.append(&mut rest);
        proof {
            let es = e.deep_view().skip(i as int);
            assert(es[0] == e.deep_view()[i as int]);
            assert(e.deep_view()[i as int] == e@[i as int]@);
            assert(es.drop_first() =~= e.deep_view().skip(i + 1));
            assert(out@ =~= crate::codec::enc_str(es[0]) + restv);
        }
        out
    }
}

/// Serializes a model's feed log from entry `i` on.
#[verifier::rlimit(100)]
fn encode_log_from(m: &TextModel, i: usize) -> (r: Vec<u8>)
    requires
        i <= m.log_view().len(),
    ensures
        r@ == enc_log_entries(m.log_view().skip(i as int)),
    decreases m.log_view().len() - i,
{
    if i == m.log_len() {
        let r: Vec<u8> = Vec::new();
        proof {
            assert(m.log_view().skip(i as int) =~= Seq::<Seq<Seq<char>>>::empty());
        }
        r
    } else {
        let entry = m.log_entry(i);
        let mut out: Vec<u8> = Vec::new();
        crate::codec::emit_u64(&mut out, entry.len() as u64);
        let mut toks = encode_tokens_from(entry, 0);
        let ghost toksv = toks@;
        out.append(&mut toks);
        let mut rest = encode_log_from(m, i + 1);
        let ghost restv = rest@;
        out.append(&mut rest);
        proof {
            let es = m.log_view().skip(i as int);
            assert(es[0] == m.log_view()[i as int]);
            assert(es.drop_first() =~= m.log_view().skip(i + 1));
            assert(entry.deep_view().skip(0) =~= entry.deep_view());
            assert(entry@.len() == entry.deep_view().len());
            assert(out@ =~= crate::codec::le64(es[0].len() as u64) + enc_tokens(es[0]) + restv);
        }
        out
    }
}

/// Serializes one text model: its feed log.
fn encode_model(m: &TextModel) -> (r: Vec<u8>)
    ensures
        r@ == enc_model(*m),
{
    let mut out: Vec<u8> = Vec::new();
    crate::codec::emit_u64(&mut out, m.log_len() as u64);
    let mut log = encode_log_from(m, 0);
    let ghost logv = log@;
    out.append(&mut log);
    proof {
        assert(m.log_view().skip(0) =~= m.log_view());
        assert(out@ =~= enc_model(*m));
    }
    out
}

/// Serializes the per-author models from position `i` on.
#[verifier::rlimit(100)]
fn encode_user_entries_from(m: &StrMap<TextModel>, i: usize) -> (r: Vec<u8>)
    requires
        i <= m.spec_len(),
    ensures
        r@ == enc_user_entries(m.entries_seq().skip(i as int)),
    decreases m.spec_len() - i,
{
    if i == m.len() {
        let r: Vec<u8> = Vec::new();
        proof {
            assert(m.entries_seq().skip(i as int) =~= Seq::<(String, TextModel)>::empty());
        }
        r
    } else {
        let pair = m.pair_at(i);
        let mut out: Vec<u8> = Vec::new();
        crate::codec::emit_str(&mut out, &pair.0);
        let mut model = encode_model(&pair.1);
        let ghost modelv = model@;
        out.append(&mut model);
        let mut rest = encode_user_entries_from(m, i + 1);
        let ghost restv = rest@;
        out.append(&mut rest);
        proof {
            let es = m.entries_seq().skip(i as int);
            assert(es[0] == m.entries_seq()[i as int]);
            assert(es.drop_first() =~= m.entries_seq().skip(i + 1));
            assert(out@ =~= crate::codec::enc_str(es[0].0@) + enc_model(es[0].1) + restv);
        }
        out
    }
}

/// Serializes the channel entries from position `i` on.
#[verifier::rlimit(100)]
fn encode_chan_entries_from(m: &StrMap<MarkovData>, i: usize) -> (r: Vec<u8>)
    requires
        i <= m.spec_len(),
    ensures
        r@ == enc_chan_entries(m.entries_seq().skip(i as int)),
    decreases m.spec_len() - i,
{
    if i == m.len() {
        let r: Vec<u8> = Vec::new();
        proof {
            assert(m.entries_seq().skip(i as int) =~= Seq::<(String, MarkovData)>::empty());
        }
        r
    } else {
        let pair = m.pair_at(i);
        let mut out: Vec<u8> = Vec::new();
        crate::codec::emit_str(&mut out, &pair.0);
        crate::codec::emit_u8(&mut out, pair.1.probability);
        crate::codec::emit_bool(&mut out, pair.1.enabled);
        let mut model = encode_model(&pair.1.chain);
        let ghost modelv = model@;
        out.append(&mut model);
        crate::codec::emit_u64(&mut out, pair.1.per_user.len() as u64);
        let mut users = encode_user_entries_from(&pair.1.per_user, 0);
        let ghost usersv = users@;
        out.append(&mut users);
        let mut rest = encode_chan_entries_from(m, i + 1);
        let ghost restv = rest@;
        out.append(&mut rest);
        proof {
            let es = m.entries_seq().skip(i as int);
            assert(es[0] == m.entries_seq()[i as int]);
            assert(es.drop_first() =~= m.entries_seq().skip(i + 1));
            assert(es[0].1.per_user.entries_seq().skip(0) =~= es[0].1.per_user.entries_seq());
            assert(out@ =~= crate::codec::enc_str(es[0].0@) + crate::codec::enc_u8(
                es[0].1.probability,
            ) + crate::codec::enc_bool(es[0].1.enabled) + enc_model(es[0].1.chain)
                + crate::codec::le64(es[0].1.per_user.spec_len() as u64) + usersv + restv);
        }
        out
    }
}

impl Bot {
    /// The uncompressed image of the whole state store.
    fn encode_image(&self) -> (r: Vec<u8>)
        ensures
            r@ == enc_bot_image(*self),
    {
        let mut raw: Vec<u8> = Vec::new();
        crate::codec::emit_str(&mut raw, &self.user_id);
        crate::codec::emit_u64(&mut raw, self.prefix.len() as u64);
        let mut part = encode_prefix_entries_from(&self.prefix, 0);
        raw.append(&mut part);
        crate::codec::emit_u64(&mut raw, self.insult_data.len() as u64);
        let mut part2 = encode_insult_entries_from(&self.insult_data, 0);
        raw.append(&mut part2);
        crate::codec::emit_u64(&mut raw, self.mchain.len() as u64);
        let mut part3 = encode_chan_entries_from(&self.mchain, 0);
        raw.append(&mut part3);
        proof {
            assert(self.prefix.entries_seq().skip(0) =~= self.prefix_entries());
            assert(self.insult_data.entries_seq().skip(0) =~= self.insult_entries());
            assert(self.mchain.entries_seq().skip(0) =~= self.chan_entries());
            assert(raw@ =~= enc_bot_image(*self));
        }
        raw
    }

    /// Serializes the whole state store, compressed, ready to be written
    /// out: exactly the compressed form of the state's image. Fails only
    /// when the image has outgrown the compressor's 32-bit length prefix.
    pub fn to_saved_bytes(&self) -> (r: Option<Vec<u8>>)
        requires
            self.wf(),
        ensures
            r matches Some(b) ==> (b@ == crate::codec::lz4_of(enc_bot_image(*self))
                && saved_bot_bytes(b@, *self)),
            r is None ==> enc_bot_image(*self).len() >= 0x100000000,
    {
        let raw = self.encode_image();
        if raw.len() as u64 >= 0x100000000u64 {
            return None;
        }
        Some(crate::codec::lz4_compress(&raw))
    }
}

impl Bot {
    /// The insult cooldown counter of a channel, when an entry exists.
    pub fn insult_count(&self, channel_id: &str) -> (r: Option<u8>)
        requires
            self.wf(),
        ensures
            r matches Some(c) ==> (self.insult_map().contains_key(channel_id@) && c
                == self.insult_map()[channel_id@].count_passed),
            r is None ==> !self.insult_map().contains_key(channel_id@),
    {
        match self.insult_data.get(channel_id) {
            Some(d) => Some(d.count_passed),
            None => None,
        }
    }

    /// Whether proactive taunting is on for a scope, when an entry exists.
    pub fn insults_enabled(&self, context_id: &str) -> (r: Option<bool>)
        requires
            self.wf(),
        ensures
            r matches Some(e) ==> (self.insult_map().contains_key(context_id@) && e
                == self.insult_map()[context_id@].enabled),
            r is None ==> !self.insult_map().contains_key(context_id@),
    {
        match self.insult_data.get(context_id) {
            Some(d) => Some(d.enabled),
            None => None,
        }
    }

    /// Whether a channel is being listened to, when it was ever set up.
    pub fn is_listening(&self, channel_id: &str) -> (r: Option<bool>)
        requires
            self.wf(),
        ensures
            r matches Some(e) ==> (self.markov_map().contains_key(channel_id@) && e
                == self.markov_map()[channel_id@].enabled),
            r is None ==> !self.markov_map().contains_key(channel_id@),
    {
        match self.mchain.get(channel_id) {
            Some(m) => Some(m.enabled),
            None => None,
        }
    }

    /// The stored reply probability of a channel, when it was ever set up.
    pub fn stored_probability(&self, channel_id: &str) -> (r: Option<u8>)
        requires
            self.wf(),
        ensures
            r matches Some(p) ==> (self.markov_map().contains_key(channel_id@) && p
                == self.markov_map()[channel_id@].probability),
            r is None ==> !self.markov_map().contains_key(channel_id@),
    {
        match self.mchain.get(channel_id) {
            Some(m) => Some(m.probability),
            None => None,
        }
    }
}

/// Restores the prefix store from `n` serialized entries.
fn decode_prefix_entries(b: &Vec<u8>, pos: usize, n: u64) -> (r: Option<(StrMap<String>, usize)>)
    requires
        pos <= b@.len(),
    ensures
        r matches Some(p) ==> (p.0.wf() && pos <= p.1 <= b@.len()),
        n == 0 ==> (r matches Some(p) && p.1 == pos && p.0.spec_len() == 0),
{
    let mut m = StrMap::<String>::new();
    if n == 0 {
        return Some((m, pos));
    }
    let mut i: u64 = 0;
    let mut p = pos;
    while i < n
        invariant
            m.wf(),
            pos <= p <= b@.len(),
        decreases n - i,
    {
        let (k, p1) = match crate::codec::parse_str(b, p) {
            Some(x) => x,
            None => {
                return None;
            },
        };
        let (v, p2) = match crate::codec::parse_str(b, p1) {
            Some(x) => x,
            None => {
                return None;
            },
        };
        m.insert(k, v);
        p = p2;
        i += 1;
    }
    Some((m, p))
}

/// Restores the insult store from `n` serialized entries; a counter below 1
/// or a probability-breaking entry rejects the image.
fn decode_insult_entries(b: &Vec<u8>, pos: usize, n: u64) -> (r: Option<
    (StrMap<InsultData>, usize),
>)
    requires
        pos <= b@.len(),
    ensures
        r matches Some(p) ==> (p.0.wf() && pos <= p.1 <= b@.len() && (forall|k: Seq<char>|
            #[trigger] p.0@.contains_key(k) ==> p.0@[k].count_passed >= 1)),
        n == 0 ==> (r matches Some(p) && p.1 == pos && p.0.spec_len() == 0),
{
    let mut m = StrMap::<InsultData>::new();
    if n == 0 {
        return Some((m, pos));
    }
    let mut i: u64 = 0;
    let mut p = pos;
    while i < n
        invariant
            m.wf(),
            pos <= p <= b@.len(),
            forall|k: Seq<char>| #[trigger] m@.contains_key(k) ==> m@[k].count_passed >= 1,
        decreases n - i,
    {
        let (k, p1) = match crate::codec::parse_str(b, p) {
            Some(x) => x,
            None => {
                return None;
            },
        };
        let (mid, p2) = match crate::codec::parse_opt_str(b, p1) {
            Some(x) => x,
            None => {
                return None;
            },
        };
        let (count, p3) = match crate::codec::parse_u8(b, p2) {
            Some(x) => x,
            None => {
                return None;
            },
        };
        if count < 1 {
            return None;
        }
        let (enabled, p4) = match crate::codec::parse_bool(b, p3) {
            Some(x) => x,
            None => {
                return None;
            },
        };
        let ghost kview = k@;
        let ghost prevm = m@;
        m.insert(k, InsultData { message_id: mid, count_passed: count, enabled });
        proof {
            assert forall|q: Seq<char>| #[trigger] m@.contains_key(q) implies m@[q].count_passed
                >= 1 by {
                if q != kview {
                    assert(prevm.contains_key(q));
                    assert(m@[q] == prevm[q]);
                }
            }
        }
        p = p4;
        i += 1;
    }
    Some((m, p))
}

/// Restores one fed token list of `n` tokens; a malformed token rejects the
/// image.
fn decode_tokens(b: &Vec<u8>, pos: usize, n: u64) -> (r: Option<(Vec<String>, usize)>)
    requires
        pos <= b@.len(),
    ensures
        r matches Some(p) ==> (pos <= p.1 <= b@.len() && crate::text::all_tokens_wf(
            p.0.deep_view(),
        ) && p.0.deep_view().len() == n),
{
    let mut out: Vec<String> = Vec::new();
    let mut i: u64 = 0;
    let mut p = pos;
    while i < n
        invariant
            i <= n,
            pos <= p <= b@.len(),
            out.deep_view().len() == i,
            crate::text::all_tokens_wf(out.deep_view()),
        decreases n - i,
    {
        let (t, p1) = match crate::codec::parse_str(b, p) {
            Some(x) => x,
            None => {
                return None;
            },
        };
        if !crate::text::token_is_wf(t.as_str()) {
            return None;
        }
        let ghost prev = out.deep_view();
        out.push(t);
        proof {
            assert(out.deep_view() =~= prev.push(t@));
            assert forall|q: int| 0 <= q < out.deep_view().len() implies crate::text::token_wf(
                #[trigger] out.deep_view()[q],
            ) by {
                if q < prev.len() {
                    assert(out.deep_view()[q] == prev[q]);
                }
            }
        }
        p = p1;
        i += 1;
    }
    Some((out, p))
}

/// Restores one text model from its feed log, re-feeding a fresh chain; an
/// empty logged feed rejects the image.
fn decode_model(b: &Vec<u8>, pos: usize) -> (r: Option<(TextModel, usize)>)
    requires
        pos <= b@.len(),
    ensures
        r matches Some(p) ==> (p.0.wf() && pos <= p.1 <= b@.len()),
{
    let (count, p0) = match crate::codec::parse_u64(b, pos) {
        Some(x) => x,
        None => {
            return None;
        },
    };
    let mut log: Vec<Vec<String>> = Vec::new();
    let mut i: u64 = 0;
    let mut p = p0;
    while i < count
        invariant
            pos <= p <= b@.len(),
            log_wf(log.deep_view()),
        decreases count - i,
    {
        let (tn, p1) = match crate::codec::parse_u64(b, p) {
            Some(x) => x,
            None => {
                return None;
            },
        };
        if tn == 0 {
            return None;
        }
        let (toks, p2) = match decode_tokens(b, p1, tn) {
            Some(x) => x,
            None => {
                return None;
            },
        };
        let ghost prev = log.deep_view();
        log.push(toks);
        proof {
            assert(log.deep_view() =~= prev.push(log@[log@.len() - 1].deep_view()));
            assert forall|q: int| 0 <= q < log.deep_view().len() implies ((
            #[trigger] log.deep_view()[q]).len() > 0 && crate::text::all_tokens_wf(
                log.deep_view()[q],
            )) by {
                if q < prev.len() {
                    assert(log.deep_view()[q] == prev[q]);
                }
            }
        }
        p = p2;
        i += 1;
    }
    Some((TextModel::from_log(log), p))
}

/// Restores the per-author models from `n` serialized entries.
fn decode_user_entries(b: &Vec<u8>, pos: usize, n: u64) -> (r: Option<(StrMap<TextModel>, usize)>)
    requires
        pos <= b@.len(),
    ensures
        r matches Some(p) ==> (p.0.wf() && pos <= p.1 <= b@.len() && (forall|k: Seq<char>|
            #[trigger] p.0@.contains_key(k) ==> p.0@[k].wf())),
{
    let mut m = StrMap::<TextModel>::new();
    let mut i: u64 = 0;
    let mut p = pos;
    while i < n
        invariant
            m.wf(),
            pos <= p <= b@.len(),
            forall|k: Seq<char>| #[trigger] m@.contains_key(k) ==> m@[k].wf(),
        decreases n - i,
    {
        let (k, p1) = match crate::codec::parse_str(b, p) {
            Some(x) => x,
            None => {
                return None;
            },
        };
        let (model, p2) = match decode_model(b, p1) {
            Some(x) => x,
            None => {
                return None;
            },
        };
        let ghost kview = k@;
        let ghost prevm = m@;
        m.insert(k, model);
        proof {
            assert forall|q: Seq<char>| #[trigger] m@.contains_key(q) implies m@[q].wf() by {
                if q != kview {
                    assert(prevm.contains_key(q));
                    assert(m@[q] == prevm[q]);
                }
            }
        }
        p = p2;
        i += 1;
    }
    Some((m, p))
}

/// Restores the generative store from `n` serialized entries; a probability
/// above 100 rejects the image.
fn decode_chan_entries(b: &Vec<u8>, pos: usize, n: u64) -> (r: Option<(StrMap<MarkovData>, usize)>)
    requires
        pos <= b@.len(),
    ensures
        r matches Some(p) ==> (p.0.wf() && pos <= p.1 <= b@.len() && (forall|k: Seq<char>|
            #[trigger] p.0@.contains_key(k) ==> p.0@[k].wf())),
        n == 0 ==> (r matches Some(p) && p.1 == pos && p.0.spec_len() == 0),
{
    let mut m = StrMap::<MarkovData>::new();
    if n == 0 {
        return Some((m, pos));
    }
    let mut i: u64 = 0;
    let mut p = pos;
    while i < n
        invariant
            m.wf(),
            pos <= p <= b@.len(),
            forall|k: Seq<char>| #[trigger] m@.contains_key(k) ==> m@[k].wf(),
        decreases n - i,
    {
        let (k, p1) = match crate::codec::parse_str(b, p) {
            Some(x) => x,
            None => {
                return None;
            },
        };
        let (prob, p2) = match crate::codec::parse_u8(b, p1) {
            Some(x) => x,
            None => {
                return None;
            },
        };
        if prob > 100 {
            return None;
        }
        let (enabled, p3) = match crate::codec::parse_bool(b, p2) {
            Some(x) => x,
            None => {
                return None;
            },
        };
        let (chain, p4) = match decode_model(b, p3) {
            Some(x) => x,
            None => {
                return None;
            },
        };
        let (ucount, p5) = match crate::codec::parse_u64(b, p4) {
            Some(x) => x,
            None => {
                return None;
            },
        };
        let (per_user, p6) = match decode_user_entries(b, p5, ucount) {
            Some(x) => x,
            None => {
                return None;
            },
        };
        let md = MarkovData { probability: prob, enabled, chain, per_user };
        proof {
            assert(md.wf());
        }
        let ghost kview = k@;
        let ghost prevm = m@;
        m.insert(k, md);
        proof {
            assert forall|q: Seq<char>| #[trigger] m@.contains_key(q) implies m@[q].wf() by {
                if q != kview {
                    assert(prevm.contains_key(q));
                    assert(m@[q] == prevm[q]);
                }
            }
        }
        p = p6;
        i += 1;
    }
    Some((m, p))
}

/// `bytes` is the compressed image of a freshly initialized state: some
/// identifier and three empty stores, small enough for the compressor.
pub open spec fn fresh_image_bytes(bytes: Seq<u8>, uid: Seq<char>) -> bool {
    &&& 8 + 4 * uid.len() + 24 < 0x100000000
    &&& bytes == crate::codec::lz4_of(
        crate::codec::enc_str(uid) + crate::codec::le64(0) + crate::codec::le64(0)
            + crate::codec::le64(0),
    )
}

impl Bot {
    /// Restores the state store from a saved image, supplying the corpora
    /// anew; a corrupt image yields `None`, for the caller to start fresh.
    /// The restored state re-serializes to byte-for-byte the image it was
    /// read from, so every saved bot the bytes could stand for has the same
    /// image as the restored one; the image of a freshly initialized state
    /// always restores.
    pub fn from_saved_bytes(bytes: &Vec<u8>, poems: Vec<String>, insults: Vec<String>) -> (r:
        Option<Bot>)
        requires
            poems@.len() > 0,
            insults@.len() > 0,
        ensures
            r matches Some(bot) ==> (bot.wf() && bot.poems_view() == poems.deep_view()
                && bot.insults_view() == insults.deep_view()),
            r matches Some(bot) ==> (forall|a: Bot| #[trigger]
                saved_bot_bytes(bytes@, a) ==> enc_bot_image(bot) == enc_bot_image(a)),
            r matches Some(bot) ==> (forall|a: Bot| #[trigger]
                saved_bot_bytes(bytes@, a) ==> (bot.user_id_view() == a.user_id_view()
                    && str_maps_match(bot.prefix_map(), a.prefix_map()) && insult_maps_match(
                    bot.insult_map(),
                    a.insult_map(),
                ) && chan_maps_match(bot.markov_map(), a.markov_map()))),
            r is None ==> (forall|uid: Seq<char>| !#[trigger] fresh_image_bytes(bytes@, uid)),
    {
        let ghost zeros = crate::codec::le64(0) + crate::codec::le64(0) + crate::codec::le64(0);
        let raw = match crate::codec::lz4_decompress(bytes) {
            Some(v) => v,
            None => {
                proof {
                    assert forall|uid: Seq<char>| !#[trigger] fresh_image_bytes(
                        bytes@,
                        uid,
                    ) by {
                        if fresh_image_bytes(bytes@, uid) {
                            assert(crate::codec::enc_str(uid) + zeros
                                =~= crate::codec::enc_str(uid) + crate::codec::le64(0)
                                + crate::codec::le64(0) + crate::codec::le64(0));
                            crate::codec::lemma_enc_chars_len(uid);
                            assert((crate::codec::enc_str(uid) + zeros).len() < 0x100000000);
                            assert(bytes@ == crate::codec::lz4_of(
                                crate::codec::enc_str(uid) + zeros,
                            ));
                        }
                    }
                }
                return None;
            },
        };
        proof {
            assert(raw@.len() == raw.len());
            assert forall|uid: Seq<char>| #[trigger]
                fresh_image_bytes(bytes@, uid) implies raw@ == crate::codec::enc_str(uid)
                + zeros by {
                assert(crate::codec::enc_str(uid) + zeros =~= crate::codec::enc_str(uid)
                    + crate::codec::le64(0) + crate::codec::le64(0) + crate::codec::le64(0));
                crate::codec::lemma_enc_chars_len(uid);
                assert((crate::codec::enc_str(uid) + zeros).len() < 0x100000000);
                assert(bytes@ == crate::codec::lz4_of(crate::codec::enc_str(uid) + zeros));
            }
        }
        let (user_id, p0) = match crate::codec::parse_str(&raw, 0) {
            Some(x) => x,
            None => {
                proof {
                    assert forall|uid: Seq<char>| !#[trigger] fresh_image_bytes(
                        bytes@,
                        uid,
                    ) by {
                        if fresh_image_bytes(bytes@, uid) {
                            assert(raw@.subrange(0, raw@.len() as int) == crate::codec::enc_str(
                                uid,
                            ) + zeros);
                            assert(crate::codec::valid_str_at(raw@, 0));
                        }
                    }
                }
                return None;
            },
        };
        proof {
            assert forall|uid: Seq<char>| #[trigger]
                fresh_image_bytes(bytes@, uid) implies (user_id@ == uid && raw@.subrange(
                p0 as int,
                raw@.len() as int,
            ) == zeros && p0 + 24 == raw@.len()) by {
                assert(raw@ =~= raw@.subrange(0, p0 as int) + raw@.subrange(
                    p0 as int,
                    raw@.len() as int,
                ));
                assert(crate::codec::enc_str(user_id@) + raw@.subrange(
                    p0 as int,
                    raw@.len() as int,
                ) == crate::codec::enc_str(uid) + zeros);
                assert(user_id@.len() <= 0xffffffffffffffff) by {
                    crate::codec::lemma_enc_chars_len(user_id@);
                }
                crate::codec::lemma_enc_str_det(
                    user_id@,
                    raw@.subrange(p0 as int, raw@.len() as int),
                    uid,
                    zeros,
                );
            }
        }
        let (np, p1) = match crate::codec::parse_u64(&raw, p0) {
            Some(x) => x,
            None => {
                proof {
                    assert forall|uid: Seq<char>| !#[trigger] fresh_image_bytes(
                        bytes@,
                        uid,
                    ) by {}
                }
                return None;
            },
        };
        proof {
            assert forall|uid: Seq<char>| #[trigger] fresh_image_bytes(bytes@, uid) implies np
                == 0 by {
                assert(raw@.subrange(p0 as int, p0 + 8) =~= crate::codec::le64(0)) by {
                    assert forall|q: int|
                        0 <= q < 8 implies #[trigger] raw@.subrange(p0 as int, p0 + 8)[q]
                        == raw@.subrange(p0 as int, raw@.len() as int)[q] by {
                        assert(raw@.subrange(p0 as int, p0 + 8)[q] == raw@[p0 + q]);
                    }
                }
                crate::codec::lemma_le64_inj(np, 0);
            }
        }
        let (prefix, p2) = match decode_prefix_entries(&raw, p1, np) {
            Some(x) => x,
            None => {
                proof {
                    assert forall|uid: Seq<char>| !#[trigger] fresh_image_bytes(
                        bytes@,
                        uid,
                    ) by {}
                }
                return None;
            },
        };
        let (ni, p3) = match crate::codec::parse_u64(&raw, p2) {
            Some(x) => x,
            None => {
                proof {
                    assert forall|uid: Seq<char>| !#[trigger] fresh_image_bytes(
                        bytes@,
                        uid,
                    ) by {}
                }
                return None;
            },
        };
        proof {
            assert forall|uid: Seq<char>| #[trigger] fresh_image_bytes(bytes@, uid) implies ni
                == 0 by {
                assert(p2 == p0 + 8);
                assert(raw@.subrange(p2 as int, p2 + 8) =~= crate::codec::le64(0)) by {
                    assert forall|q: int|
                        0 <= q < 8 implies #[trigger] raw@.subrange(p2 as int, p2 + 8)[q]
                        == raw@.subrange(p0 as int, raw@.len() as int)[8 + q] by {
                        assert(raw@.subrange(p2 as int, p2 + 8)[q] == raw@[p2 + q]);
                    }
                }
                crate::codec::lemma_le64_inj(ni, 0);
            }
        }
        let (insult_data, p4) = match decode_insult_entries(&raw, p3, ni) {
            Some(x) => x,
            None => {
                proof {
                    assert forall|uid: Seq<char>| !#[trigger] fresh_image_bytes(
                        bytes@,
                        uid,
                    ) by {}
                }
                return None;
            },
        };
        let (nc, p5) = match crate::codec::parse_u64(&raw, p4) {
            Some(x) => x,
            None => {
                proof {
                    assert forall|uid: Seq<char>| !#[trigger] fresh_image_bytes(
                        bytes@,
                        uid,
                    ) by {}
                }
                return None;
            },
        };
        proof {
            assert forall|uid: Seq<char>| #[trigger] fresh_image_bytes(bytes@, uid) implies nc
                == 0 by {
                assert(p4 == p0 + 16);
                assert(raw@.subrange(p4 as int, p4 + 8) =~= crate::codec::le64(0)) by {
                    assert forall|q: int|
                        0 <= q < 8 implies #[trigger] raw@.subrange(p4 as int, p4 + 8)[q]
                        == raw@.subrange(p0 as int, raw@.len() as int)[16 + q] by {
                        assert(raw@.subrange(p4 as int, p4 + 8)[q] == raw@[p4 + q]);
                    }
                }
                crate::codec::lemma_le64_inj(nc, 0);
            }
        }
        let (mchain, _p6) = match decode_chan_entries(&raw, p5, nc) {
            Some(x) => x,
            None => {
                proof {
                    assert forall|uid: Seq<char>| !#[trigger] fresh_image_bytes(
                        bytes@,
                        uid,
                    ) by {}
                }
                return None;
            },
        };
        let poem_chain = default_poem_chain(&poems);
        let bot = Bot { user_id, insult_data, mchain, prefix, poem_chain, poems, insults };
        let raw2 = bot.encode_image();
        if !crate::codec::bytes_eq(&raw2, &raw) {
            proof {
                assert forall|uid: Seq<char>| !#[trigger] fresh_image_bytes(bytes@, uid) by {
                    if fresh_image_bytes(bytes@, uid) {
                        assert(bot.prefix_entries().len() == 0);
                        assert(bot.insult_entries().len() == 0);
                        assert(bot.chan_entries().len() == 0);
                        assert(enc_prefix_entries(bot.prefix_entries()) =~= Seq::<u8>::empty());
                        assert(enc_insult_entries(bot.insult_entries()) =~= Seq::<u8>::empty());
                        assert(enc_chan_entries(bot.chan_entries()) =~= Seq::<u8>::empty());
                        assert(raw2@ =~= crate::codec::enc_str(uid) + zeros);
                        assert(raw2@ =~= raw@);
                    }
                }
            }
            return None;
        }
        proof {
            assert forall|a: Bot| #[trigger] saved_bot_bytes(bytes@, a) implies (enc_bot_image(
                bot,
            ) == enc_bot_image(a) && bot.user_id_view() == a.user_id_view() && str_maps_match(
                bot.prefix_map(),
                a.prefix_map(),
            ) && insult_maps_match(bot.insult_map(), a.insult_map()) && chan_maps_match(
                bot.markov_map(),
                a.markov_map(),
            )) by {
                assert(bytes@ == crate::codec::lz4_of(enc_bot_image(a)));
                assert(raw@ == enc_bot_image(a));
                assert(raw2@ == enc_bot_image(bot));
                assert(enc_bot_image(bot).len() <= 0xffffffffffffffff);
                assert(bot.user_id_view().len() <= 0xffffffffffffffff
                    && a.user_id_view().len() <= 0xffffffffffffffff) by {
                    crate::codec::lemma_enc_chars_len(bot.user_id_view());
                    crate::codec::lemma_enc_chars_len(a.user_id_view());
                }
                lemma_image_fixes_user_id(bot, a);
                lemma_image_fixes_prefixes(bot, a);
                lemma_image_fixes_insults(bot, a);
                lemma_image_fixes_channels(bot, a);
            }
        }
        Some(bot)
    }
}

/// Each prefix entry takes at least sixteen bytes in the image.
proof fn lemma_enc_prefix_entries_min_len(es: Seq<(String, String)>)
    ensures
        enc_prefix_entries(es).len() >= 16 * es.len(),
    decreases es.len(),
{
    if es.len() > 0 {
        lemma_enc_prefix_entries_min_len(es.drop_first());
    }
}

/// A prefix section followed by anything determines each entry's text and
/// the rest, entry count given.
proof fn lemma_enc_prefix_entries_det(
    e1: Seq<(String, String)>,
    r1: Seq<u8>,
    e2: Seq<(String, String)>,
    r2: Seq<u8>,
)
    requires
        e1.len() == e2.len(),
        (enc_prefix_entries(e1) + r1).len() <= 0xffffffffffffffff,
        enc_prefix_entries(e1) + r1 == enc_prefix_entries(e2) + r2,
    ensures
        forall|i: int|
            0 <= i < e1.len() ==> ((#[trigger] e1[i]).0@ == e2[i].0@ && e1[i].1@ == e2[i].1@),
        r1 == r2,
    decreases e1.len(),
{
    if e1.len() == 0 {
        assert(r1 =~= enc_prefix_entries(e1) + r1);
        assert(r2 =~= enc_prefix_entries(e2) + r2);
    } else {
        let s = enc_prefix_entries(e1) + r1;
        let k1 = e1[0].0@;
        let k2 = e2[0].0@;
        let v1 = e1[0].1@;
        let v2 = e2[0].1@;
        let tail1 = crate::codec::enc_str(v1) + (enc_prefix_entries(e1.drop_first()) + r1);
        let tail2 = crate::codec::enc_str(v2) + (enc_prefix_entries(e2.drop_first()) + r2);
        assert(s == crate::codec::enc_str(k1) + tail1) by {
            assert(s =~= crate::codec::enc_str(k1) + tail1);
        }
        assert(s == crate::codec::enc_str(k2) + tail2) by {
            assert((enc_prefix_entries(e2) + r2) =~= crate::codec::enc_str(k2) + tail2);
        }
        assert(k1.len() <= 0xffffffffffffffff && k2.len() <= 0xffffffffffffffff) by {
            crate::codec::lemma_enc_chars_len(k1);
            crate::codec::lemma_enc_chars_len(k2);
        }
        crate::codec::lemma_enc_str_det(k1, tail1, k2, tail2);
        assert(v1.len() <= 0xffffffffffffffff && v2.len() <= 0xffffffffffffffff) by {
            crate::codec::lemma_enc_chars_len(v1);
            crate::codec::lemma_enc_chars_len(v2);
        }
        crate::codec::lemma_enc_str_det(
            v1,
            enc_prefix_entries(e1.drop_first()) + r1,
            v2,
            enc_prefix_entries(e2.drop_first()) + r2,
        );
        assert(e1.drop_first().len() == e2.drop_first().len());
        assert((enc_prefix_entries(e1.drop_first()) + r1).len() <= 0xffffffffffffffff);
        lemma_enc_prefix_entries_det(e1.drop_first(), r1, e2.drop_first(), r2);
        assert forall|i: int|
            0 <= i < e1.len() implies ((#[trigger] e1[i]).0@ == e2[i].0@ && e1[i].1@
            == e2[i].1@) by {
            if i > 0 {
                assert(e1[i] == e1.drop_first()[i - 1]);
                assert(e2[i] == e2.drop_first()[i - 1]);
            }
        }
    }
}

/// Two string maps agree: same keys, and values equal character for
/// character.
pub open spec fn str_maps_match(m1: Map<Seq<char>, String>, m2: Map<Seq<char>, String>) -> bool {
    &&& forall|k: Seq<char>| #[trigger] m1.contains_key(k) ==> m2.contains_key(k)
    &&& forall|k: Seq<char>| #[trigger] m2.contains_key(k) ==> m1.contains_key(k)
    &&& forall|k: Seq<char>| #[trigger] m1.contains_key(k) ==> m1[k]@ == m2[k]@
}

/// Entry lists with equal views denote matching maps.
proof fn lemma_map_of_views_match(e1: Seq<(String, String)>, e2: Seq<(String, String)>)
    requires
        e1.len() == e2.len(),
        forall|i: int|
            0 <= i < e1.len() ==> ((#[trigger] e1[i]).0@ == e2[i].0@ && e1[i].1@ == e2[i].1@),
    ensures
        str_maps_match(crate::strmap::map_of(e1), crate::strmap::map_of(e2)),
    decreases e1.len(),
{
    if e1.len() > 0 {
        let p1 = e1.drop_last();
        let p2 = e2.drop_last();
        assert(forall|i: int| 0 <= i < p1.len() ==> p1[i] == #[trigger] e1[i]);
        assert(forall|i: int| 0 <= i < p2.len() ==> p2[i] == #[trigger] e2[i]);
        lemma_map_of_views_match(p1, p2);
        assert(e1.last() == e1[e1.len() - 1]);
        assert(e2.last() == e2[e2.len() - 1]);
    }
}

/// Two states with the same image configure every scope's prefix alike.
#[verifier::rlimit(100)]
pub proof fn lemma_image_fixes_prefixes(a: Bot, b: Bot)
    requires
        enc_bot_image(a).len() <= 0xffffffffffffffff,
        enc_bot_image(a) == enc_bot_image(b),
    ensures
        str_maps_match(a.prefix_map(), b.prefix_map()),
{
    let sa = enc_bot_sections(a);
    let sb = enc_bot_sections(b);
    assert(a.user_id_view().len() <= 0xffffffffffffffff && b.user_id_view().len()
        <= 0xffffffffffffffff) by {
        crate::codec::lemma_enc_chars_len(a.user_id_view());
        crate::codec::lemma_enc_chars_len(b.user_id_view());
    }
    crate::codec::lemma_enc_str_det(a.user_id_view(), sa, b.user_id_view(), sb);
    let pa = a.prefix_entries();
    let pb = b.prefix_entries();
    let ta = enc_prefix_entries(pa) + (crate::codec::le64(a.insult_entries().len() as u64)
        + enc_insult_entries(a.insult_entries()) + crate::codec::le64(
        a.chan_entries().len() as u64,
    ) + enc_chan_entries(a.chan_entries()));
    let tb = enc_prefix_entries(pb) + (crate::codec::le64(b.insult_entries().len() as u64)
        + enc_insult_entries(b.insult_entries()) + crate::codec::le64(
        b.chan_entries().len() as u64,
    ) + enc_chan_entries(b.chan_entries()));
    assert(sa == crate::codec::le64(pa.len() as u64) + ta) by {
        assert(sa =~= crate::codec::le64(pa.len() as u64) + ta);
    }
    assert(sb == crate::codec::le64(pb.len() as u64) + tb) by {
        assert(sb =~= crate::codec::le64(pb.len() as u64) + tb);
    }
    assert(crate::codec::le64(pa.len() as u64) =~= sa.subrange(0, 8));
    assert(crate::codec::le64(pb.len() as u64) =~= sa.subrange(0, 8)) by {
        assert(sb == sa);
    }
    crate::codec::lemma_le64_inj(pa.len() as u64, pb.len() as u64);
    assert(pa.len() == pb.len()) by {
        lemma_enc_prefix_entries_min_len(pa);
        lemma_enc_prefix_entries_min_len(pb);
    }
    assert(ta =~= tb) by {
        assert forall|i: int| 0 <= i < ta.len() implies ta[i] == tb[i] by {
            assert((crate::codec::le64(pa.len() as u64) + ta)[8 + i] == ta[i]);
            assert((crate::codec::le64(pb.len() as u64) + tb)[8 + i] == tb[i]);
            assert(sa[8 + i] == ta[i]);
            assert(sb[8 + i] == tb[i]);
        }
    }
    lemma_enc_prefix_entries_det(
        pa,
        crate::codec::le64(a.insult_entries().len() as u64) + enc_insult_entries(
            a.insult_entries(),
        ) + crate::codec::le64(a.chan_entries().len() as u64) + enc_chan_entries(
            a.chan_entries(),
        ),
        pb,
        crate::codec::le64(b.insult_entries().len() as u64) + enc_insult_entries(
            b.insult_entries(),
        ) + crate::codec::le64(b.chan_entries().len() as u64) + enc_chan_entries(
            b.chan_entries(),
        ),
    );
    lemma_map_of_views_match(pa, pb);
    a.prefix.lemma_view_is_map_of();
    b.prefix.lemma_view_is_map_of();
}

/// An optional-string form followed by anything determines both.
#[verifier::rlimit(100)]
proof fn lemma_enc_opt_str_det(
    o1: Option<Seq<char>>,
    r1: Seq<u8>,
    o2: Option<Seq<char>>,
    r2: Seq<u8>,
)
    requires
        (crate::codec::enc_opt_str(o1) + r1).len() <= 0xffffffffffffffff,
        crate::codec::enc_opt_str(o1) + r1 == crate::codec::enc_opt_str(o2) + r2,
    ensures
        o1 == o2,
        r1 == r2,
{
    let s = crate::codec::enc_opt_str(o1) + r1;
    match (o1, o2) {
        (Option::None, Option::None) => {
            assert(s == seq![0u8] + r1) by {
                assert(s =~= seq![0u8] + r1);
            }
            assert(s == seq![0u8] + r2) by {
                assert((crate::codec::enc_opt_str(o2) + r2) =~= seq![0u8] + r2);
            }
            assert(r1 =~= r2) by {
                assert forall|i: int| 0 <= i < r1.len() implies r1[i] == r2[i] by {
                    assert((seq![0u8] + r1)[1 + i] == r1[i]);
                    assert((seq![0u8] + r2)[1 + i] == r2[i]);
                    assert(s[1 + i] == r1[i]);
                    assert(s == seq![0u8] + r2);
                    assert(s[1 + i] == r2[i]);
                }
            }
        },
        (Option::None, Some(s2)) => {
            assert(s[0] == 0);
            assert((crate::codec::enc_opt_str(o2) + r2)[0] == 1);
        },
        (Some(s1), Option::None) => {
            assert(s[0] == 1);
            assert((crate::codec::enc_opt_str(o2) + r2)[0] == 0);
        },
        (Some(s1), Some(s2)) => {
            let t1 = crate::codec::enc_str(s1) + r1;
            let t2 = crate::codec::enc_str(s2) + r2;
            assert(s == seq![1u8] + t1) by {
                assert(s =~= seq![1u8] + t1);
            }
            assert(s == seq![1u8] + t2) by {
                assert((crate::codec::enc_opt_str(o2) + r2) =~= seq![1u8] + t2);
            }
            assert(t1 =~= t2) by {
                assert forall|i: int| 0 <= i < t1.len() implies t1[i] == t2[i] by {
                    assert((seq![1u8] + t1)[1 + i] == t1[i]);
                    assert((seq![1u8] + t2)[1 + i] == t2[i]);
                    assert(s[1 + i] == t1[i]);
                    assert(s == seq![1u8] + t2);
                    assert(s[1 + i] == t2[i]);
                }
            }
            assert(s1.len() <= 0xffffffffffffffff && s2.len() <= 0xffffffffffffffff) by {
                crate::codec::lemma_enc_chars_len(s1);
                crate::codec::lemma_enc_chars_len(s2);
            }
            crate::codec::lemma_enc_str_det(s1, r1, s2, r2);
        },
    }
}

/// Each insult entry takes at least eleven bytes in the image.
proof fn lemma_enc_insult_entries_min_len(es: Seq<(String, InsultData)>)
    ensures
        enc_insult_entries(es).len() >= 11 * es.len(),
    decreases es.len(),
{
    if es.len() > 0 {
        lemma_enc_insult_entries_min_len(es.drop_first());
    }
}

/// An insult section followed by anything determines each entry's fields
/// and the rest, entry count given.
#[verifier::rlimit(100)]
proof fn lemma_enc_insult_entries_det(
    e1: Seq<(String, InsultData)>,
    r1: Seq<u8>,
    e2: Seq<(String, InsultData)>,
    r2: Seq<u8>,
)
    requires
        e1.len() == e2.len(),
        (enc_insult_entries(e1) + r1).len() <= 0xffffffffffffffff,
        enc_insult_entries(e1) + r1 == enc_insult_entries(e2) + r2,
    ensures
        forall|i: int|
            0 <= i < e1.len() ==> ((#[trigger] e1[i]).0@ == e2[i].0@ && crate::codec::opt_str_view(
                e1[i].1.message_id,
            ) == crate::codec::opt_str_view(e2[i].1.message_id) && e1[i].1.count_passed
                == e2[i].1.count_passed && e1[i].1.enabled == e2[i].1.enabled),
        r1 == r2,
    decreases e1.len(),
{
    broadcast use crate::codec::lemma_le32_len, crate::codec::lemma_le64_len;

    if e1.len() == 0 {
        assert(r1 =~= enc_insult_entries(e1) + r1);
        assert(r2 =~= enc_insult_entries(e2) + r2);
    } else {
        let s = enc_insult_entries(e1) + r1;
        let k1 = e1[0].0@;
        let k2 = e2[0].0@;
        let d1 = e1[0].1;
        let d2 = e2[0].1;
        let mid1 = crate::codec::opt_str_view(d1.message_id);
        let mid2 = crate::codec::opt_str_view(d2.message_id);
        let after1 = crate::codec::enc_u8(d1.count_passed) + crate::codec::enc_bool(d1.enabled) + (
        enc_insult_entries(e1.drop_first()) + r1);
        let after2 = crate::codec::enc_u8(d2.count_passed) + crate::codec::enc_bool(d2.enabled) + (
        enc_insult_entries(e2.drop_first()) + r2);
        let tail1 = crate::codec::enc_opt_str(mid1) + after1;
        let tail2 = crate::codec::enc_opt_str(mid2) + after2;
        assert(s == crate::codec::enc_str(k1) + tail1) by {
            assert(s =~= crate::codec::enc_str(k1) + tail1);
        }
        assert(s == crate::codec::enc_str(k2) + tail2) by {
            assert((enc_insult_entries(e2) + r2) =~= crate::codec::enc_str(k2) + tail2);
        }
        assert(k1.len() <= 0xffffffffffffffff && k2.len() <= 0xffffffffffffffff) by {
            crate::codec::lemma_enc_chars_len(k1);
            crate::codec::lemma_enc_chars_len(k2);
        }
        crate::codec::lemma_enc_str_det(k1, tail1, k2, tail2);
        lemma_enc_opt_str_det(mid1, after1, mid2, after2);
        assert(after1[0] == d1.count_passed && after1[1] == (if d1.enabled {
            1u8
        } else {
            0u8
        })) by {
            assert(after1 =~= seq![
                d1.count_passed,
                if d1.enabled {
                    1u8
                } else {
                    0u8
                },
            ] + (enc_insult_entries(e1.drop_first()) + r1));
        }
        assert(after2[0] == d2.count_passed && after2[1] == (if d2.enabled {
            1u8
        } else {
            0u8
        })) by {
            assert(after2 =~= seq![
                d2.count_passed,
                if d2.enabled {
                    1u8
                } else {
                    0u8
                },
            ] + (enc_insult_entries(e2.drop_first()) + r2));
        }
        assert(d1.count_passed == d2.count_passed);
        assert(d1.enabled == d2.enabled);
        let rest1 = enc_insult_entries(e1.drop_first()) + r1;
        let rest2 = enc_insult_entries(e2.drop_first()) + r2;
        assert(after1.len() == 2 + rest1.len());
        assert(after2.len() == 2 + rest2.len());
        assert(rest1 =~= rest2) by {
            assert forall|i: int| 0 <= i < rest1.len() implies rest1[i] == rest2[i] by {
                assert(after1[2 + i] == rest1[i]) by {
                    assert(after1 == seq![
                        d1.count_passed,
                        if d1.enabled {
                            1u8
                        } else {
                            0u8
                        },
                    ] + rest1);
                }
                assert(after2[2 + i] == rest2[i]) by {
                    assert(after2 == seq![
                        d2.count_passed,
                        if d2.enabled {
                            1u8
                        } else {
                            0u8
                        },
                    ] + rest2);
                }
                assert(after1 == after2);
            }
        }
        assert(e1.drop_first().len() == e2.drop_first().len());
        lemma_enc_insult_entries_det(e1.drop_first(), r1, e2.drop_first(), r2);
        assert forall|i: int|
            0 <= i < e1.len() implies ((#[trigger] e1[i]).0@ == e2[i].0@
            && crate::codec::opt_str_view(e1[i].1.message_id) == crate::codec::opt_str_view(
            e2[i].1.message_id,
        ) && e1[i].1.count_passed == e2[i].1.count_passed && e1[i].1.enabled
            == e2[i].1.enabled) by {
            if i > 0 {
                assert(e1[i] == e1.drop_first()[i - 1]);
                assert(e2[i] == e2.drop_first()[i - 1]);
            }
        }
    }
}

/// Two insult stores agree: same channels, and each channel's counter, flag
/// and last-taunt identifier are equal.
pub open spec fn insult_maps_match(
    m1: Map<Seq<char>, InsultData>,
    m2: Map<Seq<char>, InsultData>,
) -> bool {
    &&& forall|k: Seq<char>| #[trigger] m1.contains_key(k) ==> m2.contains_key(k)
    &&& forall|k: Seq<char>| #[trigger] m2.contains_key(k) ==> m1.contains_key(k)
    &&& forall|k: Seq<char>| #[trigger]
        m1.contains_key(k) ==> (m1[k].count_passed == m2[k].count_passed && m1[k].enabled
            == m2[k].enabled && crate::codec::opt_str_view(m1[k].message_id)
            == crate::codec::opt_str_view(m2[k].message_id))
}

/// Insult entry lists with equal fields denote matching stores.
proof fn lemma_map_of_insult_views_match(e1: Seq<(String, InsultData)>, e2: Seq<(String, InsultData)>)
    requires
        e1.len() == e2.len(),
        forall|i: int|
            0 <= i < e1.len() ==> ((#[trigger] e1[i]).0@ == e2[i].0@ && crate::codec::opt_str_view(
                e1[i].1.message_id,
            ) == crate::codec::opt_str_view(e2[i].1.message_id) && e1[i].1.count_passed
                == e2[i].1.count_passed && e1[i].1.enabled == e2[i].1.enabled),
    ensures
        insult_maps_match(crate::strmap::map_of(e1), crate::strmap::map_of(e2)),
    decreases e1.len(),
{
    if e1.len() > 0 {
        let p1 = e1.drop_last();
        let p2 = e2.drop_last();
        assert(forall|i: int| 0 <= i < p1.len() ==> p1[i] == #[trigger] e1[i]);
        assert(forall|i: int| 0 <= i < p2.len() ==> p2[i] == #[trigger] e2[i]);
        lemma_map_of_insult_views_match(p1, p2);
        assert(e1.last() == e1[e1.len() - 1]);
        assert(e2.last() == e2[e2.len() - 1]);
    }
}

/// The image section from the insult store on.
pub open spec fn insult_onward(a: Bot) -> Seq<u8> {
    crate::codec::le64(a.insult_entries().len() as u64) + enc_insult_entries(a.insult_entries())
        + crate::codec::le64(a.chan_entries().len() as u64) + enc_chan_entries(a.chan_entries())
}

/// Equal images agree from the insult store on: the identifier and the
/// prefix section peel off deterministically.
#[verifier::rlimit(100)]
proof fn lemma_image_prefix_peel(a: Bot, b: Bot)
    requires
        enc_bot_image(a).len() <= 0xffffffffffffffff,
        enc_bot_image(a) == enc_bot_image(b),
    ensures
        insult_onward(a) == insult_onward(b),
        insult_onward(a).len() <= 0xffffffffffffffff,
{
    broadcast use crate::codec::lemma_le32_len, crate::codec::lemma_le64_len;

    let sa = enc_bot_sections(a);
    let sb = enc_bot_sections(b);
    assert(a.user_id_view().len() <= 0xffffffffffffffff && b.user_id_view().len()
        <= 0xffffffffffffffff) by {
        crate::codec::lemma_enc_chars_len(a.user_id_view());
        crate::codec::lemma_enc_chars_len(b.user_id_view());
    }
    crate::codec::lemma_enc_str_det(a.user_id_view(), sa, b.user_id_view(), sb);
    let pa = a.prefix_entries();
    let pb = b.prefix_entries();
    let resta = insult_onward(a);
    let restb = insult_onward(b);
    assert(sa == crate::codec::le64(pa.len() as u64) + (enc_prefix_entries(pa) + resta)) by {
        assert(sa =~= crate::codec::le64(pa.len() as u64) + (enc_prefix_entries(pa) + resta));
    }
    assert(sb == crate::codec::le64(pb.len() as u64) + (enc_prefix_entries(pb) + restb)) by {
        assert(sb =~= crate::codec::le64(pb.len() as u64) + (enc_prefix_entries(pb) + restb));
    }
    assert(crate::codec::le64(pa.len() as u64) =~= sa.subrange(0, 8));
    assert(crate::codec::le64(pb.len() as u64) =~= sa.subrange(0, 8)) by {
        assert(sb == sa);
    }
    crate::codec::lemma_le64_inj(pa.len() as u64, pb.len() as u64);
    assert(pa.len() == pb.len()) by {
        lemma_enc_prefix_entries_min_len(pa);
        lemma_enc_prefix_entries_min_len(pb);
    }
    let pblock_a = enc_prefix_entries(pa) + resta;
    let pblock_b = enc_prefix_entries(pb) + restb;
    assert(sa.len() == 8 + pblock_a.len());
    assert(sa.len() == 8 + pblock_b.len()) by {
        assert(sb == crate::codec::le64(pb.len() as u64) + pblock_b);
    }
    assert(pblock_a =~= pblock_b) by {
        assert forall|i: int| 0 <= i < pblock_a.len() implies pblock_a[i] == pblock_b[i] by {
            assert((crate::codec::le64(pa.len() as u64) + pblock_a)[8 + i] == pblock_a[i]);
            assert((crate::codec::le64(pb.len() as u64) + pblock_b)[8 + i] == pblock_b[i]);
            assert(sa[8 + i] == pblock_a[i]);
            assert(sb == crate::codec::le64(pb.len() as u64) + pblock_b);
            assert(sb[8 + i] == pblock_b[i]);
        }
    }
    lemma_enc_prefix_entries_det(pa, resta, pb, restb);
}

/// Two states with the same image hold the same insult state for every
/// channel: counter, flag and last-taunt identifier.
#[verifier::rlimit(100)]
pub proof fn lemma_image_fixes_insults(a: Bot, b: Bot)
    requires
        enc_bot_image(a).len() <= 0xffffffffffffffff,
        enc_bot_image(a) == enc_bot_image(b),
    ensures
        insult_maps_match(a.insult_map(), b.insult_map()),
{
    broadcast use crate::codec::lemma_le32_len, crate::codec::lemma_le64_len;

    lemma_image_prefix_peel(a, b);
    let resta = insult_onward(a);
    let restb = insult_onward(b);
    let ia = a.insult_entries();
    let ib = b.insult_entries();
    assert(crate::codec::le64(ia.len() as u64) =~= resta.subrange(0, 8));
    assert(crate::codec::le64(ib.len() as u64) =~= resta.subrange(0, 8)) by {
        assert(restb == resta);
    }
    crate::codec::lemma_le64_inj(ia.len() as u64, ib.len() as u64);
    assert(ia.len() == ib.len()) by {
        lemma_enc_insult_entries_min_len(ia);
        lemma_enc_insult_entries_min_len(ib);
    }
    let tail_a = crate::codec::le64(a.chan_entries().len() as u64) + enc_chan_entries(
        a.chan_entries(),
    );
    let tail_b = crate::codec::le64(b.chan_entries().len() as u64) + enc_chan_entries(
        b.chan_entries(),
    );
    let iblock_a = enc_insult_entries(ia) + tail_a;
    let iblock_b = enc_insult_entries(ib) + tail_b;
    assert(resta == crate::codec::le64(ia.len() as u64) + iblock_a) by {
        assert(resta =~= crate::codec::le64(ia.len() as u64) + iblock_a);
    }
    assert(restb == crate::codec::le64(ib.len() as u64) + iblock_b) by {
        assert(restb =~= crate::codec::le64(ib.len() as u64) + iblock_b);
    }
    assert(resta.len() == 8 + iblock_a.len());
    assert(resta.len() == 8 + iblock_b.len()) by {
        assert(restb == resta);
    }
    assert(iblock_a =~= iblock_b) by {
        assert forall|i: int| 0 <= i < iblock_a.len() implies iblock_a[i] == iblock_b[i] by {
            assert((crate::codec::le64(ia.len() as u64) + iblock_a)[8 + i] == iblock_a[i]);
            assert((crate::codec::le64(ib.len() as u64) + iblock_b)[8 + i] == iblock_b[i]);
            assert(resta[8 + i] == iblock_a[i]);
            assert(restb == resta);
            assert(restb[8 + i] == iblock_b[i]);
        }
    }
    lemma_enc_insult_entries_det(ia, tail_a, ib, tail_b);
    lemma_map_of_insult_views_match(ia, ib);
    a.insult_data.lemma_view_is_map_of();
    b.insult_data.lemma_view_is_map_of();
}

/// Each token takes at least eight bytes in the image.
proof fn lemma_enc_tokens_min_len(e: Seq<Seq<char>>)
    ensures
        enc_tokens(e).len() >= 8 * e.len(),
    decreases e.len(),
{
    broadcast use crate::codec::lemma_le32_len, crate::codec::lemma_le64_len;

    if e.len() > 0 {
        lemma_enc_tokens_min_len(e.drop_first());
    }
}

/// A token list followed by anything determines the tokens and the rest,
/// token count given.
#[verifier::rlimit(100)]
proof fn lemma_enc_tokens_det(e1: Seq<Seq<char>>, r1: Seq<u8>, e2: Seq<Seq<char>>, r2: Seq<u8>)
    requires
        e1.len() == e2.len(),
        (enc_tokens(e1) + r1).len() <= 0xffffffffffffffff,
        enc_tokens(e1) + r1 == enc_tokens(e2) + r2,
    ensures
        e1 == e2,
        r1 == r2,
    decreases e1.len(),
{
    if e1.len() == 0 {
        assert(e1 =~= e2);
        assert(r1 =~= enc_tokens(e1) + r1);
        assert(r2 =~= enc_tokens(e2) + r2);
    } else {
        let s = enc_tokens(e1) + r1;
        let tail1 = enc_tokens(e1.drop_first()) + r1;
        let tail2 = enc_tokens(e2.drop_first()) + r2;
        assert(s == crate::codec::enc_str(e1[0]) + tail1) by {
            assert(s =~= crate::codec::enc_str(e1[0]) + tail1);
        }
        assert(s == crate::codec::enc_str(e2[0]) + tail2) by {
            assert((enc_tokens(e2) + r2) =~= crate::codec::enc_str(e2[0]) + tail2);
        }
        assert(e1[0].len() <= 0xffffffffffffffff && e2[0].len() <= 0xffffffffffffffff) by {
            crate::codec::lemma_enc_chars_len(e1[0]);
            crate::codec::lemma_enc_chars_len(e2[0]);
        }
        crate::codec::lemma_enc_str_det(e1[0], tail1, e2[0], tail2);
        lemma_enc_tokens_det(e1.drop_first(), r1, e2.drop_first(), r2);
        assert(e1 =~= e2) by {
            assert(forall|i: int|
                1 <= i < e1.len() ==> (#[trigger] e1[i]) == e1.drop_first()[i - 1]);
            assert(forall|i: int|
                1 <= i < e2.len() ==> (#[trigger] e2[i]) == e2.drop_first()[i - 1]);
        }
    }
}

/// Each logged feed takes at least eight bytes in the image.
proof fn lemma_enc_log_entries_min_len(log: Seq<Seq<Seq<char>>>)
    ensures
        enc_log_entries(log).len() >= 8 * log.len(),
    decreases log.len(),
{
    broadcast use crate::codec::lemma_le32_len, crate::codec::lemma_le64_len;

    if log.len() > 0 {
        lemma_enc_log_entries_min_len(log.drop_first());
    }
}

/// A feed log followed by anything determines the log and the rest, entry
/// count given.
#[verifier::rlimit(100)]
proof fn lemma_enc_log_entries_det(
    l1: Seq<Seq<Seq<char>>>,
    r1: Seq<u8>,
    l2: Seq<Seq<Seq<char>>>,
    r2: Seq<u8>,
)
    requires
        l1.len() == l2.len(),
        (enc_log_entries(l1) + r1).len() <= 0xffffffffffffffff,
        enc_log_entries(l1) + r1 == enc_log_entries(l2) + r2,
    ensures
        l1 == l2,
        r1 == r2,
    decreases l1.len(),
{
    broadcast use crate::codec::lemma_le32_len, crate::codec::lemma_le64_len;

    if l1.len() == 0 {
        assert(l1 =~= l2);
        assert(r1 =~= enc_log_entries(l1) + r1);
        assert(r2 =~= enc_log_entries(l2) + r2);
    } else {
        let s = enc_log_entries(l1) + r1;
        let tail1 = enc_tokens(l1[0]) + (enc_log_entries(l1.drop_first()) + r1);
        let tail2 = enc_tokens(l2[0]) + (enc_log_entries(l2.drop_first()) + r2);
        assert(s == crate::codec::le64(l1[0].len() as u64) + tail1) by {
            assert(s =~= crate::codec::le64(l1[0].len() as u64) + tail1);
        }
        assert(s == crate::codec::le64(l2[0].len() as u64) + tail2) by {
            assert((enc_log_entries(l2) + r2) =~= crate::codec::le64(l2[0].len() as u64) + tail2);
        }
        assert(crate::codec::le64(l1[0].len() as u64) =~= s.subrange(0, 8));
        assert(crate::codec::le64(l2[0].len() as u64) =~= s.subrange(0, 8)) by {
            assert(s == crate::codec::le64(l2[0].len() as u64) + tail2);
        }
        crate::codec::lemma_le64_inj(l1[0].len() as u64, l2[0].len() as u64);
        assert(l1[0].len() == l2[0].len()) by {
            lemma_enc_tokens_min_len(l1[0]);
            lemma_enc_tokens_min_len(l2[0]);
        }
        assert(s.len() == 8 + tail1.len());
        assert(s.len() == 8 + tail2.len()) by {
            assert(s == crate::codec::le64(l2[0].len() as u64) + tail2);
        }
        assert(tail1 =~= tail2) by {
            assert forall|i: int| 0 <= i < tail1.len() implies tail1[i] == tail2[i] by {
                assert((crate::codec::le64(l1[0].len() as u64) + tail1)[8 + i] == tail1[i]);
                assert((crate::codec::le64(l2[0].len() as u64) + tail2)[8 + i] == tail2[i]);
                assert(s[8 + i] == tail1[i]);
                assert(s == crate::codec::le64(l2[0].len() as u64) + tail2);
                assert(s[8 + i] == tail2[i]);
            }
        }
        lemma_enc_tokens_det(
            l1[0],
            enc_log_entries(l1.drop_first()) + r1,
            l2[0],
            enc_log_entries(l2.drop_first()) + r2,
        );
        lemma_enc_log_entries_det(l1.drop_first(), r1, l2.drop_first(), r2);
        assert(l1 =~= l2) by {
            assert(forall|i: int|
                1 <= i < l1.len() ==> (#[trigger] l1[i]) == l1.drop_first()[i - 1]);
            assert(forall|i: int|
                1 <= i < l2.len() ==> (#[trigger] l2[i]) == l2.drop_first()[i - 1]);
        }
    }
}

/// A model form followed by anything determines the model's feed log and
/// the rest.
#[verifier::rlimit(100)]
proof fn lemma_enc_model_det(m1: TextModel, r1: Seq<u8>, m2: TextModel, r2: Seq<u8>)
    requires
        (enc_model(m1) + r1).len() <= 0xffffffffffffffff,
        enc_model(m1) + r1 == enc_model(m2) + r2,
    ensures
        m1.log_view() == m2.log_view(),
        r1 == r2,
{
    broadcast use crate::codec::lemma_le32_len, crate::codec::lemma_le64_len;

    let s = enc_model(m1) + r1;
    let tail1 = enc_log_entries(m1.log_view()) + r1;
    let tail2 = enc_log_entries(m2.log_view()) + r2;
    assert(s == crate::codec::le64(m1.log_view().len() as u64) + tail1) by {
        assert(s =~= crate::codec::le64(m1.log_view().len() as u64) + tail1);
    }
    assert(s == crate::codec::le64(m2.log_view().len() as u64) + tail2) by {
        assert((enc_model(m2) + r2) =~= crate::codec::le64(m2.log_view().len() as u64) + tail2);
    }
    assert(crate::codec::le64(m1.log_view().len() as u64) =~= s.subrange(0, 8));
    assert(crate::codec::le64(m2.log_view().len() as u64) =~= s.subrange(0, 8)) by {
        assert(s == crate::codec::le64(m2.log_view().len() as u64) + tail2);
    }
    crate::codec::lemma_le64_inj(m1.log_view().len() as u64, m2.log_view().len() as u64);
    assert(m1.log_view().len() == m2.log_view().len()) by {
        lemma_enc_log_entries_min_len(m1.log_view());
        lemma_enc_log_entries_min_len(m2.log_view());
    }
    assert(s.len() == 8 + tail1.len());
    assert(s.len() == 8 + tail2.len()) by {
        assert(s == crate::codec::le64(m2.log_view().len() as u64) + tail2);
    }
    assert(tail1 =~= tail2) by {
        assert forall|i: int| 0 <= i < tail1.len() implies tail1[i] == tail2[i] by {
            assert((crate::codec::le64(m1.log_view().len() as u64) + tail1)[8 + i] == tail1[i]);
            assert((crate::codec::le64(m2.log_view().len() as u64) + tail2)[8 + i] == tail2[i]);
            assert(s[8 + i] == tail1[i]);
            assert(s == crate::codec::le64(m2.log_view().len() as u64) + tail2);
            assert(s[8 + i] == tail2[i]);
        }
    }
    lemma_enc_log_entries_det(m1.log_view(), r1, m2.log_view(), r2);
}

/// Each per-author entry takes at least sixteen bytes in the image.
proof fn lemma_enc_user_entries_min_len(es: Seq<(String, TextModel)>)
    ensures
        enc_user_entries(es).len() >= 16 * es.len(),
    decreases es.len(),
{
    broadcast use crate::codec::lemma_le32_len, crate::codec::lemma_le64_len;

    if es.len() > 0 {
        lemma_enc_user_entries_min_len(es.drop_first());
    }
}

/// A per-author section followed by anything determines each author's feed
/// log and the rest, entry count given.
#[verifier::rlimit(100)]
proof fn lemma_enc_user_entries_det(
    e1: Seq<(String, TextModel)>,
    r1: Seq<u8>,
    e2: Seq<(String, TextModel)>,
    r2: Seq<u8>,
)
    requires
        e1.len() == e2.len(),
        (enc_user_entries(e1) + r1).len() <= 0xffffffffffffffff,
        enc_user_entries(e1) + r1 == enc_user_entries(e2) + r2,
    ensures
        forall|i: int|
            0 <= i < e1.len() ==> ((#[trigger] e1[i]).0@ == e2[i].0@ && e1[i].1.log_view()
                == e2[i].1.log_view()),
        r1 == r2,
    decreases e1.len(),
{
    if e1.len() == 0 {
        assert(r1 =~= enc_user_entries(e1) + r1);
        assert(r2 =~= enc_user_entries(e2) + r2);
    } else {
        let s = enc_user_entries(e1) + r1;
        let tail1 = enc_model(e1[0].1) + (enc_user_entries(e1.drop_first()) + r1);
        let tail2 = enc_model(e2[0].1) + (enc_user_entries(e2.drop_first()) + r2);
        assert(s == crate::codec::enc_str(e1[0].0@) + tail1) by {
            assert(s =~= crate::codec::enc_str(e1[0].0@) + tail1);
        }
        assert(s == crate::codec::enc_str(e2[0].0@) + tail2) by {
            assert((enc_user_entries(e2) + r2) =~= crate::codec::enc_str(e2[0].0@) + tail2);
        }
        assert(e1[0].0@.len() <= 0xffffffffffffffff && e2[0].0@.len() <= 0xffffffffffffffff) by {
            crate::codec::lemma_enc_chars_len(e1[0].0@);
            crate::codec::lemma_enc_chars_len(e2[0].0@);
        }
        crate::codec::lemma_enc_str_det(e1[0].0@, tail1, e2[0].0@, tail2);
        lemma_enc_model_det(
            e1[0].1,
            enc_user_entries(e1.drop_first()) + r1,
            e2[0].1,
            enc_user_entries(e2.drop_first()) + r2,
        );
        lemma_enc_user_entries_det(e1.drop_first(), r1, e2.drop_first(), r2);
        assert forall|i: int|
            0 <= i < e1.len() implies ((#[trigger] e1[i]).0@ == e2[i].0@ && e1[i].1.log_view()
            == e2[i].1.log_view()) by {
            if i > 0 {
                assert(e1[i] == e1.drop_first()[i - 1]);
                assert(e2[i] == e2.drop_first()[i - 1]);
            }
        }
    }
}

/// Each channel entry takes at least twenty-six bytes in the image.
proof fn lemma_enc_chan_entries_min_len(es: Seq<(String, MarkovData)>)
    ensures
        enc_chan_entries(es).len() >= 26 * es.len(),
    decreases es.len(),
{
    broadcast use crate::codec::lemma_le32_len, crate::codec::lemma_le64_len;

    if es.len() > 0 {
        lemma_enc_chan_entries_min_len(es.drop_first());
    }
}

/// One channel entry of the image matches another: same key, settings, feed
/// log, and per-author logs.
pub open spec fn chan_entry_match(x: (String, MarkovData), y: (String, MarkovData)) -> bool {
    &&& x.0@ == y.0@
    &&& x.1.probability == y.1.probability
    &&& x.1.enabled == y.1.enabled
    &&& x.1.chain.log_view() == y.1.chain.log_view()
    &&& x.1.per_user.entries_seq().len() == y.1.per_user.entries_seq().len()
    &&& forall|j: int|
        0 <= j < x.1.per_user.entries_seq().len() ==> (((#[trigger] x.1.per_user.entries_seq()[j]).0@
            == y.1.per_user.entries_seq()[j].0@) && (x.1.per_user.entries_seq()[j].1.log_view()
            == y.1.per_user.entries_seq()[j].1.log_view()))
}

/// The image bytes of one channel entry.
pub open spec fn enc_chan_head(x: (String, MarkovData)) -> Seq<u8> {
    crate::codec::enc_str(x.0@) + crate::codec::enc_u8(x.1.probability) + crate::codec::enc_bool(
        x.1.enabled,
    ) + enc_model(x.1.chain) + crate::codec::le64(x.1.per_user.spec_len() as u64)
        + enc_user_entries(x.1.per_user.entries_seq())
}

/// One channel entry followed by anything determines the entry and the
/// rest.
#[verifier::rlimit(100)]
proof fn lemma_enc_chan_head_det(
    x: (String, MarkovData),
    rec1: Seq<u8>,
    y: (String, MarkovData),
    rec2: Seq<u8>,
)
    requires
        (enc_chan_head(x) + rec1).len() <= 0xffffffffffffffff,
        enc_chan_head(x) + rec1 == enc_chan_head(y) + rec2,
    ensures
        chan_entry_match(x, y),
        rec1 == rec2,
{
    broadcast use crate::codec::lemma_le32_len, crate::codec::lemma_le64_len;

    let s = enc_chan_head(x) + rec1;
    let d1 = x.1;
    let d2 = y.1;
    let us1 = enc_user_entries(d1.per_user.entries_seq()) + rec1;
    let us2 = enc_user_entries(d2.per_user.entries_seq()) + rec2;
    let ub1 = crate::codec::le64(d1.per_user.spec_len() as u64) + us1;
    let ub2 = crate::codec::le64(d2.per_user.spec_len() as u64) + us2;
    let mid1 = enc_model(d1.chain) + ub1;
    let mid2 = enc_model(d2.chain) + ub2;
    let pair1 = seq![
        d1.probability,
        if d1.enabled {
            1u8
        } else {
            0u8
        },
    ];
    let pair2 = seq![
        d2.probability,
        if d2.enabled {
            1u8
        } else {
            0u8
        },
    ];
    let after1 = pair1 + mid1;
    let after2 = pair2 + mid2;
    assert(s == crate::codec::enc_str(x.0@) + after1) by {
        assert(s =~= crate::codec::enc_str(x.0@) + after1);
    }
    assert(s == crate::codec::enc_str(y.0@) + after2) by {
        assert((enc_chan_head(y) + rec2) =~= crate::codec::enc_str(y.0@) + after2);
    }
    assert(x.0@.len() <= 0xffffffffffffffff && y.0@.len() <= 0xffffffffffffffff) by {
        crate::codec::lemma_enc_chars_len(x.0@);
        crate::codec::lemma_enc_chars_len(y.0@);
    }
    crate::codec::lemma_enc_str_det(x.0@, after1, y.0@, after2);
    assert(after1[0] == d1.probability && after1[1] == pair1[1]);
    assert(after2[0] == d2.probability && after2[1] == pair2[1]);
    assert(d1.probability == d2.probability);
    assert(d1.enabled == d2.enabled);
    assert(after1.len() == 2 + mid1.len());
    assert(after2.len() == 2 + mid2.len());
    assert(mid1 =~= mid2) by {
        assert forall|i: int| 0 <= i < mid1.len() implies mid1[i] == mid2[i] by {
            assert((pair1 + mid1)[2 + i] == mid1[i]);
            assert((pair2 + mid2)[2 + i] == mid2[i]);
            assert(after1[2 + i] == mid1[i]);
            assert(after1 == after2);
            assert(after2[2 + i] == mid2[i]);
        }
    }
    lemma_enc_model_det(d1.chain, ub1, d2.chain, ub2);
    assert(crate::codec::le64(d1.per_user.spec_len() as u64) =~= ub1.subrange(0, 8));
    assert(crate::codec::le64(d2.per_user.spec_len() as u64) =~= ub1.subrange(0, 8)) by {
        assert(ub2 == ub1);
    }
    crate::codec::lemma_le64_inj(d1.per_user.spec_len() as u64, d2.per_user.spec_len() as u64);
    assert(d1.per_user.spec_len() == d2.per_user.spec_len()) by {
        lemma_enc_user_entries_min_len(d1.per_user.entries_seq());
        lemma_enc_user_entries_min_len(d2.per_user.entries_seq());
    }
    assert(ub1.len() == 8 + us1.len());
    assert(ub1.len() == 8 + us2.len()) by {
        assert(ub2 == ub1);
    }
    assert(us1 =~= us2) by {
        assert forall|i: int| 0 <= i < us1.len() implies us1[i] == us2[i] by {
            assert((crate::codec::le64(d1.per_user.spec_len() as u64) + us1)[8 + i] == us1[i]);
            assert((crate::codec::le64(d2.per_user.spec_len() as u64) + us2)[8 + i] == us2[i]);
            assert(ub1[8 + i] == us1[i]);
            assert(ub2 == ub1);
            assert(ub2[8 + i] == us2[i]);
        }
    }
    lemma_enc_user_entries_det(
        d1.per_user.entries_seq(),
        rec1,
        d2.per_user.entries_seq(),
        rec2,
    );
}

/// A channel section followed by anything determines each entry and the
/// rest, entry count given.
#[verifier::rlimit(100)]
proof fn lemma_enc_chan_entries_det(
    e1: Seq<(String, MarkovData)>,
    r1: Seq<u8>,
    e2: Seq<(String, MarkovData)>,
    r2: Seq<u8>,
)
    requires
        e1.len() == e2.len(),
        (enc_chan_entries(e1) + r1).len() <= 0xffffffffffffffff,
        enc_chan_entries(e1) + r1 == enc_chan_entries(e2) + r2,
    ensures
        forall|i: int| 0 <= i < e1.len() ==> chan_entry_match(#[trigger] e1[i], e2[i]),
        r1 == r2,
    decreases e1.len(),
{
    if e1.len() == 0 {
        assert(r1 =~= enc_chan_entries(e1) + r1);
        assert(r2 =~= enc_chan_entries(e2) + r2);
    } else {
        let rec1 = enc_chan_entries(e1.drop_first()) + r1;
        let rec2 = enc_chan_entries(e2.drop_first()) + r2;
        assert(enc_chan_entries(e1) + r1 == enc_chan_head(e1[0]) + rec1) by {
            assert((enc_chan_entries(e1) + r1) =~= enc_chan_head(e1[0]) + rec1);
        }
        assert(enc_chan_entries(e2) + r2 == enc_chan_head(e2[0]) + rec2) by {
            assert((enc_chan_entries(e2) + r2) =~= enc_chan_head(e2[0]) + rec2);
        }
        lemma_enc_chan_head_det(e1[0], rec1, e2[0], rec2);
        lemma_enc_chan_entries_det(e1.drop_first(), r1, e2.drop_first(), r2);
        assert forall|i: int|
            0 <= i < e1.len() implies chan_entry_match(#[trigger] e1[i], e2[i]) by {
            if i > 0 {
                assert(e1[i] == e1.drop_first()[i - 1]);
                assert(e2[i] == e2.drop_first()[i - 1]);
            }
        }
    }
}

/// Two per-author stores agree: same authors, and each author's feed log is
/// equal.
pub open spec fn model_maps_match(
    u1: Map<Seq<char>, TextModel>,
    u2: Map<Seq<char>, TextModel>,
) -> bool {
    &&& forall|k: Seq<char>| #[trigger] u1.contains_key(k) ==> u2.contains_key(k)
    &&& forall|k: Seq<char>| #[trigger] u2.contains_key(k) ==> u1.contains_key(k)
    &&& forall|k: Seq<char>| #[trigger] u1.contains_key(k) ==> u1[k].log_view() == u2[k].log_view()
}

/// Two generative stores agree: same channels, same settings, and equal
/// feed logs for the channel model and every author's model. Under
/// well-formedness the feed multisets follow, since a model's feeds are
/// exactly what its log records.
pub open spec fn chan_maps_match(
    m1: Map<Seq<char>, MarkovData>,
    m2: Map<Seq<char>, MarkovData>,
) -> bool {
    &&& forall|k: Seq<char>| #[trigger] m1.contains_key(k) ==> m2.contains_key(k)
    &&& forall|k: Seq<char>| #[trigger] m2.contains_key(k) ==> m1.contains_key(k)
    &&& forall|k: Seq<char>| #[trigger]
        m1.contains_key(k) ==> (m1[k].probability == m2[k].probability && m1[k].enabled
            == m2[k].enabled && m1[k].chain.log_view() == m2[k].chain.log_view()
            && model_maps_match(m1[k].per_user@, m2[k].per_user@))
}

/// Per-author entry lists with equal views denote matching stores.
proof fn lemma_map_of_model_views_match(e1: Seq<(String, TextModel)>, e2: Seq<(String, TextModel)>)
    requires
        e1.len() == e2.len(),
        forall|i: int|
            0 <= i < e1.len() ==> ((#[trigger] e1[i]).0@ == e2[i].0@ && e1[i].1.log_view()
                == e2[i].1.log_view()),
    ensures
        model_maps_match(crate::strmap::map_of(e1), crate::strmap::map_of(e2)),
    decreases e1.len(),
{
    if e1.len() > 0 {
        let p1 = e1.drop_last();
        let p2 = e2.drop_last();
        assert(forall|i: int| 0 <= i < p1.len() ==> p1[i] == #[trigger] e1[i]);
        assert(forall|i: int| 0 <= i < p2.len() ==> p2[i] == #[trigger] e2[i]);
        lemma_map_of_model_views_match(p1, p2);
        assert(e1.last() == e1[e1.len() - 1]);
        assert(e2.last() == e2[e2.len() - 1]);
    }
}

/// Channel entry lists whose entries match denote matching stores.
proof fn lemma_map_of_chan_views_match(e1: Seq<(String, MarkovData)>, e2: Seq<(String, MarkovData)>)
    requires
        e1.len() == e2.len(),
        forall|i: int| 0 <= i < e1.len() ==> chan_entry_match(#[trigger] e1[i], e2[i]),
    ensures
        chan_maps_match(crate::strmap::map_of(e1), crate::strmap::map_of(e2)),
    decreases e1.len(),
{
    if e1.len() > 0 {
        let p1 = e1.drop_last();
        let p2 = e2.drop_last();
        assert(forall|i: int| 0 <= i < p1.len() ==> p1[i] == #[trigger] e1[i]);
        assert(forall|i: int| 0 <= i < p2.len() ==> p2[i] == #[trigger] e2[i]);
        lemma_map_of_chan_views_match(p1, p2);
        let x = e1[e1.len() - 1];
        let y = e2[e2.len() - 1];
        assert(chan_entry_match(x, y));
        assert(model_maps_match(x.1.per_user@, y.1.per_user@)) by {
            x.1.per_user.lemma_view_is_map_of();
            y.1.per_user.lemma_view_is_map_of();
            lemma_map_of_model_views_match(
                x.1.per_user.entries_seq(),
                y.1.per_user.entries_seq(),
            );
        }
        assert(e1.last() == x);
        assert(e2.last() == y);
    }
}

/// Two states with the same image hold the same generative state for every
/// channel: probability, listening flag, and all feed logs.
#[verifier::rlimit(100)]
pub proof fn lemma_image_fixes_channels(a: Bot, b: Bot)
    requires
        enc_bot_image(a).len() <= 0xffffffffffffffff,
        enc_bot_image(a) == enc_bot_image(b),
    ensures
        chan_maps_match(a.markov_map(), b.markov_map()),
{
    broadcast use crate::codec::lemma_le32_len, crate::codec::lemma_le64_len;

    lemma_image_prefix_peel(a, b);
    let ia = a.insult_entries();
    let ib = b.insult_entries();
    let ca = a.chan_entries();
    let cb = b.chan_entries();
    let resta = insult_onward(a);
    let restb = insult_onward(b);
    assert(crate::codec::le64(ia.len() as u64) =~= resta.subrange(0, 8));
    assert(crate::codec::le64(ib.len() as u64) =~= resta.subrange(0, 8)) by {
        assert(restb == resta);
    }
    crate::codec::lemma_le64_inj(ia.len() as u64, ib.len() as u64);
    assert(ia.len() == ib.len()) by {
        lemma_enc_insult_entries_min_len(ia);
        lemma_enc_insult_entries_min_len(ib);
    }
    let tail_a = crate::codec::le64(ca.len() as u64) + enc_chan_entries(ca);
    let tail_b = crate::codec::le64(cb.len() as u64) + enc_chan_entries(cb);
    let iblock_a = enc_insult_entries(ia) + tail_a;
    let iblock_b = enc_insult_entries(ib) + tail_b;
    assert(resta == crate::codec::le64(ia.len() as u64) + iblock_a) by {
        assert(resta =~= crate::codec::le64(ia.len() as u64) + iblock_a);
    }
    assert(restb == crate::codec::le64(ib.len() as u64) + iblock_b) by {
        assert(restb =~= crate::codec::le64(ib.len() as u64) + iblock_b);
    }
    assert(resta.len() == 8 + iblock_a.len());
    assert(resta.len() == 8 + iblock_b.len()) by {
        assert(restb == resta);
    }
    assert(iblock_a =~= iblock_b) by {
        assert forall|i: int| 0 <= i < iblock_a.len() implies iblock_a[i] == iblock_b[i] by {
            assert((crate::codec::le64(ia.len() as u64) + iblock_a)[8 + i] == iblock_a[i]);
            assert((crate::codec::le64(ib.len() as u64) + iblock_b)[8 + i] == iblock_b[i]);
            assert(resta[8 + i] == iblock_a[i]);
            assert(restb == resta);
            assert(restb[8 + i] == iblock_b[i]);
        }
    }
    lemma_enc_insult_entries_det(ia, tail_a, ib, tail_b);
    assert(crate::codec::le64(ca.len() as u64) =~= tail_a.subrange(0, 8));
    assert(crate::codec::le64(cb.len() as u64) =~= tail_a.subrange(0, 8)) by {
        assert(tail_b == tail_a);
    }
    crate::codec::lemma_le64_inj(ca.len() as u64, cb.len() as u64);
    assert(ca.len() == cb.len()) by {
        lemma_enc_chan_entries_min_len(ca);
        lemma_enc_chan_entries_min_len(cb);
    }
    let cblock_a = enc_chan_entries(ca);
    let cblock_b = enc_chan_entries(cb);
    assert(tail_a.len() == 8 + cblock_a.len());
    assert(tail_a.len() == 8 + cblock_b.len()) by {
        assert(tail_b == tail_a);
    }
    assert(cblock_a =~= cblock_b) by {
        assert forall|i: int| 0 <= i < cblock_a.len() implies cblock_a[i] == cblock_b[i] by {
            assert((crate::codec::le64(ca.len() as u64) + cblock_a)[8 + i] == cblock_a[i]);
            assert((crate::codec::le64(cb.len() as u64) + cblock_b)[8 + i] == cblock_b[i]);
            assert(tail_a[8 + i] == cblock_a[i]);
            assert(tail_b == tail_a);
            assert(tail_b[8 + i] == cblock_b[i]);
        }
    }
    assert(cblock_a + Seq::<u8>::empty() == cblock_b + Seq::<u8>::empty()) by {
        assert(cblock_a + Seq::<u8>::empty() =~= cblock_b + Seq::<u8>::empty());
    }
    assert((enc_chan_entries(ca) + Seq::<u8>::empty()).len() <= 0xffffffffffffffff) by {
        assert((enc_chan_entries(ca) + Seq::<u8>::empty()).len() == cblock_a.len());
    }
    lemma_enc_chan_entries_det(ca, Seq::empty(), cb, Seq::empty());
    lemma_map_of_chan_views_match(ca, cb);
    a.mchain.lemma_view_is_map_of();
    b.mchain.lemma_view_is_map_of();
}

/// Two states with the same image carry the same identifier: the image is
/// unambiguous in its identity field.
pub proof fn lemma_image_fixes_user_id(a: Bot, b: Bot)
    requires
        a.user_id_view().len() <= 0xffffffffffffffff,
        b.user_id_view().len() <= 0xffffffffffffffff,
        enc_bot_image(a) == enc_bot_image(b),
    ensures
        a.user_id_view() == b.user_id_view(),
{
    crate::codec::lemma_enc_str_det(
        a.user_id_view(),
        enc_bot_sections(a),
        b.user_id_view(),
        enc_bot_sections(b),
    );
}

/// The token stream of the whole poem corpus: each poem's whitespace
/// tokens, in corpus order.
pub open spec fn corpus_tokens(poems: Seq<Seq<char>>) -> Seq<Seq<char>>
    decreases poems.len(),
{
    if poems.len() == 0 {
        Seq::empty()
    } else {
        corpus_tokens(poems.drop_last()) + tokens_of(poems.last())
    }
}

/// Builds the poem model: the corpus poems are tokenized and fed once, as
/// one long stream holding exactly the corpus tokens.
pub fn default_poem_chain(poems: &Vec<String>) -> (c: TextModel)
    ensures
        c.wf(),
        c.feeds() == crate::model::fed_feeds(
            Multiset::empty(),
            corpus_tokens(poems.deep_view()),
        ),
{
    let mut all: Vec<String> = Vec::new();
    let mut i: usize = 0;
    while i < poems.len()
        invariant
            i <= poems@.len(),
            all_tokens_wf(all.deep_view()),
            all.deep_view() == corpus_tokens(poems.deep_view().subrange(0, i as int)),
        decreases poems@.len() - i,
    {
        let mut toks = tokenize(poems[i].as_str());
        proof {
            lemma_tokens_from_wf(poems@[i as int]@, 0);
            assert(poems.deep_view()[i as int] == poems@[i as int]@);
        }
        let ghost a0 = all.deep_view();
        let ghost t0 = toks.deep_view();
        all.append(&mut toks);
        i += 1;
        proof {
            assert(all.deep_view() =~= a0 + t0);
            assert forall|q: int| 0 <= q < all.deep_view().len() implies crate::text::token_wf(
                #[trigger] all.deep_view()[q],
            ) by {
                if q < a0.len() {
                    assert(all.deep_view()[q] == a0[q]);
                } else {
                    assert(all.deep_view()[q] == t0[q - a0.len()]);
                }
            }
            let cur = poems.deep_view().subrange(0, i as int);
            assert(cur.drop_last() =~= poems.deep_view().subrange(0, i - 1));
            assert(cur.last() == poems.deep_view()[i - 1]);
            assert(all.deep_view() =~= corpus_tokens(cur));
        }
    }
    proof {
        assert(poems.deep_view().subrange(0, poems.deep_view().len() as int) =~= poems.deep_view());
    }
    let mut c = TextModel::new();
    c.feed(&all);
    c
}

/// A random poem from the corpus.
pub fn choose_random_poem(poems: &Vec<String>, rng: &mut Rng) -> (r: String)
    requires
        poems@.len() > 0,
    ensures
        is_choice_of(poems.deep_view(), r@),
{
    let pick = rng.below(poems.len() as u64) as usize;
    proof {
        assert(poems.deep_view()[pick as int] == poems@[pick as int]@);
    }
    poems[pick].clone()
}

/// The burst stop rule: the burst ends exactly when the drawn value is 0.
pub open spec fn burst_stop_rule(roll: int, r: bool) -> bool {
    r == (roll == 0)
}

/// Decides whether the chatty continuation burst stops before sending the
/// next reply: one fresh one-in-ten roll, so the burst always ends whatever
/// the model produces for it.
pub fn burst_should_stop() -> (r: bool)
    ensures
        exists|roll: int| 0 <= roll < 10 && #[trigger] burst_stop_rule(roll, r),
{
    let mut rng = Rng::new();
    let roll = rng.below(10);
    let r = roll == 0;
    proof {
        assert(burst_stop_rule(roll as int, r));
    }
    r
}

/// A random insult from the corpus.
pub fn choose_random_insult(insults: &Vec<String>, rng: &mut Rng) -> (r: String)
    requires
        insults@.len() > 0,
    ensures
        is_choice_of(insults.deep_view(), r@),
{
    let pick = rng.below(insults.len() as u64) as usize;
    proof {
        assert(insults.deep_view()[pick as int] == insults@[pick as int]@);
    }
    insults[pick].clone()
}

} // verus!
