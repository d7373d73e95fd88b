//! The incremental text model: a markov chain paired with the log of every
//! token sequence fed into it.
//!
//! The chain itself is opaque and abstracted by `chain_feeds`, the multiset
//! of non-empty token sequences fed into it. The log records those same
//! sequences as plain data; persistence stores the log and rebuilds a fresh
//! chain from it on load, so nothing about deserialized chains is trusted.

use vstd::prelude::*;
use vstd::multiset::Multiset;
use crate::text::all_tokens_wf;

verus! {

/// An incremental markov chain over string tokens.
#[verifier::external_body]
pub struct TextChain {
    inner: markov::Chain<String>,
}

/// The multiset of non-empty token sequences fed into a chain.
pub uninterp spec fn chain_feeds(c: TextChain) -> Multiset<Seq<Seq<char>>>;

/// `tok` occurs in one of the fed sequences.
pub open spec fn token_in_feeds(feeds: Multiset<Seq<Seq<char>>>, tok: Seq<char>) -> bool {
    exists|s: Seq<Seq<char>>| feeds.contains(s) && s.contains(tok)
}

/// Every sequence of the feeds consists of well-formed tokens.
pub open spec fn feeds_wf(feeds: Multiset<Seq<Seq<char>>>) -> bool {
    forall|s: Seq<Seq<char>>| #[trigger] feeds.contains(s) ==> all_tokens_wf(s)
}

/// Relies on markov::Chain::new: a chain with nothing fed into it.
#[verifier::external_body]
fn chain_new() -> (c: TextChain)
    ensures
        chain_feeds(c) == Multiset::<Seq<Seq<char>>>::empty(),
{
    TextChain { inner: markov::Chain::new() }
}

/// Relies on markov::Chain::feed: records one token sequence; feeding an
/// empty sequence leaves the chain unchanged.
#[verifier::external_body]
fn chain_feed(c: &mut TextChain, tokens: &Vec<String>)
    ensures
        tokens@.len() > 0 ==> chain_feeds(*final(c)) == chain_feeds(*old(c)).insert(
            tokens.deep_view(),
        ),
        tokens@.len() == 0 ==> chain_feeds(*final(c)) == chain_feeds(*old(c)),
{
    c.inner.feed(tokens.as_slice());
}

/// Relies on markov::Chain::is_empty: true exactly when nothing non-empty has
/// been fed.
#[verifier::external_body]
fn chain_is_empty(c: &TextChain) -> (r: bool)
    ensures
        r == (chain_feeds(*c).len() == 0),
{
    c.inner.is_empty()
}

/// Relies on markov::Chain::generate: a walk from the start state of a
/// non-empty chain emits at least one token, and every emitted token is one
/// of the tokens that were fed.
#[verifier::external_body]
fn chain_generate(c: &TextChain) -> (r: Vec<String>)
    requires
        chain_feeds(*c).len() > 0,
    ensures
        r@.len() > 0,
        forall|i: int| 0 <= i < r@.len() ==> token_in_feeds(chain_feeds(*c), #[trigger] r@[i]@),
{
    c.inner.generate()
}

/// Relies on markov::Chain::generate_from_token: empty exactly when the
/// token was never fed; otherwise a walk that starts with the given token,
/// emitting only tokens that were fed.
#[verifier::external_body]
fn chain_generate_from(c: &TextChain, token: &String) -> (r: Vec<String>)
    ensures
        r@.len() == 0 <==> !token_in_feeds(chain_feeds(*c), token@),
        r@.len() > 0 ==> r@[0]@ == token@,
        forall|i: int| 0 <= i < r@.len() ==> (r@[i]@ == token@ || token_in_feeds(
            chain_feeds(*c),
            #[trigger] r@[i]@,
        )),
{
    c.inner.generate_from_token(token.clone())
}

/// The multiset of the sequences held in a feed log.
pub open spec fn log_feeds(log: Seq<Seq<Seq<char>>>) -> Multiset<Seq<Seq<char>>>
    decreases log.len(),
{
    if log.len() == 0 {
        Multiset::empty()
    } else {
        log_feeds(log.drop_last()).insert(log.last())
    }
}

/// Every entry of a feed log is a non-empty list of well-formed tokens.
pub open spec fn log_wf(log: Seq<Seq<Seq<char>>>) -> bool {
    forall|i: int|
        0 <= i < log.len() ==> ((#[trigger] log[i]).len() > 0 && all_tokens_wf(log[i]))
}

/// A sequence drawn from a well-formed log is a non-empty well-formed list.
pub proof fn lemma_log_feeds_wf(log: Seq<Seq<Seq<char>>>)
    requires
        log_wf(log),
    ensures
        feeds_wf(log_feeds(log)),
        forall|s: Seq<Seq<char>>| #[trigger] log_feeds(log).contains(s) ==> s.len() > 0,
    decreases log.len(),
{
    broadcast use vstd::multiset::group_multiset_axioms;

    if log.len() > 0 {
        let pre = log.drop_last();
        assert(forall|i: int| 0 <= i < pre.len() ==> pre[i] == log[i]);
        lemma_log_feeds_wf(pre);
        assert(log[log.len() - 1].len() > 0 && all_tokens_wf(log.last()));
        assert forall|s: Seq<Seq<char>>| #[trigger] log_feeds(log).contains(s) implies (
        all_tokens_wf(s) && s.len() > 0) by {
            if s != log.last() {
                assert(log_feeds(pre).contains(s));
            }
        }
    }
}

/// A text model: the chain, and the log of everything fed into it.
pub struct TextModel {
    chain: TextChain,
    log: Vec<Vec<String>>,
}

impl TextModel {
    /// What has been fed, as a multiset of token sequences.
    pub closed spec fn feeds(&self) -> Multiset<Seq<Seq<char>>> {
        chain_feeds(self.chain)
    }

    /// The fed sequences in the order they arrived.
    pub closed spec fn log_view(&self) -> Seq<Seq<Seq<char>>> {
        self.log.deep_view()
    }

    /// Validity: the chain holds exactly what the log records, and the log
    /// holds only non-empty lists of well-formed tokens.
    pub closed spec fn wf(&self) -> bool {
        &&& chain_feeds(self.chain) == log_feeds(self.log.deep_view())
        &&& log_wf(self.log.deep_view())
    }

    /// The feeds are exactly what the log records.
    pub proof fn lemma_feeds_from_log(&self)
        requires
            self.wf(),
        ensures
            self.feeds() == log_feeds(self.log_view()),
    {
    }

    /// What was fed is well formed.
    pub proof fn lemma_feeds_wf(&self)
        requires
            self.wf(),
        ensures
            feeds_wf(self.feeds()),
    {
        lemma_log_feeds_wf(self.log_view());
    }

    /// A model with nothing fed.
    pub fn new() -> (r: TextModel)
        ensures
            r.wf(),
            r.feeds() == Multiset::<Seq<Seq<char>>>::empty(),
            r.log_view() == Seq::<Seq<Seq<char>>>::empty(),
    {
        let r = TextModel { chain: chain_new(), log: Vec::new() };
        proof {
            assert(r.log.deep_view() =~= Seq::<Seq<Seq<char>>>::empty());
        }
        r
    }

    /// Feeds one token list; an empty list changes nothing.
    pub fn feed(&mut self, tokens: &Vec<String>)
        requires
            old(self).wf(),
            all_tokens_wf(tokens.deep_view()),
        ensures
            final(self).wf(),
            tokens@.len() > 0 ==> (final(self).feeds() == old(self).feeds().insert(
                tokens.deep_view(),
            ) && final(self).log_view() == old(self).log_view().push(tokens.deep_view())),
            tokens@.len() == 0 ==> (final(self).feeds() == old(self).feeds()
                && final(self).log_view() == old(self).log_view()),
    {
        if tokens.len() == 0 {
            return ;
        }
        chain_feed(&mut self.chain, tokens);
        let ghost prev = self.log.deep_view();
        let copy = crate::text::clone_tokens(tokens);
        proof {
            assert(copy.deep_view() =~= tokens.deep_view());
        }
        self.log.push(copy);
        proof {
            assert(self.log.deep_view() =~= prev.push(tokens.deep_view()));
            assert(prev.push(tokens.deep_view()).drop_last() =~= prev);
            assert(log_feeds(self.log.deep_view()) == log_feeds(prev).insert(
                tokens.deep_view(),
            ));
            assert forall|i: int| 0 <= i < self.log.deep_view().len() implies ((
            #[trigger] self.log.deep_view()[i]).len() > 0 && all_tokens_wf(
                self.log.deep_view()[i],
            )) by {
                if i < prev.len() {
                    assert(self.log.deep_view()[i] == prev[i]);
                }
            }
        }
    }

    /// Has anything non-empty ever been fed?
    pub fn is_empty(&self) -> (r: bool)
        ensures
            r == (self.feeds().len() == 0),
    {
        chain_is_empty(&self.chain)
    }

    /// A random walk over what was fed.
    pub fn generate(&self) -> (r: Vec<String>)
        requires
            self.feeds().len() > 0,
        ensures
            r@.len() > 0,
            forall|i: int| 0 <= i < r@.len() ==> token_in_feeds(self.feeds(), #[trigger] r@[i]@),
    {
        chain_generate(&self.chain)
    }

    /// A walk seeded at the given token; empty exactly when the token was
    /// never fed.
    pub fn generate_from(&self, token: &String) -> (r: Vec<String>)
        ensures
            r@.len() == 0 <==> !token_in_feeds(self.feeds(), token@),
            r@.len() > 0 ==> r@[0]@ == token@,
            forall|i: int| 0 <= i < r@.len() ==> (r@[i]@ == token@ || token_in_feeds(
                self.feeds(),
                #[trigger] r@[i]@,
            )),
    {
        chain_generate_from(&self.chain, token)
    }

    /// The number of logged feed calls.
    pub fn log_len(&self) -> (r: usize)
        ensures
            r == self.log_view().len(),
    {
        self.log.len()
    }

    /// The token list of one logged feed call.
    pub fn log_entry(&self, i: usize) -> (r: &Vec<String>)
        requires
            i < self.log_view().len(),
        ensures
            r.deep_view() == self.log_view()[i as int],
    {
        &self.log[i]
    }

    /// Rebuilds a model from a well-formed feed log, as the restore path
    /// does: a fresh chain is fed each logged sequence in order.
    pub fn from_log(log: Vec<Vec<String>>) -> (r: TextModel)
        requires
            log_wf(log.deep_view()),
        ensures
            r.wf(),
            r.log_view() == log.deep_view(),
            r.feeds() == log_feeds(log.deep_view()),
    {
        let mut chain = chain_new();
        let mut i: usize = 0;
        while i < log.len()
            invariant
                i <= log@.len(),
                log_wf(log.deep_view()),
                chain_feeds(chain) == log_feeds(log.deep_view().subrange(0, i as int)),
            decreases log@.len() - i,
        {
            proof {
                assert(log.deep_view()[i as int].len() > 0 && all_tokens_wf(
                    log.deep_view()[i as int],
                ));
                assert(log@[i as int].deep_view() == log.deep_view()[i as int]);
            }
            chain_feed(&mut chain, &log[i]);
            i += 1;
            proof {
                let pre = log.deep_view().subrange(0, i - 1);
                let cur = log.deep_view().subrange(0, i as int);
                assert(cur.drop_last() =~= pre);
                assert(cur.last() == log.deep_view()[i - 1]);
            }
        }
        proof {
            assert(log.deep_view().subrange(0, log.deep_view().len() as int) =~= log.deep_view());
        }
        TextModel { chain, log }
    }
}

} // verus!
