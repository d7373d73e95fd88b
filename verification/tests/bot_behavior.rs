//! End-to-end behavior of the bot: routing, state, taunts, and generation.

use bernbot::bot::{Bot, ChatAction, CommandOutcome, MessageEvent, Reply, RouteDecision};

fn corpus_poems() -> Vec<String> {
    vec![
        "Roses are red, violets are blue. Sugar is sweet.".to_string(),
        "The quick brown fox jumps over the lazy dog.".to_string(),
    ]
}

fn corpus_insults() -> Vec<String> {
    vec!["You absolute walnut. ".to_string(), "Dearest fool, ".to_string()]
}

fn fresh_bot() -> Bot {
    Bot::new("botid".to_string(), corpus_poems(), corpus_insults())
}

fn msg(id: &str, author: &str, content: &str, channel: &str) -> MessageEvent {
    MessageEvent {
        id: id.to_string(),
        author: author.to_string(),
        content: content.to_string(),
        channel_id: channel.to_string(),
        guild_id: None,
        referenced_id: None,
    }
}

fn run(bot: &mut Bot, content: &str, perm: Option<bool>) -> CommandOutcome {
    let m = msg("m1", "user", content, "c1");
    match bot.plan(&m) {
        RouteDecision::Command { needs_perm } => {
            let p = if needs_perm { perm } else { None };
            bot.run_command(&m, p)
        },
        _ => panic!("expected a command"),
    }
}

fn reply_text(out: &CommandOutcome) -> String {
    match &out.reply {
        Reply::Text(t) => t.clone(),
        Reply::Image => panic!("expected text"),
    }
}

#[test]
fn unconfigured_channel_gets_mark_message() {
    let mut bot = fresh_bot();
    let out = run(&mut bot, "b/gen", None);
    assert_eq!(
        reply_text(&out),
        "First set this channel for listening, dumb human.\nA tip: you can do so with `listen`."
    );
    let out = run(&mut bot, "b/gen token hello", None);
    assert_eq!(
        reply_text(&out),
        "First set this channel for listening, dumb human.\nA tip: you can do so with `listen`."
    );
}

#[test]
fn feed_on_unconfigured_channel_is_a_no_op() {
    let mut bot = fresh_bot();
    let r = bot.markov_try_gen_message("c1", "hello world", "alice");
    assert!(r.is_none());
    assert!(bot.is_listening("c1").is_none());
}

#[test]
fn listen_toggle_requires_permission() {
    let mut bot = fresh_bot();
    let out = run(&mut bot, "b/listen", Some(false));
    assert_eq!(
        reply_text(&out),
        "Foolish human, you don't have enough permissions to do this."
    );
    assert!(bot.is_listening("c1").is_none());
    let out = run(&mut bot, "b/listen", Some(true));
    assert_eq!(reply_text(&out), "marked channel");
    assert_eq!(bot.is_listening("c1"), Some(true));
    let out = run(&mut bot, "b/listen", Some(true));
    assert_eq!(reply_text(&out), "unmarked channel");
    assert_eq!(bot.is_listening("c1"), Some(false));
}

#[test]
fn probability_is_clamped_and_defaulted() {
    let mut bot = fresh_bot();
    run(&mut bot, "b/listen", Some(true));
    let out = run(&mut bot, "b/listen prob 150", Some(true));
    assert_eq!(reply_text(&out), "Set probability to 100%");
    assert_eq!(bot.stored_probability("c1"), Some(100));
    let out = run(&mut bot, "b/listen prob -7", Some(true));
    assert_eq!(reply_text(&out), "Set probability to 0%");
    assert_eq!(bot.stored_probability("c1"), Some(0));
    let out = run(&mut bot, "b/listen prob abc", Some(true));
    assert_eq!(reply_text(&out), "Set probability to 5%");
    assert_eq!(bot.stored_probability("c1"), Some(5));
    let out = run(&mut bot, "b/listen prob 99999999999999999999", Some(true));
    assert_eq!(reply_text(&out), "Set probability to 5%");
    let out = run(&mut bot, "b/listen prob", None);
    assert_eq!(reply_text(&out), "Probability is 5%");
}

#[test]
fn set_prob_without_listen_instructs_first() {
    let mut bot = fresh_bot();
    let out = run(&mut bot, "b/listen prob 40", Some(true));
    assert_eq!(
        reply_text(&out),
        "First set this channel for listening, dumb human.\nA tip: you can do so with `listen`."
    );
}

#[test]
fn insult_fire_threshold_is_exact() {
    let mut bot = fresh_bot();
    // switch proactive taunting on for the scope
    let out = run(&mut bot, "b/set insult", Some(true));
    assert_eq!(reply_text(&out), "turned on insults");
    assert_eq!(bot.insults_enabled("c1"), Some(true));
    // count is 1, so the threshold is 5: a roll of 5 misses and bumps
    let r = bot.try_insult_with("c1", 5);
    assert!(r.is_none());
    assert_eq!(bot.insult_count("c1"), Some(2));
    // threshold now 10: a roll of 9 fires and leaves the counter alone
    let r = bot.try_insult_with("c1", 9);
    assert!(r.is_some());
    assert_eq!(bot.insult_count("c1"), Some(2));
}

#[test]
fn insult_counter_saturates() {
    let mut bot = fresh_bot();
    // taunting stays off: every roll misses, the counter only climbs
    for _ in 0..300 {
        let r = bot.try_insult_with("c1", 9999);
        assert!(r.is_none());
    }
    assert_eq!(bot.insult_count("c1"), Some(255));
}

#[test]
fn retaliation_needs_phrase_and_exact_target() {
    let mut bot = fresh_bot();
    bot.insult("c1", "t42".to_string());
    assert!(bot.has_insult_response("c1", "t42", "oh fuck you bot"));
    assert!(!bot.has_insult_response("c1", "t41", "oh fuck you bot"));
    assert!(!bot.has_insult_response("c1", "t42", "oh bless you bot"));
    assert!(!bot.has_insult_response("c2", "t42", "oh fuck you bot"));
}

#[test]
fn recording_a_taunt_resets_the_counter() {
    let mut bot = fresh_bot();
    for _ in 0..4 {
        bot.try_insult_with("c1", 9999);
    }
    assert_eq!(bot.insult_count("c1"), Some(5));
    bot.insult("c1", "t7".to_string());
    assert_eq!(bot.insult_count("c1"), Some(1));
}

#[test]
fn generation_fires_at_full_probability() {
    let mut bot = fresh_bot();
    run(&mut bot, "b/listen", Some(true));
    run(&mut bot, "b/listen prob 100", Some(true));
    let r = bot.markov_try_gen_message("c1", "hello world", "alice");
    let (text, _is_reply) = r.expect("probability 100 must fire");
    assert!(!text.is_empty());
}

#[test]
fn generated_replies_stay_under_32_tokens() {
    let mut bot = fresh_bot();
    run(&mut bot, "b/listen", Some(true));
    run(&mut bot, "b/listen prob 100", Some(true));
    let long: Vec<String> = (0..60).map(|i| format!("w{}", i)).collect();
    let content = long.join(" ");
    for _ in 0..10 {
        let (text, _) = bot
            .markov_try_gen_message("c1", &content, "alice")
            .expect("probability 100 must fire");
        assert!(text.split_whitespace().count() < 32);
    }
}

#[test]
fn generation_never_fires_at_zero_probability() {
    let mut bot = fresh_bot();
    run(&mut bot, "b/listen", Some(true));
    run(&mut bot, "b/listen prob 0", Some(true));
    for _ in 0..20 {
        assert!(bot.markov_try_gen_message("c1", "hello world", "alice").is_none());
    }
}

#[test]
fn per_user_generation_tracks_authors() {
    let mut bot = fresh_bot();
    run(&mut bot, "b/listen", Some(true));
    run(&mut bot, "b/listen prob 0", Some(true));
    bot.markov_try_gen_message("c1", "apples are tasty", "alice");
    let t = bot.gen_user_message("c1", "alice");
    assert!(!t.is_empty());
    assert_eq!(bot.gen_user_message("c1", "bob"), "User has no messages recorded");
}

#[test]
fn token_seeded_generation_follows_the_chain() {
    let mut bot = fresh_bot();
    run(&mut bot, "b/listen", Some(true));
    run(&mut bot, "b/listen prob 0", Some(true));
    bot.markov_try_gen_message("c1", "hello world", "alice");
    let t = bot.gen_message("c1", Some("hello".to_string()));
    assert_eq!(t, "hello world ");
    let t = bot.gen_message("c1", Some("unseen".to_string()));
    assert_eq!(t, "");
}

#[test]
fn unknown_command_insults_and_records_taunt() {
    let mut bot = fresh_bot();
    run(&mut bot, "b/set prefix bern", Some(true));
    let m = msg("m9", "user", "bern zork", "c1");
    let out = match bot.plan(&m) {
        RouteDecision::Command { needs_perm } => {
            assert!(!needs_perm);
            bot.run_command(&m, None)
        },
        _ => panic!("expected a command"),
    };
    assert!(out.record_taunt);
    let text = reply_text(&out);
    assert!(text.contains("`zork` isn't a command."));
    // the transport sends the reply and hands back its identifier
    bot.insult("c1", "sent77".to_string());
    assert_eq!(bot.insult_count("c1"), Some(1));
    assert!(bot.has_insult_response("c1", "sent77", "fuck you"));
}

#[test]
fn empty_command_asks_what_you_want() {
    let mut bot = fresh_bot();
    let out = run(&mut bot, "b/", None);
    assert_eq!(reply_text(&out), "What do you want?");
}

#[test]
fn own_messages_are_ignored() {
    let bot = fresh_bot();
    let m = msg("m1", "botid", "hello there", "c1");
    assert!(matches!(bot.plan(&m), RouteDecision::Ignore));
    let m2 = msg("m2", "alice", "hello there", "c1");
    assert!(matches!(bot.plan(&m2), RouteDecision::Chat));
}

#[test]
fn fuckyou_command_sends_the_image() {
    let mut bot = fresh_bot();
    let out = run(&mut bot, "b/fuckyou", None);
    assert!(matches!(out.reply, Reply::Image));
    assert!(!out.record_taunt);
}

#[test]
fn chat_flow_answers_retaliation_with_image() {
    let mut bot = fresh_bot();
    bot.insult("c1", "t1".to_string());
    let mut m = msg("m5", "alice", "well fuck you", "c1");
    m.referenced_id = Some("t1".to_string());
    let act = bot.chat_step(&m);
    assert!(matches!(act, ChatAction::SendImage));
}

#[test]
fn chat_flow_generates_at_full_probability() {
    let mut bot = fresh_bot();
    run(&mut bot, "b/listen", Some(true));
    run(&mut bot, "b/listen prob 100", Some(true));
    let m = msg("m6", "alice", "good morning everyone", "c1");
    match bot.chat_step(&m) {
        ChatAction::SendGenerated(text, _) => assert!(!text.is_empty()),
        ChatAction::SendTaunt(_) => panic!("taunting is off for this channel"),
        other => panic!("expected a generated reply, got {:?}", discriminant_name(&other)),
    }
}

fn discriminant_name(act: &ChatAction) -> &'static str {
    match act {
        ChatAction::SendImage => "SendImage",
        ChatAction::SendTaunt(_) => "SendTaunt",
        ChatAction::SendGenerated(_, _) => "SendGenerated",
        ChatAction::Nothing => "Nothing",
    }
}

#[test]
fn gen_poem_command_builds_a_poem() {
    let mut bot = fresh_bot();
    let out = run(&mut bot, "b/gen poem", None);
    let _poem = reply_text(&out);
    let out = run(&mut bot, "b/gen token", None);
    assert_eq!(reply_text(&out), "put a token");
}

#[test]
fn poem_command_searches_the_corpus() {
    let mut bot = fresh_bot();
    let out = run(&mut bot, "b/poem quick brown fox", None);
    assert_eq!(reply_text(&out), "The quick brown fox jumps over the lazy dog.");
}

#[test]
fn poem_search_finds_the_best_match() {
    let bot = fresh_bot();
    let t = bot.process_poem_command("quick brown fox");
    assert_eq!(t, "The quick brown fox jumps over the lazy dog.");
    let t = bot.process_poem_command("zzzqqqxxxyyy");
    assert_eq!(t, "No poem with those words. Try again, maybe a miracle will occur.");
}

#[test]
fn empty_poem_query_draws_from_the_corpus() {
    let bot = fresh_bot();
    let poems = corpus_poems();
    for _ in 0..5 {
        let t = bot.process_poem_command("");
        assert!(poems.contains(&t));
    }
}

#[test]
fn generated_poem_stays_within_eight_sentences() {
    let bot = fresh_bot();
    for _ in 0..5 {
        let poem = bot.generate_poem();
        let sentences = poem.lines().filter(|l| !l.is_empty()).count();
        assert!(sentences <= 8);
    }
}

#[test]
fn help_texts_are_served() {
    let mut bot = fresh_bot();
    let out = run(&mut bot, "b/help", None);
    assert!(reply_text(&out).starts_with("commands are:"));
    let out = run(&mut bot, "b/help poem", None);
    assert!(reply_text(&out).starts_with("search / get random poem"));
    let out = run(&mut bot, "b/help zork", None);
    assert!(out.record_taunt);
}

#[test]
fn state_survives_a_save_and_restore() {
    let mut bot = fresh_bot();
    run(&mut bot, "b/set insult", Some(true));
    run(&mut bot, "b/listen", Some(true));
    run(&mut bot, "b/listen prob 42", Some(true));
    run(&mut bot, "b/set prefix bern", Some(true));
    bot.markov_try_gen_message("c1", "hello world", "alice");
    for _ in 0..3 {
        bot.try_insult_with("c1", 9999);
    }
    bot.insult("c2", "t9".to_string());
    let bytes = bot.to_saved_bytes().expect("a small state must serialize");
    let back = Bot::from_saved_bytes(&bytes, corpus_poems(), corpus_insults())
        .expect("a fresh image must parse");
    assert_eq!(back.stored_probability("c1"), Some(42));
    assert_eq!(back.is_listening("c1"), Some(true));
    assert_eq!(back.insult_count("c1"), bot.insult_count("c1"));
    assert_eq!(back.insults_enabled("c1"), Some(true));
    assert_eq!(back.insult_count("c2"), Some(1));
    assert!(back.has_insult_response("c2", "t9", "fuck you"));
    // the learned chain round-trips: token-seeded generation still works
    let mut back = back;
    assert_eq!(back.gen_message("c1", Some("hello".to_string())), "hello world ");
    let t = back.gen_user_message("c1", "alice");
    assert!(!t.is_empty());
    // the custom prefix still routes
    let m = msg("m1", "user", "bern help", "c1");
    assert!(matches!(back.plan(&m), RouteDecision::Command { .. }));
}

#[test]
fn corrupt_image_is_rejected() {
    let garbage: Vec<u8> = vec![1, 2, 3, 4, 5, 6, 7, 8, 9];
    assert!(Bot::from_saved_bytes(&garbage, corpus_poems(), corpus_insults()).is_none());
}

#[test]
fn restored_state_reserializes_identically() {
    let mut bot = fresh_bot();
    run(&mut bot, "b/listen", Some(true));
    bot.markov_try_gen_message("c1", "one two three", "alice");
    bot.insult("c1", "t3".to_string());
    let bytes = bot.to_saved_bytes().expect("a small state must serialize");
    let back = Bot::from_saved_bytes(&bytes, corpus_poems(), corpus_insults())
        .expect("a fresh image must parse");
    assert_eq!(back.to_saved_bytes().expect("a small state must serialize"), bytes);
}

#[test]
fn fresh_state_image_always_restores() {
    let bot = fresh_bot();
    let bytes = bot.to_saved_bytes().expect("a small state must serialize");
    let back = Bot::from_saved_bytes(&bytes, corpus_poems(), corpus_insults())
        .expect("a freshly initialized image must restore");
    assert!(back.is_listening("c1").is_none());
    assert!(back.insult_count("c1").is_none());
}

#[test]
fn plain_generation_uses_only_fed_tokens() {
    let mut bot = fresh_bot();
    run(&mut bot, "b/listen", Some(true));
    run(&mut bot, "b/listen prob 0", Some(true));
    bot.markov_try_gen_message("c1", "hello world", "alice");
    for _ in 0..10 {
        let t = bot.gen_message("c1", None);
        for tok in t.split_whitespace() {
            assert!(tok == "hello" || tok == "world");
        }
        let u = bot.gen_user_message("c1", "alice");
        for tok in u.split_whitespace() {
            assert!(tok == "hello" || tok == "world");
        }
    }
}

#[test]
fn typo_keeps_or_substitutes_alphanumerics() {
    let mut rng = bernbot::rng::Rng::new();
    let word = "hello,world!".to_string();
    for _ in 0..50 {
        let out = bernbot::model::typo(&mut rng, &word);
        assert_eq!(out.chars().count(), word.chars().count());
        for (a, b) in out.chars().zip(word.chars()) {
            assert!(a == b || a.is_ascii_alphanumeric());
        }
    }
    assert_eq!(bernbot::model::typo(&mut rng, &String::new()), "");
}

#[test]
fn unrecognised_command_cites_the_word() {
    let bot = fresh_bot();
    let t = bot.unrecognised_command("frobnicate");
    assert!(t.contains("`frobnicate` isn't a command."));
    let insults = corpus_insults();
    assert!(insults.iter().any(|i| t.starts_with(i.as_str())));
}
