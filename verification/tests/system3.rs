use cortex::agents::system3::{
    best_date_answer, ChatChoice, ChatReply, query_phrases, query_terms, score_doc_for_query, ActorConfig, LlmClient,
    MetaEntry, MetaValue, RetrievedDocument, System3Actor,
};
use cortex::agents::temporal::{clean_date, extract_date_answer, extract_relative_date_answer};

fn doc(content: &str, session_time: Option<&str>, speaker: Option<&str>) -> RetrievedDocument {
    let as_value = |v: Option<&str>| match v {
        Some(s) => MetaValue::Text(s.to_string()),
        None => MetaValue::Other,
    };
    RetrievedDocument {
        id: "doc-1".to_string(),
        path: "locomo/conv-1/session_1/D1:1".to_string(),
        content: content.to_string(),
        metadata: vec![
            MetaEntry { key: "session_time".to_string(), value: as_value(session_time) },
            MetaEntry { key: "speaker".to_string(), value: as_value(speaker) },
        ],
    }
}

#[test]
fn clean_date_keeps_readable_format() {
    assert_eq!(clean_date("Monday on 7 May 2023"), "7 May 2023");
    assert_eq!(clean_date("8 May, 2023"), "8 May, 2023");
    assert_eq!(clean_date("7 May 2023, 18:00"), "7 May 2023");
}

#[test]
fn extract_date_answer_prefers_explicit_years_and_dates() {
    assert_eq!(
        extract_date_answer("Melanie painted a sunrise in 2022 for a school mural."),
        Some("2022".to_string())
    );
    assert_eq!(
        extract_date_answer("The event happened on 7 May 2023 after work."),
        Some("7 May 2023".to_string())
    );
}

#[test]
fn extract_relative_date_answer_resolves_against_session_time() {
    assert_eq!(
        extract_relative_date_answer(
            "Caroline: I went to a LGBTQ support group yesterday and it was so powerful.",
            "1:56 pm on 8 May, 2023"
        ),
        Some("7 May 2023".to_string())
    );
    assert_eq!(
        extract_relative_date_answer(
            "Yeah, I painted that lake sunrise last year! It's special to me.",
            "1:56 pm on 8 May, 2023"
        ),
        Some("2022".to_string())
    );
}

#[test]
fn best_date_answer_uses_matching_document_before_other_session_times() {
    let docs = vec![
        doc(
            "Melanie: Yeah, I painted that lake sunrise last year! It's special to me.",
            Some("15 July, 2023"),
            Some("Melanie"),
        ),
        doc(
            "Caroline: I went to a LGBTQ support group yesterday and it was so powerful.",
            Some("1:56 pm on 8 May, 2023"),
            Some("Caroline"),
        ),
    ];

    assert_eq!(
        best_date_answer("When did Caroline go to the LGBTQ support group?", &docs),
        Some("7 May 2023".to_string())
    );
    assert_eq!(
        best_date_answer("When did Melanie paint a sunrise?", &docs),
        Some("2022".to_string())
    );
}

#[test]
fn clean_date_adds_year_after_on() {
    assert_eq!(clean_date("1:56 pm on 8 May, 2023"), "8 May, 2023");
    assert_eq!(clean_date("Sunday, 2023 on 8 May"), "8 May 2023 on 8 May");
    assert_eq!(clean_date("  plain text  "), "plain text");
}

#[test]
fn query_terms_drop_short_and_stop_words() {
    assert_eq!(
        query_terms("When did Caroline go to the LGBTQ support-group?"),
        vec!["caroline", "lgbtq", "support", "group"]
    );
    let terms = query_terms("lake sunrise painting");
    assert_eq!(query_phrases(&terms), vec!["lake sunrise", "sunrise painting"]);
    assert!(query_phrases(&query_terms("sunrise")).is_empty());
}

#[test]
fn score_rewards_speaker_terms_and_conversations() {
    let mut d = doc("I painted a sunrise", None, Some("Melanie"));
    let terms = vec!["melanie".to_string()];
    // speaker 4 + scoring text 2 (speaker is in the metadata) = 6
    assert_eq!(score_doc_for_query(&d, &terms), 6);
    d.metadata.push(MetaEntry {
        key: "category".to_string(),
        value: MetaValue::Text("conversation".to_string()),
    });
    assert_eq!(score_doc_for_query(&d, &terms), 11);
    assert_eq!(score_doc_for_query(&d, &Vec::new()), 0);
}

#[test]
fn heuristic_answer_cases() {
    let none: Vec<RetrievedDocument> = Vec::new();
    assert_eq!(
        System3Actor::heuristic_answer("what?", &none),
        "I couldn't find sufficient information to answer your query about 'what?'."
    );
    let docs = vec![doc("  Caroline likes hiking.  ", None, None), doc("Melanie likes hiking too.", None, None)];
    assert_eq!(
        System3Actor::heuristic_answer("What do they both like?", &docs),
        "Caroline likes hiking. Melanie likes hiking too."
    );
    assert_eq!(System3Actor::heuristic_answer("Tell me", &docs), "Caroline likes hiking.");
    let blank = vec![doc("   ", None, None)];
    assert_eq!(
        System3Actor::heuristic_answer("Tell me", &blank),
        "I found relevant memory, but the best answer could not be synthesized yet."
    );
}

#[test]
fn llm_client_keys_and_prompt() {
    let c = LlmClient::from_keys(None, None);
    assert_eq!(c.api_key, "demo-key");
    assert!(c.uses_fallback());
    let c = LlmClient::from_keys(None, Some("k2".to_string()));
    assert_eq!(c.api_key, "k2");
    assert!(!c.uses_fallback());
    let docs = vec![doc("a", None, None)];
    assert_eq!(
        LlmClient::user_prompt("q?", &docs),
        "Context from memory:\n- a\n  Source: locomo/conv-1/session_1/D1:1\n\nUser question: q?"
    );
    assert_eq!(
        LlmClient::response_or_fallback(Some("reply".to_string()), "q", &docs),
        "reply"
    );
    let actor = System3Actor::new(ActorConfig::default(), c);
    assert!(actor.wants_llm());
    let r = System3Actor::action_result("q", "answer".to_string());
    assert!(r.success && r.actions_taken.is_empty());
}

#[test]
fn respond_uses_model_reply_only_when_enabled() {
    let docs = vec![doc("Caroline likes painting.", None, Some("Caroline"))];
    let client = LlmClient::from_keys(Some("k".to_string()), None);
    let actor = System3Actor::new(ActorConfig::default(), client);
    let r = actor.respond("What does Caroline like?", &docs, Some("Painting.".to_string()));
    assert_eq!(r.response, "Painting.");
    assert!(r.success && r.actions_taken.is_empty());
    let fallback = actor.respond("What does Caroline like?", &docs, None);
    assert_eq!(fallback.response, System3Actor::heuristic_answer("What does Caroline like?", &docs));

    let quiet = System3Actor::new(
        ActorConfig { use_llm: false, max_actions: 5 },
        LlmClient::from_keys(None, None),
    );
    let r = quiet.respond("What does Caroline like?", &docs, Some("ignored".to_string()));
    assert_eq!(r.response, "Caroline likes painting.");
}

#[test]
fn clean_date_keeps_word_before_comma() {
    assert_eq!(clean_date("May, 2023"), "May, 2023");
    assert_eq!(clean_date("2023 , 05"), "2023, 05");
    assert_eq!(clean_date("May 7th, 10:00"), "May 7th");
}

#[test]
fn query_terms_are_lowercase_and_stable() {
    let terms = query_terms("When did CAROLINE visit the Ünïon-Square café, in 2023?");
    for t in &terms {
        assert!(t.len() > 2);
        assert!(t.chars().all(|c| c.is_ascii_lowercase() || c.is_ascii_digit()));
    }
    assert_eq!(query_terms(&terms.join(" ")), terms);
}

#[test]
fn reply_content_takes_first_choice() {
    let reply = ChatReply {
        choices: vec![
            ChatChoice { content: Some("first".to_string()) },
            ChatChoice { content: Some("second".to_string()) },
        ],
    };
    assert_eq!(LlmClient::reply_content(&reply), Some("first".to_string()));
    let empty = ChatReply { choices: vec![] };
    assert_eq!(LlmClient::reply_content(&empty), None);
    let no_text = ChatReply { choices: vec![ChatChoice { content: None }, ChatChoice { content: Some("x".to_string()) }] };
    assert_eq!(LlmClient::reply_content(&no_text), None);
}
