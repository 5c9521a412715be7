use trex::i18n::{
    accept_language_candidates, current_language, is_korean, parse_language_hint,
    preferred_language, text, with_language, Language, LanguageContext, LanguageEnv, Quality,
    RankedLanguage,
};

fn weight(q_values: &[String]) -> Quality {
    let mut quality = 1.0f32;
    for value in q_values {
        if let Ok(parsed) = value.parse::<f32>() {
            quality = parsed.clamp(0.0, 1.0);
        }
    }
    if quality.is_nan() {
        Quality::Unordered
    } else {
        Quality::Level((quality + 0.0).to_bits())
    }
}

fn language_from_accept_language(raw: &str) -> Option<Language> {
    let ranked: Vec<RankedLanguage> = accept_language_candidates(raw)
        .iter()
        .map(|c| RankedLanguage {
            language: c.language,
            quality: weight(&c.q_values),
            index: c.index,
        })
        .collect();
    preferred_language(&ranked)
}

fn env(trex: Option<&str>, lc_all: Option<&str>, lc_messages: Option<&str>, lang: Option<&str>) -> LanguageEnv {
    LanguageEnv {
        trex_lang: trex.map(|s| s.to_string()),
        lc_all: lc_all.map(|s| s.to_string()),
        lc_messages: lc_messages.map(|s| s.to_string()),
        lang: lang.map(|s| s.to_string()),
    }
}

#[test]
fn parse_korean_variants() {
    assert_eq!(parse_language_hint("ko"), Some(Language::Korean));
    assert_eq!(parse_language_hint("ko_KR.UTF-8"), Some(Language::Korean));
    assert_eq!(parse_language_hint("Korean"), Some(Language::Korean));
}

#[test]
fn parse_english_variants() {
    assert_eq!(parse_language_hint("en"), Some(Language::English));
    assert_eq!(parse_language_hint("en_US.UTF-8"), Some(Language::English));
    assert_eq!(parse_language_hint("C"), Some(Language::English));
}

#[test]
fn parse_accept_language_header() {
    assert_eq!(
        language_from_accept_language("en-US,en;q=0.9,ko;q=0.8"),
        Some(Language::English)
    );
    assert_eq!(
        language_from_accept_language("fr-FR,ko-KR;q=0.9,en;q=0.7"),
        Some(Language::Korean)
    );
}

#[test]
fn language_hints_outside_the_known_ones_are_rejected() {
    assert_eq!(parse_language_hint("  POSIX "), Some(Language::English));
    assert_eq!(parse_language_hint("english"), Some(Language::English));
    assert_eq!(parse_language_hint("ko-"), Some(Language::Korean));
    assert_eq!(parse_language_hint("fr_FR"), None);
    assert_eq!(parse_language_hint("   "), None);
    assert_eq!(parse_language_hint("k"), None);
}

#[test]
fn accept_language_candidates_keep_entry_positions_and_weights() {
    let c = accept_language_candidates(" fr , en-GB ; q=0.5 ;x=1; q = 2 ,, ko");
    assert_eq!(c.len(), 2);
    assert_eq!(c[0].language, Language::English);
    assert_eq!(c[0].index, 1);
    assert_eq!(c[0].q_values, vec!["0.5".to_string()]);
    assert_eq!(c[1].language, Language::Korean);
    assert_eq!(c[1].index, 3);
    assert!(c[1].q_values.is_empty());
}

#[test]
fn highest_weight_wins_and_ties_keep_the_first() {
    assert_eq!(language_from_accept_language("ko;q=0.5,en;q=0.6"), Some(Language::English));
    assert_eq!(language_from_accept_language("ko;q=0.5,en;q=0.5"), Some(Language::Korean));
    assert_eq!(language_from_accept_language("fr,de"), None);
    let ranked = vec![
        RankedLanguage { language: Language::English, quality: Quality::Unordered, index: 0 },
        RankedLanguage { language: Language::Korean, quality: Quality::Level(7), index: 1 },
    ];
    assert_eq!(preferred_language(&ranked), Some(Language::English));
}

#[test]
fn current_language_follows_the_priority_order() {
    let ctx = LanguageContext {
        override_language: None,
        env: env(Some("fr"), Some("  "), Some("ko_KR.UTF-8"), Some("en_US")),
    };
    assert_eq!(current_language(&ctx), Language::Korean);
    assert!(is_korean(&ctx));
    assert_eq!(text(&ctx, "가", "a"), "가");

    let ctx = LanguageContext {
        override_language: Some(Language::English),
        env: env(Some("ko"), None, None, None),
    };
    assert_eq!(current_language(&ctx), Language::English);

    let ctx = LanguageContext { override_language: None, env: env(None, None, None, None) };
    assert_eq!(current_language(&ctx), Language::English);
    assert_eq!(text(&ctx, "가", "a"), "a");
}

#[test]
fn with_language_overrides_inside_and_restores_after() {
    let ctx = LanguageContext { override_language: None, env: env(None, None, None, Some("en")) };
    let inside = with_language(&ctx, Language::Korean, |c| current_language(c));
    assert_eq!(inside, Language::Korean);
    assert_eq!(ctx.override_language, None);
    assert_eq!(current_language(&ctx), Language::English);
}
