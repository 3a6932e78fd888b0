use mochi_brain::artifacts::{build_dict, tsv_rows, DictLine};
use mochi_brain::cold_start::{classify_line, ngram_tokens, PersonalLine};
use mochi_brain::clock::{day_of_secs, today};
use mochi_brain::interner::Interner;
use mochi_brain::personal::{align, is_hanzi, parse_units, without_spaces_exec, PersonalArcs, PersonalVocab, Unit};
use mochi_brain::readings::CharReadings;
use mochi_brain::recent::{RecentWindow, RECENT_WINDOW};
use mochi_brain::tables::TokenSet;
use mochi_brain::tokenize::{is_phrase_exec, join_spaced_exec, plan_learning, tokenize};

const MINI_DICT: &str = "\
ni hao\t你好\t5000
ni\t你\t3000
ni\t尼\t300
hao\t好\t2000
ce shi\t测试\t1500
ce\t测\t100
shi\t是\t2000
shi\t试\t300
sui ji\t随即\t900
sui ji\t随机\t800
ti du\t梯度\t200
sui\t随\t500
ji\t机\t400
ji\t即\t350
ti\t梯\t100
du\t度\t300
";

/// The general vocabulary and the readings of the mini dictionary.
fn general() -> (Interner, CharReadings, TokenSet) {
    let lines: Vec<DictLine> = tsv_rows(MINI_DICT)
        .rows
        .into_iter()
        .map(|r| DictLine { key: r.a, text: r.b, weight: r.c.parse().unwrap() })
        .collect();
    let mut interner = Interner::new();
    interner.intern("<s>");
    let t = build_dict(&lines, &mut interner);
    (interner, t.char_pinyin, t.dict_tokens)
}

fn kinds(units: &[Unit]) -> String {
    units
        .iter()
        .map(|u| match u {
            Unit::Hanzi(c) => c.to_string(),
            Unit::Ascii(s) => format!("[{}]", s),
            Unit::Sep => "|".to_string(),
        })
        .collect()
}

#[test]
fn units_split_hanzi_ascii_runs_and_separators() {
    assert_eq!(kinds(&parse_units("用ResNet跑,ok")), "用[ResNet]跑|[ok]");
    assert_eq!(kinds(&parse_units("a1b")), "[a]|[b]");
    assert!(parse_units("").is_empty());
    assert!(is_hanzi('中'));
    assert!(!is_hanzi('a'));
}

#[test]
fn alignment_recovers_each_hanzi_syllable() {
    let (_g, readings, _) = general();
    let units = parse_units("你好你");
    let syls = align(&units, "NiHaoNi", &readings).expect("aligns");
    assert_eq!(syls, vec!["ni", "hao", "ni"]);
    // partial or edited commits give no alignment
    assert!(align(&units, "nihao", &readings).is_none());
    assert!(align(&parse_units("水"), "shui", &readings).is_none());
    // ASCII runs consume themselves, separators nothing
    let units = parse_units("测试, EEG");
    let syls = align(&units, "ceshieeg", &readings).expect("aligns");
    assert_eq!(syls, vec!["ce", "shi", "", "", ""]);
}

#[test]
fn alignment_backtracks_over_readings() {
    let (_g, mut readings, _) = general();
    readings.add('西', "xi");
    readings.add('安', "an");
    readings.add('西', "xian");
    readings.sort_readings();
    let units = parse_units("西安");
    assert_eq!(align(&units, "xian", &readings), Some(vec!["xi".to_string(), "an".to_string()]));
}

#[test]
fn tokenize_takes_longest_known_words() {
    let (g, readings, _) = general();
    let mut vocab = PersonalVocab::new(g.len() as u32);
    let units = parse_units("随机梯度");
    let syls = align(&units, "suijitidu", &readings);
    let t = tokenize(&mut vocab, &g, &units, &syls);
    assert_eq!(t.sentences.len(), 1);
    assert_eq!(t.sentences[0], vec![g.get("随机").unwrap(), g.get("梯度").unwrap()]);
    let keys: Vec<Option<&str>> = t.zh_words.iter().map(|z| z.key.as_deref()).collect();
    assert_eq!(keys, vec![Some("sui ji"), Some("ti du")]);
    assert!(t.en_words.is_empty());
}

#[test]
fn tokenize_numbers_new_words_past_the_general_vocabulary() {
    let (g, _readings, _) = general();
    let base = g.len() as u32;
    let mut vocab = PersonalVocab::new(base);
    let units = parse_units("EEG水,ok EEG x");
    let t = tokenize(&mut vocab, &g, &units, &None);
    // EEG -> eeg (new), 水 (new single hanzi); ',' and ' ' end sentences; ok (new), eeg again; "x" too short
    assert_eq!(t.sentences, vec![vec![base, base + 1], vec![base + 2], vec![base]]);
    let en: Vec<(&str, &str, u32)> = t.en_words.iter().map(|e| (e.surface.as_str(), e.lower.as_str(), e.tok)).collect();
    assert_eq!(en, vec![("EEG", "eeg", base), ("ok", "ok", base + 2), ("EEG", "eeg", base)]);
    assert!(vocab.known_word(&g, "eeg"));
    assert!(!vocab.known_word(&g, "x"));
}

#[test]
fn plan_learning_resolves_whole_phrase() {
    let (g, readings, _) = general();
    let base = g.len() as u32;
    let mut vocab = PersonalVocab::new(base);
    let plan = plan_learning(&mut vocab, &g, &readings, "你好你", Some("nihaoni")).expect("something to learn");
    // greedy: 你好 + 你
    assert_eq!(plan.tokens.sentences[0], vec![g.get("你好").unwrap(), g.get("你").unwrap()]);
    assert_eq!(plan.phrase, Some(base));
    assert_eq!(plan.phrase_key.as_deref(), Some("ni hao ni"));
    assert_eq!(plan.syllables.as_ref().map(|s| s.len()), Some(3));
    assert!(plan_learning(&mut vocab, &g, &readings, "", Some("x")).is_none());
    let plan = plan_learning(&mut vocab, &g, &readings, "你好,", None).unwrap();
    assert_eq!(plan.phrase, None);
    assert!(is_phrase_exec("随机梯度"));
    assert!(!is_phrase_exec("你"));
    assert!(!is_phrase_exec("你好a"));
}

#[test]
fn personal_arcs_add_oov_words_once() {
    let (g, readings, dict_tokens) = general();
    let mut vocab = PersonalVocab::new(g.len() as u32);
    let tok = vocab.token(&g, "你好你");
    let mut arcs = PersonalArcs::new();
    // no aligned key: first readings of each hanzi
    assert!(arcs.add_zh_arc(&dict_tokens, &readings, tok, "你好你", None));
    assert!(!arcs.add_zh_arc(&dict_tokens, &readings, tok, "你好你", Some("ni hao ni")));
    let found = arcs.zh_matcher().for_matches("nihaoni", 0);
    assert_eq!(found.len(), 1);
    assert_eq!(found[0].0, 7);
    assert_eq!(found[0].1[0].text, "你好你");
    assert_eq!(found[0].1[0].pinyin, "ni hao ni");
    // dictionary words and unreadable words get no arc
    let dict_tok = g.get("随机").unwrap();
    assert!(!arcs.add_zh_arc(&dict_tokens, &readings, dict_tok, "随机", Some("sui ji")));
    let water = vocab.token(&g, "水水");
    assert!(!arcs.add_zh_arc(&dict_tokens, &readings, water, "水水", Some("")));
    assert!(arcs.add_zh_arc(&dict_tokens, &readings, water, "水水", Some("shui shui")));
    assert!(arcs.has_zh(water));
    assert_eq!(arcs.zh_count(), 2);
    assert_eq!(arcs.en_count(), 0);
    assert_eq!(arcs.zh_matcher().key_count(), 2);
}

#[test]
fn english_arc_follows_the_preferred_casing() {
    let mut arcs = PersonalArcs::new();
    arcs.set_en_arc(40, "eeg", "Eeg");
    arcs.set_en_arc(40, "eeg", "EEG");
    let found = arcs.en_matcher().for_matches("eeg", 0);
    assert_eq!(found[0].1.len(), 1);
    assert_eq!(found[0].1[0].text, "EEG");
    assert_eq!(arcs.surface(40).map(|s| s.as_str()), Some("EEG"));
    assert!(arcs.has_en(40));
    assert!(!arcs.has_en(41));
    assert_eq!(arcs.en_count(), 1);
}

#[test]
fn correction_takes_the_newest_contradicted_record() {
    let mut w: RecentWindow<u32> = RecentWindow::new();
    w.remember("suijitidu".to_string(), "随即梯度".to_string(), Some(1));
    w.remember("suijitidu".to_string(), "随即梯度".to_string(), Some(2));
    w.remember("other".to_string(), "x".to_string(), Some(3));
    // same input, same text: no correction
    assert_eq!(w.take_contradicted("suijitidu", "随即梯度"), None);
    // same input, different text: the newest one, taken once
    assert_eq!(w.take_contradicted("suijitidu", "随机梯度"), Some(2));
    assert_eq!(w.take_contradicted("suijitidu", "随机梯度"), Some(1));
    assert_eq!(w.take_contradicted("suijitidu", "随机梯度"), None);
}

#[test]
fn recent_window_keeps_the_last_commits() {
    let mut w: RecentWindow<usize> = RecentWindow::new();
    for i in 0..(RECENT_WINDOW + 4) {
        w.remember(format!("k{}", i), "t".to_string(), Some(i));
    }
    assert_eq!(w.len(), RECENT_WINDOW);
    assert_eq!(w.take_contradicted("k0", "u"), None);
    assert_eq!(w.take_contradicted("k4", "u"), Some(4));
}

#[test]
fn cold_start_lines_classify() {
    assert!(matches!(classify_line("# personal-artifacts-v0"), PersonalLine::Skip));
    assert!(matches!(classify_line(""), PersonalLine::Skip));
    assert!(matches!(classify_line("lex\thfo"), PersonalLine::BadColumns));
    match classify_line("lex\thfo\t12.5") {
        PersonalLine::Lex { word, count } => assert_eq!((word.as_str(), count.as_str()), ("hfo", "12.5")),
        _ => panic!("lex"),
    }
    match classify_line("case\tresnet\tResNet") {
        PersonalLine::Case { word, surface } => assert_eq!((word.as_str(), surface.as_str()), ("resnet", "ResNet")),
        _ => panic!("case"),
    }
    match classify_line("zhword\t随机梯度\tsui ji ti du") {
        PersonalLine::ZhWord { word, key } => assert_eq!((word.as_str(), key.as_str()), ("随机梯度", "sui ji ti du")),
        _ => panic!("zhword"),
    }
    match classify_line("3\t<s> 随机 梯度\t2.0") {
        PersonalLine::Ngram { order, words, count } => {
            assert_eq!(order, 3);
            assert_eq!(words, vec!["<s>", "随机", "梯度"]);
            assert_eq!(count, "2.0");
        }
        _ => panic!("ngram"),
    }
    match classify_line("teleport\ta\tb") {
        PersonalLine::Unknown { kind } => assert_eq!(kind, "teleport"),
        _ => panic!("unknown"),
    }
}

#[test]
fn cold_start_ngrams_need_enough_words() {
    let (g, _r, _t) = general();
    let mut vocab = PersonalVocab::new(g.len() as u32);
    let words = vec!["<s>".to_string(), "你好你".to_string()];
    let ids = ngram_tokens(&mut vocab, &g, &words, 2).expect("two words");
    assert_eq!(ids, vec![g.get("<s>").unwrap(), g.len() as u32]);
    assert!(ngram_tokens(&mut vocab, &g, &words, 3).is_none());
}

#[test]
fn helpers_join_and_strip_spaces() {
    let parts = vec!["sui".to_string(), "ji".to_string(), "ti".to_string()];
    assert_eq!(join_spaced_exec(&parts, 0, 3), "sui ji ti");
    assert_eq!(join_spaced_exec(&parts, 1, 2), "ji");
    assert_eq!(join_spaced_exec(&parts, 2, 2), "");
    assert_eq!(without_spaces_exec(" sui ji "), "suiji");
}

#[test]
fn days_count_from_the_epoch() {
    assert_eq!(day_of_secs(0), 0);
    assert_eq!(day_of_secs(86_399), 0);
    assert_eq!(day_of_secs(86_400), 1);
    assert!(today() > 19_000);
}
