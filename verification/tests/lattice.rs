use mochi_brain::artifacts::{tsv_rows, DictLine, Lexicon, ngram_ids};
use mochi_brain::interner::Interner;
use mochi_brain::lattice::{ArcKind, Entry, Matcher, PersonalMatchers, SyllableSet};

const MINI_DICT: &str = "\
# key<TAB>text<TAB>weight
ni hao\t你好\t5000
ni\t你\t3000
ni\t尼\t300
hao\t好\t2000
hao\t号\t100
wo\t我\t3000
yao\t要\t2000
yao\t药\t200
ce shi\t测试\t1500
ce\t测\t100
shi\t是\t2000
shi\t试\t300
yong gan\t勇敢\t800
yong\t用\t900
gan\t敢\t300
gan\t干\t500
te\t特\t400
zhong wen\t中文\t1000
zhong\t中\t1500
wen\t文\t500
shu ru\t输入\t900
shu\t书\t400
ru\t入\t200
sui ji\t随即\t900
sui ji\t随机\t800
ti du\t梯度\t200
sui\t随\t500
ji\t机\t400
ji\t即\t350
ti\t梯\t100
du\t度\t300
";

const MINI_NGRAM: &str = "\
# order<TAB>token1[ token2[ token3]]<TAB>count
# total_tokens=100000
# backoff=stupid:0.4
1\t你好\t500
1\t你\t800
2\t<s> 你好\t200
3\t<s> <s> 你好\t150
";

const MINI_ENGLISH: &str = "\
# word<TAB>rank
test\t1
gan\t2
the\t3
a\t4
";

fn dict_lines(text: &str) -> Vec<DictLine> {
    let rows = tsv_rows(text);
    assert!(rows.bad_line.is_none());
    rows.rows
        .into_iter()
        .map(|r| DictLine {
            key: r.a,
            text: r.b,
            weight: r.c.parse::<f64>().map(|f| f as i64).unwrap_or(0),
        })
        .collect()
}

fn mini() -> (Interner, Lexicon) {
    let mut interner = Interner::new();
    interner.intern("<s>");
    for row in tsv_rows(MINI_NGRAM).rows {
        let order: usize = row.a.parse().unwrap();
        ngram_ids(&mut interner, &row.b, order);
    }
    let lex = Lexicon::build(&mut interner, &dict_lines(MINI_DICT), MINI_ENGLISH);
    (interner, lex)
}

#[test]
fn syllable_segmentation_longest_match_with_backtracking() {
    let mut s = SyllableSet::new();
    for syl in ["ni", "hao", "zhong", "wen", "wo", "yao", "ce", "shi", "xi", "an", "xian"] {
        s.add(syl);
    }
    assert_eq!(s.segment("nihao").unwrap(), vec!["ni", "hao"]);
    assert_eq!(s.segment("zhongwen").unwrap(), vec!["zhong", "wen"]);
    // longest-first picks "xian" over "xi an"
    assert_eq!(s.segment("xian").unwrap(), vec!["xian"]);
    assert!(s.segment("xiani").is_none());
    assert!(s.segment("nih").is_none());
    assert!(s.segment("gan").is_none()); // not in this mini inventory
}

#[test]
fn lattice_lays_char_word_english_arcs() {
    let (_interner, lex) = mini();
    let arcs = lex.builder.build("nihao", None);
    let at0: Vec<(&str, ArcKind, usize)> = arcs[0].iter().map(|a| (a.text, a.kind, a.end)).collect();
    assert!(at0.contains(&("你", ArcKind::PyChar, 2)));
    assert!(at0.contains(&("你好", ArcKind::PyWord, 5)));
    let nihao = arcs[0].iter().find(|a| a.text == "你好").unwrap();
    assert_eq!(nihao.pinyin, "ni hao");

    let arcs = lex.builder.build("gan", None);
    let kinds: Vec<(&str, ArcKind)> = arcs[0].iter().map(|a| (a.text, a.kind)).collect();
    assert!(kinds.contains(&("敢", ArcKind::PyChar)));
    assert!(kinds.contains(&("gan", ArcKind::EnWord)));
}

#[test]
fn personal_arcs_join_and_shadow_general_english() {
    let (_interner, lex) = mini();
    let mut zh = Matcher::new();
    zh.add("suiji", Entry { text: "随机".to_string(), pinyin: "sui ji".to_string(), lm_token: 900 });
    let mut en = Matcher::new();
    let test_token = lex
        .builder
        .build("test", None)[0]
        .iter()
        .find(|a| a.kind == ArcKind::EnWord && a.text == "test")
        .expect("general english arc for 'test'")
        .lm_token;
    en.add("test", Entry { text: "TEST".to_string(), pinyin: "test".to_string(), lm_token: test_token });
    let personal = PersonalMatchers { zh: &zh, en: &en };
    let arcs = lex.builder.build("test", Some(personal));
    let en_arcs: Vec<(&str, ArcKind)> = arcs[0].iter().filter(|a| a.end == 4).map(|a| (a.text, a.kind)).collect();
    assert!(en_arcs.contains(&("TEST", ArcKind::EnPersonal)));
    assert!(!en_arcs.contains(&("test", ArcKind::EnWord)));

    let personal = PersonalMatchers { zh: &zh, en: &en };
    let arcs = lex.builder.build("suiji", Some(personal));
    assert!(arcs[0].iter().any(|a| a.text == "随机" && a.kind == ArcKind::PyPersonal && a.end == 5));
}

#[test]
fn lattice_fallback_covers_unmatched_positions() {
    let (_interner, lex) = mini();
    let arcs = lex.builder.build("nivx", None);
    assert_eq!(arcs[2].len(), 1);
    assert_eq!(arcs[2][0].kind, ArcKind::FallbackTail);
    assert_eq!(arcs[2][0].text, "v");
    assert_eq!(arcs[2][0].end, 3);
    assert!(arcs.iter().all(|a| !a.is_empty()));
}

#[test]
fn mid_stream_fallback_stays_expensive_tail_is_cheap() {
    let (_interner, lex) = mini();
    let arcs = lex.builder.build("vni", None);
    assert_eq!(arcs[0][0].kind, ArcKind::Fallback);
    let arcs = lex.builder.build("nihaoc", None);
    let last = arcs[5].iter().find(|a| a.text == "c").unwrap();
    assert_eq!(last.kind, ArcKind::FallbackTail);
}

#[test]
fn fallback_arc_carries_letter_token() {
    let (interner, lex) = mini();
    let arcs = lex.builder.build("nivx", None);
    let v = &arcs[2][0];
    assert_eq!(interner.resolve(v.lm_token), "v");
}

#[test]
fn for_matches_reports_every_key_ending() {
    let mut m = Matcher::new();
    m.add("ni", Entry { text: "你".to_string(), pinyin: "ni".to_string(), lm_token: 1 });
    m.add("nihao", Entry { text: "你好".to_string(), pinyin: "ni hao".to_string(), lm_token: 2 });
    m.add("ni", Entry { text: "尼".to_string(), pinyin: "ni".to_string(), lm_token: 3 });
    let found = m.for_matches("nihaoma", 0);
    let ends: Vec<usize> = found.iter().map(|(e, _)| *e).collect();
    assert_eq!(ends, vec![2, 5]);
    let texts: Vec<&str> = found[0].1.iter().map(|e| e.text.as_str()).collect();
    assert_eq!(texts, vec!["你", "尼"]);
    assert!(m.for_matches("hao", 0).is_empty());
}

#[test]
fn set_text_changes_only_the_matching_token() {
    let mut m = Matcher::new();
    m.add("eeg", Entry { text: "eeg".to_string(), pinyin: "eeg".to_string(), lm_token: 7 });
    m.add("eeg", Entry { text: "Eeg".to_string(), pinyin: "eeg".to_string(), lm_token: 8 });
    m.set_text("eeg", 7, "EEG");
    let found = m.for_matches("eeg", 0);
    let texts: Vec<&str> = found[0].1.iter().map(|e| e.text.as_str()).collect();
    assert_eq!(texts, vec!["EEG", "Eeg"]);
}

#[test]
fn est_bytes_counts_keys_entries_and_prefixes() {
    let mut m = Matcher::new();
    assert_eq!(m.est_bytes(), 0);
    m.add("ab", Entry { text: "x".to_string(), pinyin: "ab".to_string(), lm_token: 1 });
    // key 2 + 48; entry 1 + 2 + 40; prefixes "a" and "ab": 1 + 40 + 2 + 40
    assert_eq!(m.est_bytes(), 50 + 43 + 83);
    m.add("a", Entry { text: "y".to_string(), pinyin: "a".to_string(), lm_token: 2 });
    // key 1 + 48; entry 1 + 1 + 40; no new prefix
    assert_eq!(m.est_bytes(), 50 + 43 + 83 + 49 + 42);
    assert_eq!(m.key_count(), 2);
}

#[test]
fn half_typed_syllable_completes_and_keeps_raw_tail() {
    let (_interner, lex) = mini();
    let arcs = lex.builder.build("woyaoc", None);
    let ce = arcs[5].iter().find(|a| a.text == "测").expect("typing-ahead arc for c");
    assert!(ce.completed);
    assert_eq!(ce.typed_len, 1);
    assert_eq!(ce.end, 6);
    assert_eq!(ce.pinyin, "ce");
    assert_eq!(ce.kind, ArcKind::PyChar);
    assert!(!ce.fuzzy);
    // the raw letter stays as the cheap unfinished tail
    let raw = arcs[5].iter().find(|a| a.text == "c").unwrap();
    assert_eq!(raw.kind, ArcKind::FallbackTail);
    assert!(!raw.completed);
    // one typed letter completes characters only, not words
    assert!(!arcs[5].iter().any(|a| a.kind == ArcKind::PyWord));
}

#[test]
fn completion_finishes_word_keys_and_english() {
    let (_interner, lex) = mini();
    let arcs = lex.builder.build("woyaocesh", None);
    let ceshi = arcs[5].iter().find(|a| a.text == "测试" && a.completed).expect("word completion");
    assert_eq!(ceshi.kind, ArcKind::PyWord);
    assert_eq!(ceshi.typed_len, 4);
    assert_eq!(ceshi.end, 9);
    assert_eq!(ceshi.pinyin, "ce shi");
    // "sh" completes the characters read shi
    assert!(arcs[7].iter().any(|a| a.text == "试" && a.completed && a.typed_len == 2));
    let arcs = lex.builder.build("tes", None);
    let test = arcs[0].iter().find(|a| a.text == "test").expect("english completion");
    assert_eq!(test.kind, ArcKind::EnWord);
    assert!(test.completed);
    assert_eq!(test.typed_len, 3);
    assert_eq!(test.end, 3);
    // a whole key is no completion of itself
    let arcs = lex.builder.build("test", None);
    assert!(!arcs[0].iter().any(|a| a.completed));
}

#[test]
fn personal_words_complete_too() {
    let (_interner, lex) = mini();
    let zh = Matcher::new();
    let mut en = Matcher::new();
    en.add("mochi", Entry { text: "Mochi".to_string(), pinyin: "mochi".to_string(), lm_token: 901 });
    let personal = PersonalMatchers { zh: &zh, en: &en };
    let arcs = lex.builder.build("moc", Some(personal));
    let mochi = arcs[0].iter().find(|a| a.text == "Mochi").expect("personal completion");
    assert_eq!(mochi.kind, ArcKind::EnPersonal);
    assert!(mochi.completed);
    assert_eq!(mochi.typed_len, 3);
}

#[test]
fn fuzzy_initial_reaches_retroflex_reading() {
    let (_interner, lex) = mini();
    let arcs = lex.builder.build("zongwen", None);
    let zhong = arcs[0].iter().find(|a| a.text == "中").expect("fuzzy z -> zh");
    assert!(zhong.fuzzy);
    assert!(!zhong.completed);
    assert_eq!(zhong.end, 4);
    assert_eq!(zhong.pinyin, "zhong");
    assert_eq!(zhong.kind, ArcKind::PyChar);
    assert!(arcs[4].iter().any(|a| a.text == "文" && !a.fuzzy && a.end == 7));
    // exact spelling lays no fuzzy arc for the same reading
    let arcs = lex.builder.build("zhongwen", None);
    assert!(arcs[0].iter().any(|a| a.text == "中" && !a.fuzzy));
    assert!(!arcs[0].iter().any(|a| a.fuzzy));
}

#[test]
fn fuzzy_final_swaps_nasal_ending() {
    let (_interner, lex) = mini();
    let arcs = lex.builder.build("weng", None);
    // the exact reading of "wen" ends at 3; the fuzzy one spans all of "weng"
    assert!(arcs[0].iter().any(|a| a.text == "文" && a.end == 3 && !a.fuzzy));
    let wen = arcs[0].iter().find(|a| a.text == "文" && a.end == 4).expect("fuzzy eng -> en");
    assert!(wen.fuzzy);
    assert_eq!(wen.pinyin, "wen");
    // s/sh: "su" also reads shu
    let arcs = lex.builder.build("su", None);
    assert!(arcs[0].iter().any(|a| a.text == "书" && a.fuzzy && a.end == 2));
    let arcs = lex.builder.build("nihao", None);
    assert!(!arcs.iter().any(|v| v.iter().any(|a| a.fuzzy)));
}

#[test]
fn completions_list_keys_begun_by_the_tail_in_key_order() {
    let mut m = Matcher::new();
    m.add("shi", Entry { text: "是".to_string(), pinyin: "shi".to_string(), lm_token: 1 });
    m.add("sh", Entry { text: "x".to_string(), pinyin: "sh".to_string(), lm_token: 2 });
    m.add("shu", Entry { text: "书".to_string(), pinyin: "shu".to_string(), lm_token: 3 });
    m.add("ce", Entry { text: "测".to_string(), pinyin: "ce".to_string(), lm_token: 4 });
    let found: Vec<&str> = m.completions("sh").iter().map(|es| es[0].text.as_str()).collect();
    assert_eq!(found, vec!["是", "书"]);
    assert!(m.completions("q").is_empty());
    assert!(m.completions("shi").is_empty());
    assert_eq!(m.lookup("ce").map(|es| es.len()), Some(1));
    assert!(m.lookup("c").is_none());
}
