use mochi_brain::artifacts::{
    build_dict, header_value, ngram_ids, parse_english, rank_cands, str_bytes_lt, tsv_rows, Cand, DictLine, Lexicon,
    MAX_CHARS_PER_KEY, MAX_WORDS_PER_KEY,
};
use mochi_brain::interner::Interner;

const MINI_DICT: &str = "\
# key<TAB>text<TAB>weight
ni hao\t你好\t5000
ni\t你\t3000
ni\t尼\t300
hao\t好\t2000
hao\t号\t100
wo\t我\t3000
yao\t要\t2000
yao\t药\t200
ce shi\t测试\t1500
ce\t测\t100
shi\t是\t2000
shi\t试\t300
yong gan\t勇敢\t800
yong\t用\t900
gan\t敢\t300
gan\t干\t500
te\t特\t400
zhong wen\t中文\t1000
zhong\t中\t1500
wen\t文\t500
shu ru\t输入\t900
shu\t书\t400
ru\t入\t200
sui ji\t随即\t900
sui ji\t随机\t800
ti du\t梯度\t200
sui\t随\t500
ji\t机\t400
ji\t即\t350
ti\t梯\t100
du\t度\t300
";

const MINI_NGRAM: &str = "\
# order<TAB>token1[ token2[ token3]]<TAB>count
# total_tokens=100000
# backoff=stupid:0.4
1\t你好\t500
1\t你\t800
1\t好\t600
1\t我\t900
1\t要\t500
1\t测试\t300
1\t勇敢\t200
1\t用\t300
1\t敢\t50
1\t干\t100
1\t中文\t250
1\t输入\t240
1\t是\t700
1\t试\t60
1\t测\t40
1\t尼\t10
1\t号\t20
1\t药\t30
1\t特\t80
1\t书\t60
1\t入\t40
1\t文\t90
1\t中\t400
1\t随即\t200
1\t随机\t50
1\t梯度\t30
1\t随\t20
1\t机\t30
1\t即\t25
1\t梯\t5
1\t度\t40
2\t<s> 你好\t200
2\t<s> 我\t300
2\t我 要\t200
2\t要 测试\t80
2\t要 勇敢\t50
3\t<s> <s> 你好\t150
3\t<s> 我 要\t120
3\t我 要 测试\t60
3\t我 要 勇敢\t30
";

const MINI_ENGLISH: &str = "\
# word<TAB>rank
test\t1
gan\t2
the\t3
a\t4
";

fn dict_lines(text: &str) -> Vec<DictLine> {
    tsv_rows(text)
        .rows
        .into_iter()
        .map(|r| DictLine { key: r.a, text: r.b, weight: r.c.parse::<f64>().map(|f| f as i64).unwrap_or(0) })
        .collect()
}

#[test]
fn parses_mini_artifacts_counts_and_headers() {
    let mut interner = Interner::new();
    interner.intern("<s>");
    assert_eq!(header_value(MINI_NGRAM, "backoff=stupid:").as_deref(), Some("0.4"));
    assert_eq!(header_value(MINI_NGRAM, "total_tokens=").as_deref(), Some("100000"));
    let rows = tsv_rows(MINI_NGRAM);
    assert_eq!(rows.bad_line, None);
    let mut counts = (0, 0, 0);
    for row in &rows.rows {
        let order: usize = row.a.parse().unwrap();
        match order {
            1 => counts.0 += 1,
            2 => counts.1 += 1,
            _ => counts.2 += 1,
        }
        let ids = ngram_ids(&mut interner, &row.b, order);
        assert_eq!(ids.len(), order);
    }
    assert_eq!(counts, (31, 5, 4));
    let lex = Lexicon::build(&mut interner, &dict_lines(MINI_DICT), MINI_ENGLISH);
    assert_eq!(lex.dict_entries, 31);
    // "a" is filtered (len < 2), so 3 English entries
    assert_eq!(lex.english_words, 3);
    assert!(lex.syllables.segment("nihao").is_some());
    assert!(lex.syllables.segment("zhongwenshuru").is_some());
}

#[test]
fn missing_headers_are_rejected() {
    // loading refuses a file whose headers the library does not find
    let bad = "# no headers here\n1\tx\t1\n";
    assert_eq!(header_value(bad, "backoff=stupid:"), None);
    assert_eq!(header_value(bad, "total_tokens="), None);
}

#[test]
fn header_value_takes_last_header_line_and_stops_at_data() {
    let text = "# total_tokens=5\n# total_tokens= 7 \n1\tx\t1\n# total_tokens=9\n";
    assert_eq!(header_value(text, "total_tokens=").as_deref(), Some(" 7 "));
    assert_eq!(header_value("#a=1a=2\n", "a=").as_deref(), Some("1"));
    assert_eq!(header_value("\n# a=1\n", "a="), None);
}

#[test]
fn tsv_rows_stop_at_a_short_line() {
    let rows = tsv_rows("# c\n\na\tb\tc\td\nx\ty\n1\t2\t3\n");
    assert_eq!(rows.rows.len(), 1);
    assert_eq!(rows.rows[0].line, 3);
    assert_eq!((rows.rows[0].a.as_str(), rows.rows[0].b.as_str(), rows.rows[0].c.as_str()), ("a", "b", "c"));
    assert_eq!(rows.bad_line, Some(4));
    let ok = tsv_rows("a\tb\tc\r\nd\te\tf");
    assert_eq!(ok.bad_line, None);
    assert_eq!(ok.rows[0].c, "c");
    assert_eq!(ok.rows[1].line, 2);
}

#[test]
fn ngram_ids_fill_missing_words_with_empty_token() {
    let mut interner = Interner::new();
    let ids = ngram_ids(&mut interner, "我", 3);
    assert_eq!(ids.len(), 3);
    assert_eq!(interner.resolve(ids[0]), "我");
    assert_eq!(interner.resolve(ids[1]), "");
    assert_eq!(ids[1], ids[2]);
}

#[test]
fn dictionary_keeps_best_candidates_per_key() {
    let mut text = String::new();
    for i in 0..12 {
        // words under one key, weights 0..11; keep the 8 heaviest
        text.push_str(&format!("ab cd\t词{}\t{}\n", i, i));
    }
    text.push_str("ab cd\t词z\t11\n"); // tie on weight: text descending puts 词z first
    let mut interner = Interner::new();
    let t = build_dict(&dict_lines(&text), &mut interner);
    let found = t.word_matcher.for_matches("abcd", 0);
    assert_eq!(found.len(), 1);
    let texts: Vec<&str> = found[0].1.iter().map(|e| e.text.as_str()).collect();
    assert_eq!(texts.len(), MAX_WORDS_PER_KEY);
    assert_eq!(texts[0], "词z");
    assert_eq!(texts[1], "词11");
    assert_eq!(texts[7], "词5");
    assert_eq!(found[0].1[0].pinyin, "ab cd");
    for e in found[0].1.iter() {
        assert_eq!(interner.resolve(e.lm_token), e.text);
        assert!(t.dict_tokens.contains(e.lm_token));
    }
    assert_eq!(t.dict_entries, 13);
    assert!(t.char_matcher.for_matches("abcd", 0).is_empty());
    assert_eq!(t.syllables.len(), 2);
    assert_eq!(MAX_CHARS_PER_KEY, 16);
}

#[test]
fn readings_are_longest_first_and_unique() {
    let text = "a\t啊\t1\nan\t啊\t2\nang\t啊\t3\nan\t啊\t4\nb a\t吧\t1\n";
    let mut interner = Interner::new();
    let t = build_dict(&dict_lines(text), &mut interner);
    let r: Vec<&str> = t.char_pinyin.get('啊').unwrap().iter().map(|s| s.as_str()).collect();
    assert_eq!(r, vec!["ang", "an", "a"]);
    // a two-syllable key of a single hanzi reads concatenated
    let r: Vec<&str> = t.char_pinyin.get('吧').unwrap().iter().map(|s| s.as_str()).collect();
    assert_eq!(r, vec!["ba"]);
    assert!(t.char_pinyin.get('你').is_none());
}

#[test]
fn english_keeps_lowercase_alpha_words_with_file_casing() {
    let mut interner = Interner::new();
    let (m, n) = parse_english("# w\nResNet\t1\na\t2\nx2\t3\n\nok\t4\n", &mut interner);
    assert_eq!(n, 2);
    let found = m.for_matches("resnet", 0);
    assert_eq!(found.len(), 1);
    assert_eq!(found[0].1[0].text, "ResNet");
    assert_eq!(found[0].1[0].pinyin, "resnet");
    assert_eq!(interner.resolve(found[0].1[0].lm_token), "resnet");
    assert!(m.for_matches("x2", 0).is_empty());
}

#[test]
fn ranking_is_stable_weight_then_text_descending() {
    let c = |w: i64, t: &str, s: &str| Cand { weight: w, text: t.to_string(), spaced: s.to_string() };
    let ranked = rank_cands(vec![c(1, "b", "1"), c(3, "a", "2"), c(1, "c", "3"), c(1, "b", "4")]);
    let got: Vec<(&str, &str)> = ranked.iter().map(|x| (x.text.as_str(), x.spaced.as_str())).collect();
    assert_eq!(got, vec![("a", "2"), ("c", "3"), ("b", "1"), ("b", "4")]);
    assert!(str_bytes_lt("ab", "b"));
    assert!(str_bytes_lt("a", "ab"));
    assert!(!str_bytes_lt("b", "b"));
}
