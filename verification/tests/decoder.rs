use mochi_brain::decoder::{ghost_of, materialize, order_candidates, PathNode};
use mochi_brain::lm::{bi_history, bi_key, tri_history, tri_key};
use mochi_brain::protocol::{dispatch, Reply, Request, PROTOCOL_VERSION};
use mochi_brain::transport::{wide, MAX_MESSAGE, PIPE_NAME};

fn node<'a>(parent: i32, text: &'a str, pinyin: &'a str) -> PathNode<'a> {
    PathNode { parent, text, pinyin, en: false, completed: false, typed_len: 0, fuzzy: false, raw: false }
}

#[test]
fn ghost_is_the_untyped_tail() {
    // 测试 typed as "ces": "shi" is only partly typed, so 试 is ghost
    assert_eq!(ghost_of("测试", "ce shi", 3), "试");
    assert_eq!(ghost_of("测试", "ce shi", 5), "");
    assert_eq!(ghost_of("测试", "ce shi", 0), "测试");
    // English completion: the untyped letters
    assert_eq!(ghost_of("test", "test", 3), "t");
}

#[test]
fn materialize_joins_path_text_and_preedit() {
    let nodes = vec![node(-1, "我", "wo"), node(0, "要", "yao"), node(1, "测试", "ce shi")];
    let m = materialize(&nodes, 2, 10);
    assert_eq!(m.text, "我要测试");
    assert_eq!(m.preedit, "wo yao ce shi");
    assert_eq!(m.len, 10);
    assert!(!m.completed && !m.fuzzy && !m.raw);
    assert_eq!(m.ghost_text, "");
    let mut en = vec![node(-1, "the", "the"), node(0, "test", "test")];
    en[0].en = true;
    en[1].en = true;
    let m = materialize(&en, 1, 7);
    assert_eq!(m.text, "the test");
    assert_eq!(m.preedit, "the test");
}

#[test]
fn materialize_marks_untyped_completion() {
    let mut nodes = vec![node(-1, "我要", "wo yao"), node(0, "测试", "ce shi")];
    nodes[1].completed = true;
    nodes[1].typed_len = 1;
    let m = materialize(&nodes, 1, 6);
    assert!(m.completed);
    assert_eq!(m.ghost_text, "测试");
    assert_eq!(m.preedit, "wo yao c‥e shi");
}

#[test]
fn full_candidates_lead_then_prefixes() {
    assert_eq!(order_candidates(vec![1, 2, 3, 4], vec![9, 8]), vec![1, 2, 3, 9, 8, 4]);
    assert_eq!(order_candidates(vec![1], vec![9]), vec![1, 9]);
    assert_eq!(order_candidates(Vec::<u8>::new(), vec![9]), vec![9]);
}

#[test]
fn ngram_keys_pack_and_unpack() {
    assert_eq!(bi_key(1, 2), (1u64 << 32) | 2);
    assert_eq!(tri_key(1, 2, 3), (1u128 << 64) | (2u128 << 32) | 3);
    assert_eq!(tri_history(tri_key(5, 6, 7)), bi_key(5, 6));
    assert_eq!(bi_history(bi_key(5, 6)), 5);
    assert_ne!(bi_key(1, 2), bi_key(2, 1));
}

#[test]
fn query_echoes_and_commit_acknowledges() {
    let q = Request::Query { v: 1, input: "nihao".to_string(), seg: Some([0, 5]), scene: None, session: None };
    match dispatch(&q) {
        Reply::Echo { text, comment, preedit } => {
            assert_eq!(text, "MOCHI_BRAIN:nihao");
            assert_eq!(comment, "echo");
            assert_eq!(preedit, "\u{00ab}nihao\u{00bb}");
        }
        _ => panic!("expected echo"),
    }
    let c = Request::Commit { v: 1, text: "你好".to_string(), input: Some("nihao".to_string()), scene: None };
    match dispatch(&c) {
        Reply::Acknowledged(ok) => assert!(ok.ok && ok.v == PROTOCOL_VERSION),
        _ => panic!("expected ok"),
    }
    let bad = Request::Query { v: 99, input: "x".to_string(), seg: None, scene: None, session: None };
    match dispatch(&bad) {
        Reply::Unsupported(e) => assert_eq!(e.error, "unsupported"),
        _ => panic!("expected unsupported"),
    }
}

#[test]
fn wide_strings_end_with_nul() {
    assert_eq!(wide("ab"), vec![97, 98, 0]);
    assert_eq!(wide("你"), vec![0x4f60, 0]);
    assert_eq!(wide("𝄞"), vec![0xd834, 0xdd1e, 0]);
    assert!(PIPE_NAME.starts_with("\\\\.\\pipe\\"));
    assert_eq!(MAX_MESSAGE, 65536);
}
