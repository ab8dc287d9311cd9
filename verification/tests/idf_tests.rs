use idf::idf::{flatten_doc, flatten_token, Document, Idf, IdfData, MIN_DF};
use idf::token::{token_cmp, Token};

fn w(s: &str) -> Token {
    Token::Word { word: String::from(s), stem: None }
}

fn ws(s: &str, stem: &str) -> Token {
    Token::Word { word: String::from(s), stem: Some(String::from(stem)) }
}

fn count_in(acc: &Idf, t: &Token) -> Option<u64> {
    for (k, v) in acc.words.iter() {
        if token_cmp(k, t) == 0 {
            return Some(*v);
        }
    }
    None
}

#[test]
fn new_is_empty() {
    let acc = Idf::new();
    assert_eq!(acc.docs_count(), 0);
    assert_eq!(acc.words_count(), 0);
    assert!(acc.words.is_empty());
}

#[test]
fn count_document_counts_occurrences_without_dedup() {
    let mut acc = Idf::new();
    let doc = Document { id: 1, words: vec![w("cat"), w("cat"), w("cat"), w("dog")] };
    acc.count_document(&doc);
    assert_eq!(acc.docs_count(), 1);
    assert_eq!(acc.words_count(), 2);
    assert_eq!(count_in(&acc, &w("cat")), Some(3));
    assert_eq!(count_in(&acc, &w("dog")), Some(1));
}

#[test]
fn bbcode_counts_text_never_data() {
    let mut acc = Idf::new();
    let compound = Token::BBCode {
        text: vec![w("alpha"), w("beta"), w("alpha")],
        data: vec![w("hidden"), w("alpha")],
    };
    let doc = Document { id: 7, words: vec![compound, w("gamma")] };
    acc.count_document(&doc);
    assert_eq!(acc.docs_count(), 1);
    assert_eq!(count_in(&acc, &w("alpha")), Some(2));
    assert_eq!(count_in(&acc, &w("beta")), Some(1));
    assert_eq!(count_in(&acc, &w("gamma")), Some(1));
    assert_eq!(count_in(&acc, &w("hidden")), None);
}

#[test]
fn flattening_descends_exactly_one_level() {
    let nested = Token::BBCode { text: vec![w("deep")], data: vec![] };
    let outer = Token::BBCode { text: vec![nested.clone(), w("top")], data: vec![w("aux")] };
    let flat = flatten_token(&outer);
    assert_eq!(flat, vec![nested.clone(), w("top")]);
    let plain = flatten_token(&w("solo"));
    assert_eq!(plain, vec![w("solo")]);
    let all = flatten_doc(&vec![outer, w("tail")]);
    assert_eq!(all, vec![nested, w("top"), w("tail")]);
}

#[test]
fn token_order_by_variant_then_payload() {
    assert!(token_cmp(&w("same"), &w("same")) == 0);
    assert!(token_cmp(&w("abc"), &w("abd")) < 0);
    assert!(token_cmp(&w("ab"), &w("abc")) < 0);
    assert!(token_cmp(&w("zzz"), &Token::Number { word: String::from("0") }) < 0);
    assert!(token_cmp(&Token::Url { word: String::from("u") }, &w("a")) > 0);
    // absent stem orders before any present one
    assert!(token_cmp(&w("cat"), &ws("cat", "c")) < 0);
    assert!(token_cmp(&ws("cat", "a"), &ws("cat", "b")) < 0);
}

#[test]
fn token_order_is_strict_and_consistent() {
    let a = w("a");
    let b = Token::Hashtag { word: String::from("a") };
    let c = Token::BBCode { text: vec![w("a")], data: vec![] };
    for x in [&a, &b, &c] {
        for y in [&a, &b, &c] {
            let xy = token_cmp(x, y);
            let yx = token_cmp(y, x);
            assert_eq!(xy, -yx);
            assert_eq!(xy, token_cmp(x, y)); // repeatable
        }
    }
    assert!(token_cmp(&a, &b) < 0);
    assert!(token_cmp(&b, &c) < 0);
    assert!(token_cmp(&a, &c) < 0);
}

#[test]
fn variant_ranks_follow_declaration_order() {
    let s = String::from("x");
    let chain = vec![
        Token::Word { word: s.clone(), stem: None },
        Token::Number { word: s.clone() },
        Token::Alphanumeric { word: s.clone() },
        Token::Emoji { word: s.clone() },
        Token::Unicode { word: s.clone() },
        Token::Hashtag { word: s.clone() },
        Token::Mention { word: s.clone() },
        Token::Url { word: s.clone() },
        Token::BBCode { text: vec![], data: vec![] },
    ];
    for i in 0..chain.len() {
        for j in 0..chain.len() {
            let c = token_cmp(&chain[i], &chain[j]);
            if i < j {
                assert!(c < 0);
            } else if i > j {
                assert!(c > 0);
            } else {
                assert_eq!(c, 0);
            }
        }
    }
}

#[test]
fn bbcode_order_text_then_data() {
    let t1 = Token::BBCode { text: vec![w("a")], data: vec![w("z")] };
    let t2 = Token::BBCode { text: vec![w("b")], data: vec![w("a")] };
    assert!(token_cmp(&t1, &t2) < 0);
    let t3 = Token::BBCode { text: vec![w("a")], data: vec![w("a")] };
    assert!(token_cmp(&t3, &t1) < 0);
    let t4 = Token::BBCode { text: vec![w("a")], data: vec![w("z")] };
    assert!(token_cmp(&t1, &t4) == 0);
    // a strict prefix of the text orders first
    let t5 = Token::BBCode { text: vec![w("a"), w("b")], data: vec![] };
    assert!(token_cmp(&t3, &t5) < 0);
}

#[test]
fn append_threshold_boundary() {
    // a chunk-local count of exactly min_df is retained in full
    let mut kept = Idf::new();
    let mut chunk = Idf::new();
    let doc = Document { id: 1, words: vec![w("edge"); 5] };
    chunk.count_document(&doc);
    kept.append(chunk, 5);
    assert_eq!(count_in(&kept, &w("edge")), Some(5));

    // one below the threshold is dropped entirely, not partially merged
    let mut dropped = Idf::new();
    let mut chunk2 = Idf::new();
    let doc2 = Document { id: 2, words: vec![w("edge"); 4] };
    chunk2.count_document(&doc2);
    dropped.append(chunk2, 5);
    assert_eq!(count_in(&dropped, &w("edge")), None);
    assert_eq!(dropped.words_count(), 0);
    assert_eq!(dropped.docs_count(), 1);
}

#[test]
fn append_docs_commute_words_do_not() {
    // the same two accumulators, merged in either order
    let mk_four = || {
        let mut a = Idf::new();
        a.count_document(&Document { id: 1, words: vec![w("dog"); 4] });
        a
    };
    let mk_one = || {
        let mut b = Idf::new();
        b.count_document(&Document { id: 2, words: vec![w("dog")] });
        b
    };

    let mut first = mk_four();
    first.append(mk_one(), 5);
    let mut second = mk_one();
    second.append(mk_four(), 5);

    // document totals agree whichever side is folded in
    assert_eq!(first.docs_count(), second.docs_count());
    // but the word tables differ: each incoming batch was below threshold,
    // so each accumulator keeps only its own side's count
    assert_eq!(count_in(&first, &w("dog")), Some(4));
    assert_eq!(count_in(&second, &w("dog")), Some(1));
}

#[test]
fn repeated_small_batches_never_accumulate() {
    let mut model = Idf::new();
    for (id, n) in [(1u64, 2usize), (2, 3), (3, 2)] {
        let mut chunk = Idf::new();
        chunk.count_document(&Document { id, words: vec![w("rare"); n] });
        model.append(chunk, 5);
    }
    // 2 + 3 + 2 would clear the threshold, yet every batch fell below it
    assert_eq!(count_in(&model, &w("rare")), None);
    assert_eq!(model.docs_count(), 3);
}

#[test]
fn save_load_round_trip() {
    let mut acc = Idf::new();
    let compound = Token::BBCode { text: vec![w("in")], data: vec![w("out")] };
    acc.count_document(&Document {
        id: 9,
        words: vec![w("cat"), w("cat"), compound, Token::Emoji { word: String::from("!") }],
    });
    let before = acc.clone();
    let restored = Idf::load_from(acc.save_to());
    assert_eq!(restored, before);
}

#[test]
fn save_load_round_trip_empty() {
    let acc = Idf::new();
    let restored = Idf::load_from(acc.save_to());
    assert_eq!(restored.docs_count(), 0);
    assert_eq!(restored.words_count(), 0);
}

#[test]
fn load_keeps_last_of_duplicate_keys() {
    let data = IdfData { docs: 3, words: vec![(w("cat"), 2), (w("cat"), 7)] };
    let acc = Idf::load_from(data);
    assert_eq!(acc.docs_count(), 3);
    assert_eq!(acc.words_count(), 1);
    assert_eq!(count_in(&acc, &w("cat")), Some(7));
}

#[test]
fn load_sorts_unsorted_input() {
    let data = IdfData { docs: 1, words: vec![(w("zebra"), 1), (w("ant"), 2)] };
    let acc = Idf::load_from(data);
    assert_eq!(acc.words_count(), 2);
    assert!(token_cmp(&acc.words[0].0, &acc.words[1].0) < 0);
    assert_eq!(count_in(&acc, &w("ant")), Some(2));
    assert_eq!(count_in(&acc, &w("zebra")), Some(1));
}

#[test]
fn end_to_end_two_documents() {
    // an empty existing model and a chunk of two documents
    let mut fresh = Idf::new();
    fresh.count_document(&Document { id: 1, words: vec![w("cat"); 5] });
    fresh.count_document(&Document { id: 2, words: vec![w("dog")] });

    let mut model = Idf::new();
    model.merge_chunk(fresh);
    assert_eq!(MIN_DF, 5);
    assert_eq!(model.docs_count(), 2);
    assert_eq!(model.words_count(), 1);

    let persisted = model.save_to();
    assert_eq!(persisted.docs, 2);
    assert_eq!(persisted.words, vec![(w("cat"), 5)]);
}

#[test]
fn merge_into_loaded_model_adds_counts() {
    let existing = Idf::load_from(IdfData { docs: 10, words: vec![(w("cat"), 20)] });
    let mut model = existing;
    let mut chunk = Idf::new();
    chunk.count_document(&Document { id: 3, words: vec![w("cat"); 6] });
    model.append(chunk, 5);
    assert_eq!(model.docs_count(), 11);
    assert_eq!(count_in(&model, &w("cat")), Some(26));
}

#[test]
fn entries_stay_sorted_through_counting() {
    let mut acc = Idf::new();
    acc.count_document(&Document {
        id: 4,
        words: vec![w("m"), w("a"), w("z"), w("a"), Token::Mention { word: String::from("a") }],
    });
    for i in 1..acc.words.len() {
        assert!(token_cmp(&acc.words[i - 1].0, &acc.words[i].0) < 0);
    }
    assert_eq!(count_in(&acc, &w("a")), Some(2));
}
