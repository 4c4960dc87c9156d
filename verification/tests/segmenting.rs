use nlpo3::four_bytes_str::custom_string::CustomString;
use nlpo3::tokenizer::dict_reader::{create_dict_trie, DictSource};
use nlpo3::tokenizer::newmm::{
    internal_segment, segment_positions, split_parts, tokens_to_strings, NewmmTokenizer,
    TEXT_SCAN_BEGIN, TEXT_SCAN_END, TEXT_SCAN_LEFT, TEXT_SCAN_POINT, TEXT_SCAN_RIGHT,
};
use nlpo3::tokenizer::search::{one_cut, MAX_GRAPH_SIZE};
use nlpo3::tokenizer::tcc::tcc_tokenizer::tcc_pos;
use nlpo3::tokenizer::tokenizer_trait::Tokenizer;
use nlpo3::tokenizer::trie_char::TrieChar;

const WORDS: [&str; 14] = [
    "กา", "กาแฟ", "ร้อน", "ไป", "ไหน", "มา", "ตา", "ตาก", "กลม", "ลม", "ฉัน", "รัก", "ภาษา", "ไทย",
];

fn trie(words: &[&str]) -> TrieChar {
    create_dict_trie(DictSource::WordList(words.iter().map(|w| w.to_string()).collect()))
}

fn tokenizer(words: &[&str]) -> NewmmTokenizer {
    NewmmTokenizer::from_word_list(words.iter().map(|w| w.to_string()).collect())
}

fn cut(words: &[&str], text: &str) -> Vec<usize> {
    one_cut(&CustomString::new(text), &trie(words))
}

#[test]
fn limits() {
    assert_eq!(MAX_GRAPH_SIZE, 50);
    assert_eq!(TEXT_SCAN_POINT, 120);
    assert_eq!(TEXT_SCAN_LEFT, 20);
    assert_eq!(TEXT_SCAN_RIGHT, 20);
    assert_eq!(TEXT_SCAN_BEGIN, TEXT_SCAN_POINT - TEXT_SCAN_LEFT);
    assert_eq!(TEXT_SCAN_END, TEXT_SCAN_POINT + TEXT_SCAN_RIGHT);
}

#[test]
fn cuts_of_dictionary_words() {
    assert_eq!(cut(&WORDS, "ฉันรักภาษาไทย"), vec![3, 6, 10, 13]);
    assert_eq!(cut(&WORDS, "ไปไหนมา"), vec![2, 5, 7]);
    assert_eq!(cut(&WORDS, ""), Vec::<usize>::new());
}

#[test]
fn fewest_tokens_are_settled() {
    assert_eq!(cut(&["ตา", "ตาก", "กลม", "ลม"], "ตากลม"), vec![2, 5]);
    assert_eq!(cut(&["ตา", "ตาก", "ลม"], "ตากลม"), vec![3, 5]);
    assert_eq!(cut(&["ก", "กข", "ข", "ขค", "ค", "กขค"], "กขค"), vec![3]);
}

#[test]
fn unknown_text_is_skipped_to_the_next_token() {
    let tokens = tokenizer(&["กาแฟ", "ร้อน"]).segment_to_string("«台灣»กาแฟร้อน", false, false);
    assert_eq!(tokens, vec!["«台灣»", "กาแฟ", "ร้อน"]);
    let tokens = tokenizer(&["กาแฟ"]).segment_to_string("(台灣) ok", false, false);
    assert_eq!(tokens, vec!["(台灣)", " ", "ok"]);
    let tokens = tokenizer(&[]).segment_to_string("台灣", false, false);
    assert_eq!(tokens, vec!["台灣"]);
    let tokens = tokenizer(&[]).segment_to_string("é1", false, false);
    assert_eq!(tokens, vec!["é", "1"]);
}

#[test]
fn unknown_thai_text_is_settled_character_by_character() {
    let tokens = tokenizer(&["กาแฟ"]).segment_to_string("กาแฟดำ", false, false);
    assert_eq!(tokens, vec!["กาแฟ", "ด", "ำ"]);
    let tokens = tokenizer(&["กข", "กขค"]).segment_to_string("ลกข", false, false);
    assert_eq!(tokens, vec!["ล", "กข"]);
}

#[test]
fn tokens_without_dictionary() {
    let tokens = tokenizer(&[]).segment_to_string("hello world 12,345.67\r\n๑๒.๕\n(x)", false, false);
    assert_eq!(
        tokens,
        vec!["hello", " ", "world", " ", "12,345.67", "\r\n", "๑๒.๕", "\n", "(", "x", ")"]
    );
}

#[test]
fn word_must_end_at_a_cluster_end() {
    let ends = tcc_pos(&CustomString::new("กาก็"));
    assert!(!ends.contains(&3));
    let tokens = tokenizer(&["กาก", "กา"]).segment_to_string("กาก็", false, false);
    assert_eq!(tokens, vec!["กา", "ก", "็"]);
}

#[test]
fn tokens_put_together_are_the_text() {
    let newmm = tokenizer(&WORDS);
    for text in [
        "",
        "ฉันรักภาษาไทย",
        "ฉันรักภาษาไทย และ English 100%",
        "กาแฟ2ถ้วย",
        "ไปไหนมา\nตากลม\r\n",
        "台灣 😀 เรียกร์",
        "   ",
    ] {
        for safe in [false, true] {
            let tokens = newmm.segment(text, safe, false).unwrap();
            assert_eq!(tokens.concat(), text);
            assert!(tokens.iter().all(|t| !t.is_empty()));
        }
    }
}

#[test]
fn token_ends_are_cluster_ends_or_ends_of_tokens_without_dictionary() {
    let text = "ฉันรักภาษาไทย hello กาแฟ2ถ้วย";
    let input = CustomString::new(text);
    let ends = tcc_pos(&input);
    let cuts = one_cut(&input, &trie(&WORDS));
    let chars: Vec<char> = text.chars().collect();
    let mut start = 0;
    for end in cuts {
        let without_dictionary = nlpo3::tokenizer::fallback::non_dict_match(&chars, start) == Some(end);
        assert!(ends.contains(&end) || without_dictionary);
        start = end;
    }
}

#[test]
fn modes_agree_on_short_texts() {
    let newmm = tokenizer(&WORDS);
    let text = "ฉันรักภาษาไทย ไปไหนมา ".repeat(6);
    assert!(text.chars().count() < TEXT_SCAN_END);
    let plain = newmm.segment(&text, false, false).unwrap();
    assert_eq!(newmm.segment(&text, true, false).unwrap(), plain);
    assert_eq!(newmm.segment(&text, false, true).unwrap(), plain);
    assert_eq!(newmm.segment(&text, true, true).unwrap(), plain);
    assert_eq!(newmm.segment_to_string(&text, true, true), plain);
}

#[test]
fn long_text_is_cut_after_the_last_space_of_the_window() {
    let mut text = "ก".repeat(110);
    text.push(' ');
    text.push_str(&"ข".repeat(14));
    text.push(' ');
    text.push_str(&"ค".repeat(100));
    let input = CustomString::new(&text);
    assert_eq!(split_parts(&input, &trie(&[])), vec![126, 226]);
}

#[test]
fn long_text_without_space_is_cut_before_the_longest_token_of_the_window() {
    let mut text = "ก".repeat(105);
    text.push_str("hello");
    text.push_str("123456789");
    text.push_str(&"ก".repeat(60));
    let input = CustomString::new(&text);
    let words: Vec<&str> = vec![];
    // the window holds five single characters, "hello", "123456789" and
    // single characters again
    let parts = split_parts(&input, &trie(&words));
    assert_eq!(parts[0], 110);
    assert_eq!(*parts.last().unwrap(), text.chars().count());
}

#[test]
fn short_text_is_one_part() {
    let input = CustomString::new(&"ก".repeat(139));
    assert_eq!(split_parts(&input, &trie(&[])), vec![139]);
    let input = CustomString::new("");
    assert_eq!(split_parts(&input, &trie(&[])), Vec::<usize>::new());
}

#[test]
fn safe_mode_segments_long_texts() {
    let newmm = tokenizer(&WORDS);
    let text = "ฉันรักภาษาไทย ไปไหนมา กาแฟร้อน ตากลม ".repeat(40);
    let plain = newmm.segment(&text, false, false).unwrap();
    let safe = newmm.segment(&text, true, false).unwrap();
    assert_eq!(safe.concat(), text);
    assert_eq!(plain.concat(), text);
    assert_eq!(safe, plain);
    let spaceless = "ฉันรักภาษาไทยไปไหนมากาแฟร้อนตากลม".repeat(40);
    let safe = newmm.segment(&spaceless, true, true).unwrap();
    assert_eq!(safe.concat(), spaceless);
    assert!(safe.iter().all(|t| !t.is_empty()));
}

#[test]
fn positions_and_tokens() {
    let input = CustomString::new("ฉันรักภาษาไทย");
    let dict = trie(&WORDS);
    let cuts = segment_positions(&input, &dict, true);
    assert_eq!(cuts, vec![3, 6, 10, 13]);
    assert_eq!(tokens_to_strings(&input, &cuts), vec!["ฉัน", "รัก", "ภาษา", "ไทย"]);
    assert_eq!(
        internal_segment(&input, &dict, false, true),
        vec!["ฉัน", "รัก", "ภาษา", "ไทย"]
    );
}

#[test]
fn many_candidates_do_not_stop_the_search() {
    let alphabet = ["ก", "ข", "ค", "ง", "จ"];
    let mut words: Vec<String> = Vec::new();
    for a in alphabet {
        words.push(a.to_string());
        for b in alphabet {
            words.push(format!("{}{}", a, b));
            for c in alphabet {
                words.push(format!("{}{}{}", a, b, c));
            }
        }
    }
    let newmm = NewmmTokenizer::from_word_list(words);
    let text = "กขคงจ".repeat(30);
    let tokens = newmm.segment(&text, false, false).unwrap();
    assert_eq!(tokens.concat(), text);
    assert!(tokens.iter().all(|t| (1..=3).contains(&t.chars().count())));
}

#[test]
fn words_are_added_and_removed() {
    let mut newmm = tokenizer(&["กา"]);
    assert_eq!(
        newmm.segment_to_string("กาแฟร้อน", false, false),
        vec!["กา", "แ", "ฟ", "ร", "้", "อ", "น"]
    );
    newmm.add_word(&["กาแฟ", " ร้อน\n", ""]);
    assert_eq!(newmm.segment_to_string("กาแฟร้อน", false, false), vec!["กาแฟ", "ร้อน"]);
    assert_eq!(newmm.dict().amount_of_words(), 3);
    newmm.remove_word(&["กาแฟ", "ไม่มี"]);
    assert_eq!(newmm.segment_to_string("กาแฟร้อน", false, false), vec!["กา", "แ", "ฟ", "ร้อน"]);
    newmm.remove_word(&["กา", "ร้อน"]);
    assert_eq!(newmm.dict().amount_of_words(), 0);
    assert!(newmm.dict().has_only_root());
}

#[test]
fn dictionary_from_a_text_with_one_word_on_each_line() {
    let text = "กา\r\nกาแฟ\n\n  \nร้อน \nกา\nไทย";
    let dict = create_dict_trie(DictSource::Text(text.to_string()));
    assert_eq!(dict.amount_of_words(), 4);
    for word in ["กา", "กาแฟ", "ร้อน", "ไทย"] {
        assert!(dict.contain(&CustomString::new(word)));
    }
    assert!(!dict.contain(&CustomString::new("")));
    assert!(!dict.contain(&CustomString::new("กา\r")));
    let newmm = NewmmTokenizer::new(text);
    assert_eq!(newmm.segment_to_string("กาแฟร้อน", false, false), vec!["กาแฟ", "ร้อน"]);
    let empty = create_dict_trie(DictSource::Text(String::new()));
    assert_eq!(empty.amount_of_words(), 0);
    assert!(empty.has_only_root());
}

#[test]
fn built_dictionary_round_trip() {
    let listed = [" กา", "กาแฟ ", "ร้อน", "กา", "\t", "a b"];
    let mut dict = TrieChar::new(&listed.map(CustomString::new));
    for word in listed {
        let trimmed = word.trim();
        if !trimmed.is_empty() {
            assert!(dict.contain(&CustomString::new(trimmed)));
        }
    }
    assert_eq!(dict.amount_of_words(), 4);
    for word in listed {
        dict.remove(&CustomString::new(word));
        assert!(!dict.contain(&CustomString::new(word.trim())));
    }
    assert_eq!(dict.amount_of_words(), 0);
    assert!(dict.has_only_root());
}

#[test]
fn prefixes_are_the_dictionary_words_that_start_the_text() {
    let words = ["ก", "กา", "กาแ", "กาแฟร้อน", "าแฟ", "กาแฟร้อนมาก", "ข"];
    let dict = trie(&words);
    let text = CustomString::new("กาแฟร้อน");
    let found: Vec<String> =
        TrieChar::prefix_ref(&text, &dict).iter().map(|w| w.iter().collect()).collect();
    assert_eq!(found, vec!["ก", "กา", "กาแ", "กาแฟร้อน"]);
    let none: Vec<String> = TrieChar::prefix_ref(&CustomString::new("แฟ"), &dict)
        .iter()
        .map(|w| w.iter().collect())
        .collect();
    assert!(none.is_empty());
    assert!(TrieChar::prefix_ref(&CustomString::new(""), &dict).is_empty());
    let cut = CustomString::new("xxกาแฟ").substring(2, 6);
    let found: Vec<String> =
        TrieChar::prefix_ref(&cut, &dict).iter().map(|w| w.iter().collect()).collect();
    assert_eq!(found, vec!["ก", "กา", "กาแ"]);
}
