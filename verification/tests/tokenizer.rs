use nlpo3::four_bytes_str::custom_string::CustomString;
use nlpo3::tokenizer::dict_reader::{create_dict_trie, DictSource};
use nlpo3::tokenizer::newmm::NewmmTokenizer;
use nlpo3::tokenizer::tcc::tcc_tokenizer::{tcc_pos, tcc_segment};
use nlpo3::tokenizer::tokenizer_trait::Tokenizer;
use nlpo3::tokenizer::trie_char::TrieChar;

fn words(list: &[&str]) -> Vec<String> {
    list.iter().map(|w| w.to_string()).collect()
}

fn segment(dict: &[&str], text: &str) -> Vec<String> {
    NewmmTokenizer::from_word_list(words(dict)).segment(text, false, false).unwrap()
}

#[test]
fn test_trie() {
    let test_word_list = vec![
        "กากบาท".to_string(),
        "กาแฟ".to_string(),
        "กรรม".to_string(),
        "42".to_string(),
        "aง|.%".to_string(),
    ];
    let trie = create_dict_trie(DictSource::WordList(test_word_list));
    assert!(trie.contain(&CustomString::new("กาแฟ")));
    assert_eq!(trie.amount_of_words(), 5);
}

#[test]
fn test_cluster_karan() {
    let kr_result = tcc_pos(&CustomString::new("พิสูจน์ได้ค่ะ"));
    // ends at พิ
    assert!(kr_result.contains(&2));
    //สูจน์
    assert!(kr_result.contains(&7));
    //ได้
    assert!(kr_result.contains(&10));
    //ค่ะ
    assert!(kr_result.contains(&13));
}

#[test]
fn test_cluster_general_case() {
    let gen_result = tcc_pos(&CustomString::new("เรือน้อยลอยอยู่"));
    //expected cluster ['เรือ', 'น้', 'อ', 'ย', 'ล', 'อ', 'ย', 'อ', 'ยู่']
    assert!(gen_result.contains(&4));
    assert!(gen_result.contains(&6));
    assert!(gen_result.contains(&7));
    assert!(gen_result.contains(&8));
    assert!(gen_result.contains(&9));
    assert!(gen_result.contains(&10));
    assert!(gen_result.contains(&11));
    assert!(gen_result.contains(&12));
    assert!(gen_result.contains(&15));
}

#[test]
fn cluster_ends_are_exactly_the_expected() {
    let ends = tcc_pos(&CustomString::new("เรือน้อยลอยอยู่"));
    let mut sorted: Vec<usize> = ends.into_iter().collect();
    sorted.sort();
    assert_eq!(sorted, vec![4, 6, 7, 8, 9, 10, 11, 12, 15]);
    let karan = tcc_pos(&CustomString::new("พิสูจน์ได้ค่ะ"));
    let mut sorted: Vec<usize> = karan.into_iter().collect();
    sorted.sort();
    assert_eq!(sorted, vec![2, 7, 10, 13]);
}

#[test]
fn clusters_of_a_text() {
    let clusters: Vec<String> = tcc_segment(&CustomString::new("เรือน้อยลอยอยู่"))
        .iter()
        .map(|c| c.to_std_string())
        .collect();
    assert_eq!(clusters, vec!["เรือ", "น้", "อ", "ย", "ล", "อ", "ย", "อ", "ยู่"]);
    assert!(tcc_segment(&CustomString::new("")).is_empty());
    assert!(tcc_pos(&CustomString::new("")).is_empty());
}

#[test]
fn clusters_of_other_scripts_are_single_characters() {
    let ends = tcc_pos(&CustomString::new("ab 1"));
    let mut sorted: Vec<usize> = ends.into_iter().collect();
    sorted.sort();
    assert_eq!(sorted, vec![1, 2, 3, 4]);
}

#[test]
fn empty_input() {
    assert_eq!(segment(&["กา"], ""), Vec::<String>::new());
}

#[test]
fn single_dictionary_word() {
    assert_eq!(segment(&["กา"], "กา"), vec!["กา"]);
}

#[test]
fn two_dictionary_words_with_a_space() {
    assert_eq!(segment(&["กาแฟ", "ร้อน"], "กาแฟ ร้อน"), vec!["กาแฟ", " ", "ร้อน"]);
}

#[test]
fn latin_fallback() {
    assert_eq!(segment(&["กา"], "กาhello"), vec!["กา", "hello"]);
}

#[test]
fn digit_group_fallback() {
    assert_eq!(segment(&[], "12,345.67"), vec!["12,345.67"]);
}

#[test]
fn mixed_script() {
    let tokens = segment(&["กาแฟ"], "กาแฟ2ถ้วย");
    assert_eq!(tokens[0], "กาแฟ");
    assert_eq!(tokens[1], "2");
    assert_eq!(tokens.concat(), "กาแฟ2ถ้วย");
}

#[test]
fn trie_add_remove_and_prefixes() {
    let mut trie = TrieChar::new(&[
        CustomString::new("กา"),
        CustomString::new(" กาแฟ \n"),
        CustomString::new("   "),
        CustomString::new("กา"),
    ]);
    assert_eq!(trie.amount_of_words(), 2);
    assert!(trie.contain(&CustomString::new("กา")));
    assert!(trie.contain(&CustomString::new("กาแฟ")));
    assert!(!trie.contain(&CustomString::new("กาแ")));
    let text = CustomString::new("กาแฟร้อน");
    let found: Vec<String> = TrieChar::prefix_ref(&text, &trie)
        .iter()
        .map(|w| w.iter().collect::<String>())
        .collect();
    assert_eq!(found, vec!["กา", "กาแฟ"]);
    trie.remove(&CustomString::new("กา"));
    assert!(!trie.contain(&CustomString::new("กา")));
    assert!(!trie.has_only_root());
    let found: Vec<String> = TrieChar::prefix_ref(&text, &trie)
        .iter()
        .map(|w| w.iter().collect::<String>())
        .collect();
    assert_eq!(found, vec!["กาแฟ"]);
    trie.remove(&CustomString::new("ไม่มี"));
    assert_eq!(trie.amount_of_words(), 1);
    trie.remove(&CustomString::new("กาแฟ "));
    assert_eq!(trie.amount_of_words(), 0);
    assert!(trie.has_only_root());
}
