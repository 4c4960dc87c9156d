use nlpo3::four_bytes_str::custom_string::CustomString;
use nlpo3::tokenizer::fallback::{is_two_thai_consonants, non_dict_match, CharKind};
use nlpo3::tokenizer::tcc::tcc_rules::{
    cluster_shape_table, karan_row, lookahead_shape_table, replace_tcc_symbol,
};
use nlpo3::tokenizer::tcc::tcc_tokenizer::{tcc_pos, tcc_segment};
use nlpo3::tokenizer::ways::bfs_paths_graph;

fn chars(text: &str) -> Vec<char> {
    text.chars().collect()
}

fn clusters(text: &str) -> Vec<String> {
    tcc_segment(&CustomString::new(text)).iter().map(|c| c.to_std_string()).collect()
}

fn ends(text: &str) -> Vec<usize> {
    let mut sorted: Vec<usize> = tcc_pos(&CustomString::new(text)).into_iter().collect();
    sorted.sort();
    sorted
}

#[test]
fn latin_runs() {
    assert_eq!(non_dict_match(&chars("hello world"), 0), Some(5));
    assert_eq!(non_dict_match(&chars("a-b-Z9"), 0), Some(5));
    assert_eq!(non_dict_match(&chars("กาhello"), 2), Some(7));
    assert_eq!(non_dict_match(&chars("-"), 0), Some(1));
}

#[test]
fn digit_groups() {
    assert_eq!(non_dict_match(&chars("12,345.67"), 0), Some(9));
    assert_eq!(non_dict_match(&chars("12,345.67 บาท"), 0), Some(9));
    assert_eq!(non_dict_match(&chars("12,,3"), 0), Some(2));
    assert_eq!(non_dict_match(&chars("12."), 0), Some(2));
    assert_eq!(non_dict_match(&chars("7"), 0), Some(1));
    assert_eq!(non_dict_match(&chars("1,2,3.4x"), 0), Some(7));
    assert_eq!(non_dict_match(&chars("1,๒"), 0), Some(1));
    assert_eq!(non_dict_match(&chars("๑๒,๓๔๕.๖๗"), 0), Some(9));
    assert_eq!(non_dict_match(&chars("๑๒,3"), 0), Some(2));
    assert_eq!(non_dict_match(&chars(",5"), 0), None);
}

#[test]
fn blanks_and_line_ends() {
    assert_eq!(non_dict_match(&chars("  \t x"), 0), Some(4));
    assert_eq!(non_dict_match(&chars("\n\n"), 0), Some(1));
    assert_eq!(non_dict_match(&chars("\r\nx"), 0), Some(2));
    assert_eq!(non_dict_match(&chars("\rx"), 0), Some(1));
    assert_eq!(non_dict_match(&chars("\u{a0}x"), 0), Some(1));
}

#[test]
fn single_thai_characters() {
    assert_eq!(non_dict_match(&chars("กา"), 0), Some(1));
    assert_eq!(non_dict_match(&chars("ฯ"), 0), Some(1));
    assert_eq!(non_dict_match(&chars("\u{0e00}"), 0), Some(1));
    assert_eq!(non_dict_match(&chars("\u{0e7f}"), 0), Some(1));
}

#[test]
fn no_token_without_dictionary() {
    assert_eq!(non_dict_match(&chars("(a)"), 0), None);
    assert_eq!(non_dict_match(&chars("台灣"), 0), None);
    assert_eq!(non_dict_match(&chars("é"), 0), None);
    assert_eq!(non_dict_match(&chars("abc"), 3), None);
    assert_eq!(non_dict_match(&chars(""), 0), None);
    assert_eq!(non_dict_match(&chars("\u{0dff}"), 0), None);
    assert_eq!(non_dict_match(&chars("\u{0e80}"), 0), None);
}

#[test]
fn kinds_of_characters() {
    assert!(CharKind::Latin.holds('a') && CharKind::Latin.holds('Z') && CharKind::Latin.holds('-'));
    assert!(!CharKind::Latin.holds('1') && !CharKind::Latin.holds('ก') && !CharKind::Latin.holds('_'));
    assert!(CharKind::AsciiDigit.holds('0') && CharKind::AsciiDigit.holds('9'));
    assert!(!CharKind::AsciiDigit.holds('๑') && !CharKind::AsciiDigit.holds('a'));
    assert!(CharKind::ThaiDigit.holds('๐') && CharKind::ThaiDigit.holds('๙'));
    assert!(!CharKind::ThaiDigit.holds('5') && !CharKind::ThaiDigit.holds('ก'));
    assert!(CharKind::Blank.holds(' ') && CharKind::Blank.holds('\t'));
    assert!(!CharKind::Blank.holds('\n'));
}

#[test]
fn short_consonant_runs() {
    assert!(is_two_thai_consonants(&chars("")));
    assert!(is_two_thai_consonants(&chars("ก")));
    assert!(is_two_thai_consonants(&chars("กฮ")));
    assert!(!is_two_thai_consonants(&chars("กขค")));
    assert!(!is_two_thai_consonants(&chars("กา")));
    assert!(!is_two_thai_consonants(&chars("a")));
    assert!(!is_two_thai_consonants(&chars("ฯ")));
}

#[test]
fn shape_tables() {
    assert_eq!(cluster_shape_table().len(), 27);
    assert_eq!(lookahead_shape_table().len(), 2);
    assert_eq!(karan_row().len(), 4);
    let karan_rows = cluster_shape_table().iter().filter(|row| row.karan).count();
    assert_eq!(karan_rows, 15);
}

#[test]
fn notation_is_written_out() {
    assert_eq!(replace_tcc_symbol("^เc็ck"), "^เ[ก-ฮ]็[ก-ฮ]([ก-ฮ][ก-ฮ]?[ูุิ]?[์])?");
    assert_eq!(replace_tcc_symbol("^เcctาะ"), "^เ[ก-ฮ][ก-ฮ][่-๋]?าะ");
    assert_eq!(replace_tcc_symbol("^c[ิุู]์"), "^[ก-ฮ][ิุู]์");
    assert_eq!(replace_tcc_symbol("d"), "ูุ");
    assert_eq!(replace_tcc_symbol(""), "");
    assert_eq!(replace_tcc_symbol("^[เ-ไ]ct"), "^[เ-ไ][ก-ฮ][่-๋]?");
}

#[test]
fn notation_of_each_shape_is_written_out() {
    assert_eq!(replace_tcc_symbol("^เc็ck"), "^เ[ก-ฮ]็[ก-ฮ]([ก-ฮ][ก-ฮ]?[ูุิ]?[์])?");
    assert_eq!(replace_tcc_symbol("^เcctาะ"), "^เ[ก-ฮ][ก-ฮ][่-๋]?าะ");
    assert_eq!(replace_tcc_symbol("^เccีtยะ"), "^เ[ก-ฮ][ก-ฮ]ี[่-๋]?ยะ");
    assert_eq!(replace_tcc_symbol("^เcc็c"), "^เ[ก-ฮ][ก-ฮ]็[ก-ฮ]");
    assert_eq!(replace_tcc_symbol("^เcิc์c"), "^เ[ก-ฮ]ิ[ก-ฮ]์[ก-ฮ]");
    assert_eq!(replace_tcc_symbol("^เcิtc"), "^เ[ก-ฮ]ิ[่-๋]?[ก-ฮ]");
    assert_eq!(replace_tcc_symbol("^เcีtยะ?"), "^เ[ก-ฮ]ี[่-๋]?ยะ?");
    assert_eq!(replace_tcc_symbol("^เcืtอะ?"), "^เ[ก-ฮ]ื[่-๋]?อะ?");
    assert_eq!(replace_tcc_symbol("^เctา?ะ?"), "^เ[ก-ฮ][่-๋]?า?ะ?");
    assert_eq!(replace_tcc_symbol("^cัtวะ"), "^[ก-ฮ]ั[่-๋]?วะ");
    assert_eq!(replace_tcc_symbol("^c[ัื]tc[ุิะ]?"), "^[ก-ฮ][ัื][่-๋]?[ก-ฮ][ุิะ]?");
    assert_eq!(replace_tcc_symbol("^c[ิุู]์"), "^[ก-ฮ][ิุู]์");
    assert_eq!(replace_tcc_symbol("^c[ะ-ู]t"), "^[ก-ฮ][ะ-ู][่-๋]?");
    assert_eq!(replace_tcc_symbol("^c็"), "^[ก-ฮ]็");
    assert_eq!(replace_tcc_symbol("^ct[ะาำ]?"), "^[ก-ฮ][่-๋]?[ะาำ]?");
    assert_eq!(replace_tcc_symbol("^แc็c"), "^แ[ก-ฮ]็[ก-ฮ]");
    assert_eq!(replace_tcc_symbol("^แcc์"), "^แ[ก-ฮ][ก-ฮ]์");
    assert_eq!(replace_tcc_symbol("^แctะ"), "^แ[ก-ฮ][่-๋]?ะ");
    assert_eq!(replace_tcc_symbol("^แcc็c"), "^แ[ก-ฮ][ก-ฮ]็[ก-ฮ]");
    assert_eq!(replace_tcc_symbol("^แccc์"), "^แ[ก-ฮ][ก-ฮ][ก-ฮ]์");
    assert_eq!(replace_tcc_symbol("^โctะ"), "^โ[ก-ฮ][่-๋]?ะ");
    assert_eq!(replace_tcc_symbol("^[เ-ไ]ct"), "^[เ-ไ][ก-ฮ][่-๋]?");
    assert_eq!(
        replace_tcc_symbol("^(เccีtย)[เ-ไก-ฮ]"),
        "^(เ[ก-ฮ][ก-ฮ]ี[่-๋]?ย)[เ-ไก-ฮ]"
    );
}

#[test]
fn clusters_by_shape() {
    assert_eq!(clusters("เก็บ"), vec!["เก็บ"]);
    assert_eq!(clusters("เคราะห์"), vec!["เคราะห์"]);
    assert_eq!(clusters("เกลียะ"), vec!["เกลียะ"]);
    assert_eq!(clusters("เมีย"), vec!["เมีย"]);
    assert_eq!(clusters("เรือ"), vec!["เรือ"]);
    assert_eq!(clusters("เกาะ"), vec!["เกาะ"]);
    assert_eq!(clusters("ผัวะ"), vec!["ผัวะ"]);
    assert_eq!(clusters("กัน"), vec!["กัน"]);
    assert_eq!(clusters("สิทธิ์"), vec!["สิทธิ์"]);
    assert_eq!(clusters("กรรม์"), vec!["กรรม์"]);
    assert_eq!(clusters("ก็"), vec!["ก็"]);
    assert_eq!(clusters("ค่ะ"), vec!["ค่ะ"]);
    assert_eq!(clusters("จันทร์"), vec!["จันทร์"]);
    assert_eq!(clusters("แข็ง"), vec!["แข็ง"]);
    assert_eq!(clusters("แกะ"), vec!["แกะ"]);
    assert_eq!(clusters("โต๊ะ"), vec!["โต๊ะ"]);
    assert_eq!(clusters("ไป"), vec!["ไป"]);
    assert_eq!(clusters("อึ"), vec!["อึ"]);
    assert_eq!(clusters("หึ"), vec!["หึ"]);
}

#[test]
fn cluster_without_a_shape_is_one_character() {
    assert_eq!(clusters("ะา"), vec!["ะ", "า"]);
    assert_eq!(clusters("a1 "), vec!["a", "1", " "]);
    assert_eq!(clusters("์"), vec!["์"]);
    assert_eq!(ends("ก"), vec![1]);
    assert_eq!(ends(""), Vec::<usize>::new());
}

#[test]
fn cluster_gives_its_last_character_to_the_next() {
    assert_eq!(clusters("เรียกร์"), vec!["เรียกร", "์"]);
    assert_eq!(ends("เรียกร์"), vec![6, 7]);
}

#[test]
fn text_end_is_a_cluster_end() {
    for text in ["พิสูจน์ได้ค่ะ", "เรือน้อยลอยอยู่", "hello", "กาแฟ2ถ้วย", "เ"] {
        let found = ends(text);
        assert_eq!(*found.last().unwrap(), text.chars().count());
        assert!(found.iter().all(|&e| 0 < e && e <= text.chars().count()));
    }
}

#[test]
fn cluster_alone_is_one_cluster() {
    for text in ["พิสูจน์ได้ค่ะ", "เรือน้อยลอยอยู่", "กาแฟ ร้อน", "สวัสดีครับ hello 123"] {
        for cluster in clusters(text) {
            assert_eq!(clusters(&cluster), vec![cluster.clone()]);
        }
    }
}

#[test]
fn cluster_that_gave_its_last_character_away_is_several_clusters_alone() {
    assert_eq!(clusters("เรียกร์")[0], "เรียกร");
    assert_eq!(clusters("เรียกร"), vec!["เรีย", "ก", "ร"]);
}

#[test]
fn way_with_the_fewest_hops() {
    let graph: Vec<Vec<usize>> = vec![vec![1, 2], vec![4], vec![3, 4], vec![4], vec![]];
    assert_eq!(bfs_paths_graph(&graph, 0, 4).unwrap(), vec![0, 1, 4]);
    assert_eq!(bfs_paths_graph(&graph, 2, 4).unwrap(), vec![2, 4]);
    assert_eq!(bfs_paths_graph(&graph, 0, 3).unwrap(), vec![0, 2, 3]);
    assert_eq!(bfs_paths_graph(&graph, 3, 3).unwrap(), vec![3]);
}

#[test]
fn way_by_the_first_edge_among_the_shortest() {
    let graph: Vec<Vec<usize>> = vec![vec![1, 2], vec![5], vec![4], vec![], vec![9], vec![9], vec![], vec![], vec![], vec![]];
    assert_eq!(bfs_paths_graph(&graph, 0, 9).unwrap(), vec![0, 1, 5, 9]);
    let graph: Vec<Vec<usize>> = vec![vec![2, 1], vec![3], vec![3], vec![]];
    assert_eq!(bfs_paths_graph(&graph, 0, 3).unwrap(), vec![0, 2, 3]);
}

#[test]
fn no_way() {
    let graph: Vec<Vec<usize>> = vec![vec![1], vec![], vec![3], vec![]];
    let error = bfs_paths_graph(&graph, 0, 3).unwrap_err();
    assert_eq!((error.start, error.goal), (0, 3));
    let error = bfs_paths_graph(&graph, 1, 2).unwrap_err();
    assert_eq!((error.start, error.goal), (1, 2));
}
