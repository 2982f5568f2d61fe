use recoll_next::search::tokenizer::code::{split_camel_case, CodeTokenizer};
use recoll_next::search::tokenizer::english_stop_words;
use recoll_next::search::tokenizer::filename::FilenameTokenizer;
use recoll_next::search::tokenizer::jieba::JiebaTokenizer;

#[test]
fn code_words_split_camel_and_snake_case() {
    let t = CodeTokenizer::new();
    assert_eq!(t.words("getUserName"), vec!["get", "User", "Name"]);
    assert_eq!(t.words("get_user_name"), vec!["get", "user", "name"]);
    assert_eq!(t.words("HttpResponse"), vec!["Http", "Response"]);
    assert_eq!(t.words("__a__bC"), vec!["a", "b", "C"]);
}

#[test]
fn camel_case_splits_before_capitals() {
    let cs: Vec<char> = "parseHTTPRequest".chars().collect();
    assert_eq!(split_camel_case(&cs), vec!["parse", "H", "T", "T", "P", "Request"]);
}

#[test]
fn code_tokens_have_byte_lengths_and_positions() {
    let tokens = CodeTokenizer::new().tokens("fooBär");
    assert_eq!(tokens.len(), 2);
    assert_eq!((tokens[0].offset_from, tokens[0].offset_to, tokens[0].position), (0, 3, 0));
    assert_eq!(tokens[1].text, "Bär");
    assert_eq!((tokens[1].offset_from, tokens[1].offset_to, tokens[1].position), (0, 4, 1));
}

#[test]
fn filename_words_split_on_separators() {
    let t = FilenameTokenizer::new();
    assert_eq!(t.words("my-file-name"), vec!["my", "file", "name"]);
    assert_eq!(t.words("my_file_name"), vec!["my", "file", "name"]);
    assert_eq!(t.words("report.2024.final"), vec!["report", "2024", "final"]);
    assert_eq!(t.words("..a--"), vec!["a"]);
}

#[test]
fn jieba_tokens_cover_the_text() {
    let t = JiebaTokenizer::new();
    let text = "全文搜尋引擎";
    let words = t.words(text);
    assert_eq!(words.concat(), text);
    let tokens = t.tokens("Recoll搜尋 test");
    let texts: Vec<&str> = tokens.iter().map(|x| x.text.as_str()).collect();
    assert!(texts.contains(&"Recoll"));
    assert!(tokens.iter().all(|x| !x.text.trim().is_empty()));
    for x in &tokens {
        assert_eq!(&"Recoll搜尋 test"[x.offset_from..x.offset_to], x.text);
    }
    for (i, x) in tokens.iter().enumerate() {
        assert_eq!(x.position, i);
    }
}

#[test]
fn stop_words_are_listed() {
    let words = english_stop_words();
    assert_eq!(words.len(), 33);
    assert!(words.contains(&"the".to_string()));
    assert!(!words.contains(&"quick".to_string()));
}
