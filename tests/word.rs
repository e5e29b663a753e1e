use zilin::{DictionaryType, Token, WordDictionary};

const CEDICT: &str = "# CC-CEDICT sample
#! version=1

我 我 [wo3] /I; me; my/
是 是 [shi4] /is; are; am; yes; to be/
中 中 [zhong1] /within; among; in; middle; center/
國 国 [guo2] /country; nation; state/
人 人 [ren2] /person; people/
中國 中国 [Zhong1 guo2] /China/
中國人 中国人 [Zhong1 guo2 ren2] /Chinese person/
中國話 中国话 [Zhong1 guo2 hua4] /Chinese language/
的 的 [de5] /of; ~'s (possessive particle)/
名 名 [ming2] /name; noun (part of speech); place (e.g. among winners)/
字 字 [zi4] /letter; symbol; character; word/
名字 名字 [ming2 zi5] /name (of a person or thing)/
叫 叫 [jiao4] /to shout; to call; to order/
。 。 [ju4 hao4] /full stop/
識字 识字 [shi2 zi4] /to learn to read/
瀋 沈 [Shen3] /place name/
沈 沈 [Shen3] /surname Shen/
沈 沈 [chen2] /variant of 沉[chen2]/
審 沈 [shen3] /old variant of 審|审[shen3]/
AA制 AA制 [A A zhi4] /to split the bill/
ABC ABC [A B C] /ascii only forms, not an entry/
";

fn dict() -> WordDictionary {
    WordDictionary::new(CEDICT)
}

fn values(tokens: &[Token]) -> Vec<&str> {
    tokens.iter().map(|t| t.value.as_str()).collect()
}

#[test]
fn word_can_get_word_entry() {
    let d = dict();
    let data = d.get("识字", DictionaryType::Simplified).unwrap();

    assert_eq!(data.len(), 1);
    assert_eq!(data[0].simplified, "识字");
    assert_eq!(data[0].traditional, "識字");
}

#[test]
fn word_can_get_all_words_with_prefix() {
    let d = dict();
    let data = d.iter_prefix("中国", DictionaryType::Simplified);

    assert!(data.len() > 2);
}

#[test]
fn word_can_get_multiple_word_entries() {
    let d = dict();
    let data = d.get("沈", DictionaryType::Simplified).unwrap();

    assert_eq!(data.len(), 4);
}

#[test]
fn word_should_tokenize_simple_sentence() {
    let d = dict();
    let tokens = d.tokenize("我是中国人。");

    assert_eq!(values(&tokens), vec!["我", "是", "中国人", "。"]);
}

#[test]
fn word_should_handle_non_chinese_characters_gracefully() {
    let d = dict();
    let tokens = d.tokenize("我的名字叫David。");

    assert_eq!(values(&tokens), vec!["我", "的", "名字", "叫", "David", "。"]);
}

#[test]
fn tokenize_offsets_and_entries() {
    let d = dict();
    let tokens = d.tokenize("我是中国人。");
    let offsets: Vec<usize> = tokens.iter().map(|t| t.offset).collect();

    assert_eq!(offsets, vec![0, 1, 2, 5]);
    assert!(tokens.iter().all(|t| t.has_entries));
}

#[test]
fn tokenize_latin_run_has_no_entries() {
    let d = dict();
    let tokens = d.tokenize("我的名字叫David。");
    let david: Vec<&Token> = tokens.iter().filter(|t| t.value == "David").collect();

    assert_eq!(david.len(), 1);
    assert!(!david[0].has_entries);
    assert_eq!(david[0].offset, 5);
}

#[test]
fn tokenize_concatenation_gives_input() {
    let d = dict();
    for input in ["我是中国人。", "我的名字叫David。", "", "  中国话 and 中國人!", "AA制"] {
        let tokens = d.tokenize(input);
        let joined: String = tokens.iter().map(|t| t.value.as_str()).collect();
        assert_eq!(joined, input);
        let mut expected = 0;
        for t in &tokens {
            assert_eq!(t.offset, expected);
            assert!(!t.value.is_empty());
            expected += t.value.chars().count();
        }
    }
}

#[test]
fn tokenize_prefers_the_longest_word() {
    let d = dict();
    let tokens = d.tokenize("中国话中國人中国");

    assert_eq!(values(&tokens), vec!["中国话", "中國人", "中国"]);
}

#[test]
fn tokenize_whitespace_is_its_own_token() {
    let d = dict();
    let tokens = d.tokenize("我 hello 你");

    assert_eq!(values(&tokens), vec!["我", " ", "hello", " ", "你"]);
    assert!(!tokens[4].has_entries);
}

#[test]
fn ascii_only_lines_are_not_entries() {
    let d = dict();

    assert!(d.get("ABC", DictionaryType::Simplified).is_none());
    assert!(d.get("AA制", DictionaryType::Simplified).is_some());
}

#[test]
fn entries_parse_all_fields() {
    let d = dict();
    let e = &d.get("中国人", DictionaryType::Simplified).unwrap()[0];

    assert_eq!(e.traditional, "中國人");
    assert_eq!(e.pinyin, "Zhong1 guo2 ren2");
    assert_eq!(e.english, "Chinese person");
    assert!(d.get("中國人", DictionaryType::Traditional).is_some());
}

#[test]
fn entries_keep_their_order_under_a_key() {
    let d = dict();
    let list = d.get("沈", DictionaryType::Simplified).unwrap();
    let pinyins: Vec<&str> = list.iter().map(|e| e.pinyin.as_str()).collect();

    assert_eq!(pinyins, vec!["Shen3", "Shen3", "chen2", "shen3"]);
    assert_eq!(list[0].traditional, "瀋");
}

#[test]
fn malformed_lines_are_skipped() {
    let d = WordDictionary::new("中 中\n中 中 [zhong1\n中 中 [zhong1]\n中 中 [zhong1] /x/\r\n  \n");
    let list = d.get("中", DictionaryType::Simplified).unwrap();

    assert_eq!(list.len(), 1);
    assert_eq!(list[0].english, "x");
}

#[test]
fn empty_key_has_no_entries() {
    let d = dict();

    assert!(d.get("", DictionaryType::Simplified).is_none());
    assert!(d.iter_prefix("", DictionaryType::Traditional).len() >= 20);
}

#[test]
fn subslice_excludes_the_word_itself() {
    let d = dict();
    let found: Vec<&str> = d
        .iter_including_subslice("中国", DictionaryType::Simplified)
        .iter()
        .map(|e| e.simplified.as_str())
        .collect();

    assert_eq!(found.len(), 2);
    assert!(found.contains(&"中国人"));
    assert!(found.contains(&"中国话"));
}

#[test]
fn homophones_mark_exact_and_toneless_matches() {
    let d = WordDictionary::new(
        "十 十 [shi2] /ten/\n是 是 [shi4] /to be/\n識 识 [shi2] /to know/\n師 师 [shi1] /teacher/\n式 式 [Shi4] /type/\n䊀 䊀 [shi2] /variant of 十/\n",
    );
    let hs = d.iter_homophones("十", DictionaryType::Simplified);
    let got: Vec<(&str, bool)> = hs.iter().map(|(e, x)| (e.simplified.as_str(), *x)).collect();

    assert_eq!(got.len(), 4);
    assert!(got.contains(&("识", true)));
    assert!(got.contains(&("是", false)));
    assert!(got.contains(&("师", false)));
    assert!(got.contains(&("式", false)));
    assert!(!got.iter().any(|(w, _)| *w == "十" || *w == "䊀"));
}

#[test]
fn tokenize_takes_the_longer_form_of_an_entry() {
    let d = WordDictionary::new("中國人 中國 [x] /y/\n人 人 [ren2] /person/\n");
    let tokens = d.tokenize("中國人");

    assert_eq!(values(&tokens), vec!["中國人"]);
    assert!(tokens[0].has_entries);
}

#[test]
fn lines_without_delimiters_are_skipped() {
    let d = WordDictionary::new(
        "甲 甲 jia3] /first/\n乙 乙 [yi3] second\n丙 丙 [bing3] /third\n丁 丁 [ding1] /fourth/\n戊 戊 [] //\n",
    );

    assert!(d.get("甲", DictionaryType::Simplified).is_none());
    assert!(d.get("乙", DictionaryType::Simplified).is_none());
    assert!(d.get("丙", DictionaryType::Simplified).is_none());
    assert_eq!(d.get("丁", DictionaryType::Simplified).unwrap()[0].english, "fourth");
    let e = &d.get("戊", DictionaryType::Simplified).unwrap()[0];
    assert_eq!(e.pinyin, "");
    assert_eq!(e.english, "");
}
