use zilin::{
    decompose, lookup_character, lookup_simplified, lookup_simplified_characters_including_component,
    lookup_simplified_including_subslice, lookup_traditional,
    lookup_traditional_characters_including_component, lookup_traditional_with_subslice, tokenize,
    CharacterDecomposition, CharacterDictionary, CharacterEntry, DictionaryType, DictionaryTypeQuery,
    FrequencyDictionary, SentenceDictionary, Token, WordDictionary, Worker,
};

const CEDICT: &str = "# CC-CEDICT sample
我 我 [wo3] /I; me; my/
是 是 [shi4] /is; are; am; yes; to be/
中 中 [zhong1] /within; among; in; middle; center/
國 国 [guo2] /country; nation; state/
人 人 [ren2] /person; people/
中國 中国 [Zhong1 guo2] /China/
中國人 中国人 [Zhong1 guo2 ren2] /Chinese person/
中國話 中国话 [Zhong1 guo2 hua4] /Chinese language/
的 的 [de5] /of; ~'s (possessive particle)/
名 名 [ming2] /name/
字 字 [zi4] /letter; symbol; character; word/
名字 名字 [ming2 zi5] /name (of a person or thing)/
叫 叫 [jiao4] /to shout; to call/
識字 识字 [shi2 zi4] /to learn to read/
沈 沈 [Shen3] /surname Shen/
沈 沈 [chen2] /variant of 沉[chen2]/
審 沈 [shen3] /old variant of 審|审[shen3]/
休 休 [xiu1] /to rest/
林 林 [lin2] /woods; forest/
木 木 [mu4] /tree; wood/
";

fn character(c: char, decomposition: &str, strokes: usize) -> CharacterEntry {
    CharacterEntry {
        character: c,
        definition: None,
        pinyin: vec![],
        decomposition: decomposition.to_string(),
        etymology: None,
        matches: vec![serde_json::Value::Null; strokes],
        strokes: 0,
    }
}

fn characters() -> CharacterDictionary {
    CharacterDictionary::new(vec![
        character('休', "⿰亻木", 6),
        character('亻', "？", 2),
        character('木', "？", 4),
        character('林', "⿰木木", 8),
        character('森', "⿱木林", 12),
        character('中', "？", 4),
        character('国', "⿴囗玉", 8),
        character('人', "？", 2),
    ])
}

fn values(tokens: &[Token]) -> Vec<&str> {
    tokens.iter().map(|t| t.value.as_str()).collect()
}

#[test]
fn cedict_can_get_word_entry() {
    let d = WordDictionary::new(CEDICT);
    let data = lookup_simplified(&d, "识字").unwrap();

    assert_eq!(data.len(), 1);
    assert_eq!(data[0].simplified, "识字");
    assert_eq!(data[0].traditional, "識字");
}

#[test]
fn cedict_can_get_all_words_with_prefix() {
    let d = WordDictionary::new(CEDICT);
    let data = d.iter_prefix("中国", DictionaryType::Simplified);

    assert!(data.len() > 2);
}

#[test]
fn cedict_can_get_multiple_word_entries() {
    let d = WordDictionary::new(CEDICT);
    let data = lookup_simplified(&d, "沈").unwrap();

    assert_eq!(data.len(), 3);
}

#[test]
fn cedict_should_tokenize_simple_sentence() {
    let d = WordDictionary::new(CEDICT);
    let tokens = tokenize(&d, "我是中国人。");

    assert_eq!(values(&tokens), vec!["我", "是", "中国人", "。"]);
}

#[test]
fn cedict_should_handle_non_chinese_characters_gracefully() {
    let d = WordDictionary::new(CEDICT);
    let tokens = tokenize(&d, "我的名字叫David。");

    assert_eq!(values(&tokens), vec!["我", "的", "名字", "叫", "David", "。"]);
}

#[test]
fn lib_should_tokenize_simple_sentence() {
    let d = WordDictionary::new(CEDICT);
    let tokens = tokenize(&d, "我是中国人。");

    assert_eq!(values(&tokens), vec!["我", "是", "中国人", "。"]);
}

#[test]
fn lib_should_handle_non_chinese_characters_gracefully() {
    let d = WordDictionary::new(CEDICT);
    let tokens = tokenize(&d, "我的名字叫David。");

    assert_eq!(values(&tokens), vec!["我", "的", "名字", "叫", "David", "。"]);
}

#[test]
fn traditional_lookup_uses_traditional_keys() {
    let d = WordDictionary::new(CEDICT);

    assert_eq!(lookup_traditional(&d, "識字").unwrap()[0].simplified, "识字");
    assert!(lookup_traditional(&d, "识字").is_none());
}

#[test]
fn subslice_lookup_sorts_by_strokes() {
    let d = WordDictionary::new(CEDICT);
    let c = characters();
    let simplified: Vec<&str> = lookup_simplified_including_subslice(&d, &c, "中")
        .iter()
        .map(|e| e.simplified.as_str())
        .collect();

    // 中国 and 中国人 have known strokes (12 and 14); 中国话 has an unknown character.
    assert_eq!(simplified, vec!["中国", "中国人", "中国话"]);
    let traditional: Vec<&str> = lookup_traditional_with_subslice(&d, &c, "國")
        .iter()
        .map(|e| e.traditional.as_str())
        .collect();
    assert_eq!(traditional.len(), 3);
}

#[test]
fn character_lookup_and_components() {
    let d = WordDictionary::new(CEDICT);
    let c = characters();

    assert_eq!(lookup_character(&c, '休').unwrap().strokes, 6);
    assert!(lookup_character(&c, '龍').is_none());
    let with_tree: Vec<char> = lookup_simplified_characters_including_component(&d, &c, '木')
        .iter()
        .map(|e| e.character)
        .collect();
    // 森 contains 木 but is not a word of the sample; 休 (6) comes before 林 (8).
    assert_eq!(with_tree, vec!['休', '林']);
    let traditional: Vec<char> = lookup_traditional_characters_including_component(&d, &c, '亻')
        .iter()
        .map(|e| e.character)
        .collect();
    assert_eq!(traditional, vec!['休']);
}

#[test]
fn decompose_rest_is_person_beside_tree() {
    let c = characters();
    let d = decompose(&c, '休');

    assert_eq!(
        d,
        CharacterDecomposition::Components {
            ty: '⿰',
            value: Some('休'),
            components: vec![
                CharacterDecomposition::Radical('亻'),
                CharacterDecomposition::Radical('木'),
            ],
        }
    );
    assert_eq!(d.iter_parts(), vec!['休', '亻', '木']);
}

#[test]
fn dictionary_type_from_query() {
    let q = |simplified, traditional| DictionaryTypeQuery { simplified, traditional };

    assert_eq!(DictionaryType::from(q(Some(true), None)), DictionaryType::Simplified);
    assert_eq!(DictionaryType::from(q(Some(true), Some(false))), DictionaryType::Simplified);
    assert_eq!(DictionaryType::from(q(Some(true), Some(true))), DictionaryType::Traditional);
    assert_eq!(DictionaryType::from(q(None, None)), DictionaryType::Traditional);
    assert_eq!(DictionaryType::from(q(Some(false), Some(true))), DictionaryType::Traditional);
}

fn worker() -> Worker {
    let words = WordDictionary::new(CEDICT);
    let sentences = SentenceDictionary::new(
        "1\t我是中国人。\t\tI am Chinese.\n2\t我叫中国。\t\tMy name is China.\n3\t中国人叫我。\t\tThe Chinese call me.\n",
        &words,
    );
    let frequencies = FrequencyDictionary::new(
        "header\nheader\nheader\n的 100 1.0 6.0000 x\n我 90 1.0 5.4000 x\n中国 80 1.0 3.0000 x\n",
    );
    Worker::new(words, characters(), frequencies, sentences)
}

#[test]
fn word_frequencies_scenario() {
    let w = worker();
    let scores = w.get_word_frequencies(&vec!["的".to_string(), "xyzzy".to_string()]);

    assert_eq!(scores.len(), 2);
    assert!(scores[0] >= 95);
    assert_eq!(scores[1], 0);
}

#[test]
fn word_frequencies_are_scaled_to_the_maximum() {
    let w = worker();
    let scores = w.get_word_frequencies(&vec![
        "的".to_string(),
        "我".to_string(),
        "中国".to_string(),
        "中国人".to_string(),
        "名字".to_string(),
    ]);

    // Neither 中国人 nor any of its characters has a row; the same holds for 名字.
    assert_eq!(scores, vec![100, 90, 50, 0, 0]);
}

#[test]
fn worker_sentences_shortest_first() {
    let w = worker();
    let found = w.get_sentences_including_word("中国人", 10, true);

    assert_eq!(found.len(), 2);
    assert_eq!(found[0].0, "我是中国人。");
    assert_eq!(found[1].0, "中国人叫我。");
    assert_eq!(w.get_sentences_including_word("我", 1, true).len(), 1);
}

#[test]
fn worker_queries() {
    let w = worker();

    assert_eq!(w.get_word("沈", true).len(), 3);
    assert_eq!(w.get_word("沈", false).len(), 2);
    assert_eq!(values(&w.tokenize("我是中国人。")), vec!["我", "是", "中国人", "。"]);
    let words: Vec<&str> = w
        .get_words_including_subslice("中", 2, true)
        .iter()
        .map(|e| e.simplified.as_str())
        .collect();
    assert_eq!(words, vec!["中国", "中国人"]);
    assert_eq!(w.get_character('木').unwrap().strokes, 4);
    let parts = w.decompose('林').iter_parts();
    assert_eq!(parts, vec!['林', '木', '木']);
    let comps: Vec<char> = w.get_characters_including_component('木', true).iter().map(|e| e.character).collect();
    assert_eq!(comps, vec!['休', '林']);
}

#[test]
fn worker_homophones_exact_first() {
    let words = WordDictionary::new(
        "十 十 [shi2] /ten/\n是 是 [shi4] /to be/\n識 识 [shi2] /to know/\n",
    );
    let w = Worker::new(
        words,
        CharacterDictionary::new(vec![character('是', "？", 9), character('识', "？", 7)]),
        FrequencyDictionary::new(""),
        SentenceDictionary::new("", &WordDictionary::new("")),
    );
    let hs: Vec<(&str, bool)> = w
        .get_homophones("十", true)
        .iter()
        .map(|(e, x)| (e.simplified.as_str(), *x))
        .collect();

    assert_eq!(hs, vec![("识", true), ("是", false)]);
}
