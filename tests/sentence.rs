use zilin::{DictionaryType, SentenceDictionary, WordDictionary};

const CEDICT: &str = "我 我 [wo3] /I; me/
是 是 [shi4] /to be/
中國人 中国人 [Zhong1 guo2 ren2] /Chinese person/
愛 爱 [ai4] /to love/
學習 学习 [xue2 xi2] /to learn/
";

const CORPUS: &str = "1\t我是中國人。\t\tI am Chinese.
2\t我愛學習。\t\tI love learning.
3\t我是中國人。\t\tDuplicate, skipped.
4\tno tabs enough
5\t我愛你\t\tI love you.
";

#[test]
fn sentence_should_be_able_to_parse_dictionary_data() {
    let words = WordDictionary::new(CEDICT);
    let s = SentenceDictionary::new(CORPUS, &words);

    assert_eq!(s.iter_sentences_including_word("我", DictionaryType::Simplified).len(), 3);
}

#[test]
fn sentences_are_written_in_either_orthography() {
    let words = WordDictionary::new(CEDICT);
    let s = SentenceDictionary::new(CORPUS, &words);
    let simplified = s.iter_sentences_including_word("中国人", DictionaryType::Simplified);

    assert_eq!(simplified, vec![("我是中国人。".to_string(), "I am Chinese.".to_string())]);
    let traditional = s.iter_sentences_including_word("學習", DictionaryType::Traditional);
    assert_eq!(traditional, vec![("我愛學習。".to_string(), "I love learning.".to_string())]);
    assert!(s.iter_sentences_including_word("學習", DictionaryType::Simplified).is_empty());
}

#[test]
fn unknown_tokens_keep_their_text() {
    let words = WordDictionary::new(CEDICT);
    let s = SentenceDictionary::new(CORPUS, &words);
    let found = s.iter_sentences_including_word("你", DictionaryType::Traditional);

    assert_eq!(found, vec![("我愛你".to_string(), "I love you.".to_string())]);
}
