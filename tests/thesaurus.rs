use zilin::{DictionaryType, Score, ThesaurusDictionary, WordDictionary};

const CEDICT: &str = "快樂 快乐 [kuai4 le4] /happy; merry/
高興 高兴 [gao1 xing4] /happy; glad; willing (to do sth)/
開心 开心 [kai1 xin1] /to feel happy; to rejoice/
悲傷 悲伤 [bei1 shang1] /sad; sorrowful/
北京 北京 [Bei3 jing1] /Beijing, capital of China/
個 个 [ge4] /classifier for people or objects in general/
樂 乐 [le4] /happy; cheerful; to laugh/
樂 乐 [yue4] /music/
快 快 [kuai4] /rapid; quick; speed; rate; soon; almost/
";

fn sample() -> (WordDictionary, ThesaurusDictionary) {
    let words = WordDictionary::new(CEDICT);
    let t = ThesaurusDictionary::new(&words);
    (words, t)
}

#[test]
fn should_be_able_to_parse_thesaurus_data() {
    let (_, t) = sample();

    assert!(!t.get_similar_words("快乐", DictionaryType::Simplified).is_empty());
}

#[test]
fn similar_words_by_jaccard() {
    let (_, t) = sample();
    let similar = t.get_similar_words("快乐", DictionaryType::Simplified);
    let words: Vec<&str> = similar.iter().map(|(w, _)| w.as_str()).collect();

    // 快乐: {happy, merry}; 乐: {happy, cheerful, laugh, music}; 高兴: {happy, glad, willing};
    // 开心: {feel, happy, rejoice}.
    // 高兴 and 开心 tie at 1/4, in enumeration order; 乐 follows at 1/5.
    assert_eq!(words.len(), 3);
    assert!(words[..2].contains(&"高兴") && words[..2].contains(&"开心"));
    assert_eq!(words[2], "乐");
    assert_eq!(similar[0].1, Score { shared: 1, total: 4 });
    assert_eq!(similar[1].1, Score { shared: 1, total: 4 });
    assert_eq!(similar[2].1, Score { shared: 1, total: 5 });
    assert!(!words.contains(&"快乐"));
    assert!(!words.contains(&"悲伤"));
}

#[test]
fn scores_never_rise_and_stay_in_range() {
    let (_, t) = sample();
    for w in ["快乐", "高兴", "开心", "乐", "快", "悲伤"] {
        let similar = t.get_similar_words(w, DictionaryType::Simplified);
        for (_, s) in &similar {
            assert!(s.shared > 0 && s.shared <= s.total);
        }
        for pair in similar.windows(2) {
            let (a, b) = (pair[0].1, pair[1].1);
            assert!((a.shared as u128) * (b.total as u128) >= (b.shared as u128) * (a.total as u128));
        }
    }
}

#[test]
fn similar_words_are_repeatable() {
    let (_, t) = sample();

    assert_eq!(
        t.get_similar_words("高興", DictionaryType::Traditional),
        t.get_similar_words("高興", DictionaryType::Traditional)
    );
}

#[test]
fn proper_nouns_and_metadata_are_left_out() {
    let (_, t) = sample();

    assert!(t.get_similar_words("北京", DictionaryType::Simplified).is_empty());
    assert!(t.get_similar_words("个", DictionaryType::Simplified).is_empty());
    assert!(t.get_similar_words("不在", DictionaryType::Simplified).is_empty());
}

#[test]
fn a_head_word_named_in_the_bag_scores_one() {
    let words = WordDictionary::new(
        "甲 甲 [jia3] /see 乙/\n乙 乙 [yi3] /second; something else/\n丙 丙 [bing3] /third/\n",
    );
    let t = ThesaurusDictionary::new(&words);
    let similar = t.get_similar_words("甲", DictionaryType::Simplified);

    assert_eq!(similar, vec![("乙".to_string(), Score { shared: 1, total: 1 })]);
}

#[test]
fn bracketed_words_are_dropped() {
    let words = WordDictionary::new(
        "甲 甲 [jia3] /plain word (with an aside) here/\n乙 乙 [yi3] /aside with here [the note]/\n",
    );
    let t = ThesaurusDictionary::new(&words);
    let similar = t.get_similar_words("甲", DictionaryType::Simplified);

    // 甲: {plain, word, here}; 乙: {aside, with, here}.
    assert_eq!(similar, vec![("乙".to_string(), Score { shared: 1, total: 5 })]);
}

#[test]
fn entries_with_empty_pinyin_keep_their_keywords() {
    let words = WordDictionary::new("中 中 [] /big house/\n房 房 [fang2] /house/\n");
    let t = ThesaurusDictionary::new(&words);
    let similar = t.get_similar_words("中", DictionaryType::Simplified);

    assert_eq!(similar, vec![("房".to_string(), Score { shared: 1, total: 2 })]);
}
