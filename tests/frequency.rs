use zilin::frequency::parse_decimal_micros;
use zilin::FrequencyDictionary;

const TABLE: &str = "\"Total word count: 33,546,516\"
\"Context number: 6,243\"
Word\tWCount\tW/million\tlogW\tW-CD\tW-CD%\tlogW-CD
的\t1465389\t43683.8566\t6.1660\t6243\t100.00\t3.7954
我\t1368690\t40801.3340\t6.1363\t6235\t99.87\t3.7948
中国\t12045\t359.0659\t4.0808\t2231\t35.74\t3.3485
你好\t100\t2.0\tnot-a-number\t1\t1\t1
人\t500\t14.9\t2.6990\t40\t0.64\t1.6021
";

#[test]
fn frequency_should_be_able_to_parse_dictionary_data() {
    let f = FrequencyDictionary::new(TABLE);

    assert_eq!(f.get("的"), 100);
}

#[test]
fn scores_scale_to_the_largest_log_frequency() {
    let f = FrequencyDictionary::new(TABLE);

    // 6.1363 * 100 / 6.1660 = 99.5...
    assert_eq!(f.get("我"), 99);
    // 4.0808 * 100 / 6.1660 = 66.1...
    assert_eq!(f.get("中国"), 66);
    assert_eq!(f.lookup("xyzzy"), None);
    assert_eq!(f.get("xyzzy"), 0);
}

#[test]
fn unknown_words_use_their_rarest_character() {
    let f = FrequencyDictionary::new(TABLE);

    // 中国人 has no row; of its characters only 人 has one: 2.6990 -> 43.
    assert_eq!(f.get("中国人"), 43);
    // 我人: the smaller of 我 and 人.
    assert_eq!(f.get("我人"), 43);
    assert_eq!(f.get("我的"), 99);
}

#[test]
fn rows_without_a_decimal_are_skipped() {
    let f = FrequencyDictionary::new(TABLE);

    assert_eq!(f.lookup("你好"), None);
    assert_eq!(f.get(""), 0);
}

#[test]
fn header_lines_are_never_rows() {
    let f = FrequencyDictionary::new("的 1 1 9.0\n我 1 1 9.0\n你 1 1 9.0\n人 1 1 3.0\n");

    assert_eq!(f.get("的"), 0);
    assert_eq!(f.get("人"), 100);
}

#[test]
fn negative_and_zero_scores() {
    let f = FrequencyDictionary::new("h\nh\nh\n甲 1 1 -2.5\n乙 1 1 0\n丙 1 1 +4\n");

    assert_eq!(f.get("甲"), 0);
    assert_eq!(f.get("乙"), 0);
    assert_eq!(f.get("丙"), 100);
    let empty = FrequencyDictionary::new("h\nh\nh\n甲 1 1 0.0\n");
    assert_eq!(empty.get("甲"), 0);
}

#[test]
fn decimals_read_as_millionths() {
    let c = |s: &str| s.chars().collect::<Vec<char>>();

    assert_eq!(parse_decimal_micros(&c("6.1660")), Some(6_166_000));
    assert_eq!(parse_decimal_micros(&c("-0.5")), Some(-500_000));
    assert_eq!(parse_decimal_micros(&c("+3")), Some(3_000_000));
    assert_eq!(parse_decimal_micros(&c(".25")), Some(250_000));
    assert_eq!(parse_decimal_micros(&c("7.")), Some(7_000_000));
    assert_eq!(parse_decimal_micros(&c("1.23456789")), Some(1_234_567));
    // Exponent forms and integer parts past twelve digits are not read.
    assert_eq!(parse_decimal_micros(&c("1e5")), None);
    assert_eq!(parse_decimal_micros(&c("NaN")), None);
    assert_eq!(parse_decimal_micros(&c(".")), None);
    assert_eq!(parse_decimal_micros(&c("")), None);
    assert_eq!(parse_decimal_micros(&c("1234567890123")), None);
}
