use zilin::{CharacterDecomposition, CharacterDictionary, CharacterEntry, CharacterEtymology};

fn well_shaped_tree(t: &CharacterDecomposition) -> bool {
    match t {
        CharacterDecomposition::Components { ty, components, .. } => {
            let arity = if "⿰⿱⿴⿵⿶⿷⿸⿹⿺⿻".contains(*ty) {
                2
            } else if "⿲⿳".contains(*ty) {
                3
            } else {
                0
            };
            components.len() == arity && components.iter().all(well_shaped_tree)
        },
        _ => true,
    }
}

fn character(c: char, decomposition: &str, strokes: usize) -> CharacterEntry {
    CharacterEntry {
        character: c,
        definition: Some(format!("definition of {}", c)),
        pinyin: vec!["x".to_string()],
        decomposition: decomposition.to_string(),
        etymology: Some(CharacterEtymology {
            ty: "ideographic".to_string(),
            hint: None,
            phonetic: None,
            semantic: None,
        }),
        matches: vec![serde_json::Value::Null; strokes],
        strokes: 0,
    }
}

fn sample() -> Vec<CharacterEntry> {
    vec![
        character('休', "⿰亻木", 6),
        character('亻', "？", 2),
        character('木', "？", 4),
        character('林', "⿰木木", 8),
        character('森', "⿱木林", 12),
        character('衍', "⿲彳氵亍", 9),
        character('彳', "？", 3),
    ]
}

#[test]
fn character_should_be_able_to_parse_dictionary_data() {
    let d = CharacterDictionary::new(sample());

    assert_eq!(d.iter().len(), 7);
    assert_eq!(d.get('森').unwrap().strokes, 12);
}

#[test]
fn should_be_able_to_parse_dictionary_data() {
    let d = CharacterDictionary::new(sample());

    assert!(d.get('休').is_some());
}

#[test]
fn strokes_come_from_matches() {
    let d = CharacterDictionary::new(sample());

    assert_eq!(d.get('休').unwrap().strokes, 6);
    assert_eq!(d.stroke_count("休林"), Some(14));
    assert_eq!(d.stroke_count(""), Some(0));
    assert_eq!(d.stroke_count("休x"), None);
}

#[test]
fn a_later_entry_replaces_an_earlier_one() {
    let mut entries = sample();
    entries.push(character('木', "？", 5));
    let d = CharacterDictionary::new(entries);

    assert_eq!(d.get('木').unwrap().strokes, 5);
    assert_eq!(d.iter().len(), 7);
}

#[test]
fn decompose_binary_and_nested() {
    let d = CharacterDictionary::new(sample());
    let forest = d.decompose('森');

    assert_eq!(forest.iter_parts(), vec!['森', '木', '林', '木', '木']);
    assert!(well_shaped_tree(&forest));
}

#[test]
fn decompose_trinary_and_unknown_parts() {
    let d = CharacterDictionary::new(sample());
    let t = d.decompose('衍');

    match &t {
        CharacterDecomposition::Components { ty, value, components } => {
            assert_eq!(*ty, '⿲');
            assert_eq!(*value, Some('衍'));
            assert_eq!(components.len(), 3);
            assert_eq!(components[0], CharacterDecomposition::Radical('彳'));
            // 氵 and 亍 have no entries: they are radicals.
            assert_eq!(components[1], CharacterDecomposition::Radical('氵'));
        },
        _ => panic!("expected components"),
    }
    assert_eq!(d.decompose('龍'), CharacterDecomposition::Unknown);
    assert_eq!(d.decompose('木'), CharacterDecomposition::Unknown);
}

#[test]
fn decompose_cycle_is_cut() {
    let d = CharacterDictionary::new(vec![character('甲', "乙", 1), character('乙', "甲", 1)]);
    let t = d.decompose('甲');

    // Past the depth cap the chain ends in a radical.
    assert!(matches!(t, CharacterDecomposition::Radical(_)));
    assert!(well_shaped_tree(&t));
}

#[test]
fn decompose_truncated_sequence() {
    let d = CharacterDictionary::new(vec![character('丁', "⿰", 2)]);

    assert_eq!(
        d.decompose('丁'),
        CharacterDecomposition::Components {
            ty: '⿰',
            value: Some('丁'),
            components: vec![CharacterDecomposition::Unknown, CharacterDecomposition::Unknown],
        }
    );
}

#[test]
fn components_exclude_the_component_itself() {
    let d = CharacterDictionary::new(sample());
    let found: Vec<char> = d.get_characters_including_component('木').iter().map(|e| e.character).collect();

    assert_eq!(found, vec!['休', '林', '森']);
    let found: Vec<char> = d.get_characters_including_component('林').iter().map(|e| e.character).collect();
    assert_eq!(found, vec!['森']);
}
