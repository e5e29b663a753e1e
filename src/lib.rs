//! Read-only lookups for Mandarin Chinese: a forward maximum match tokenizer
//! over a bilingual dictionary, character decomposition, word frequencies,
//! example sentences and a keyword thesaurus.
pub mod cedict;
pub mod character;
pub mod facade;
pub mod frequency;
pub mod order;
pub mod sentence;
pub mod text;
pub mod thesaurus;
pub mod trie;
pub mod word;

pub use character::{
    CharacterDecomposition, CharacterDictionary, CharacterEntry, CharacterEtymology,
};
pub use facade::{
    decompose, lookup_character, lookup_simplified, lookup_simplified_characters_including_component,
    lookup_simplified_including_subslice, lookup_traditional,
    lookup_traditional_characters_including_component, lookup_traditional_with_subslice, tokenize,
    DictionaryTypeQuery, Worker,
};
pub use frequency::FrequencyDictionary;
pub use sentence::{SentenceDictionary, SentenceEntry};
pub use thesaurus::{Score, ThesaurusDictionary};
pub use trie::CharTrie;
pub use word::{DictionaryType, Token, WordDictionary, WordEntry};
