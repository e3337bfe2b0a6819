//! A flashcard study library: study sets of word/answer/remark cards, tagged
//! with free-form labels, indexed by a catalogue of lightweight summaries and
//! persisted through a name-keyed file store with a JSON file format.

pub mod card;
pub mod catalogue;
pub mod codec;
pub mod list_item;
pub mod storage;
pub mod study_set;
pub mod tags;
pub mod text;

pub use card::Card;
pub use card::CardV;
pub use codec::encode_catalogue;
pub use codec::encode_study_set;
pub use codec::parse_catalogue;
pub use codec::parse_study_set;
pub use catalogue::Catalogue;
pub use list_item::ListItem;
pub use list_item::ListItemV;
pub use storage::Storage;
pub use storage::StorageError;
pub use storage::StorageV;
pub use study_set::StudySet;
pub use study_set::StudySetV;
pub use study_set::get_scores;
pub use text::has_duplicate;
pub use text::is_same_2_d_vec_string;
pub use text::is_same_vec_string;
pub use text::is_valid;
pub use text::place_holder_helper;
