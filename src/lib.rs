pub mod query;
pub mod subsequence;
pub mod todo_list;
pub mod trie;

pub use query::SearchParams;
pub use subsequence::match_subsequence;
pub use todo_list::{Index, SearchWordOrTag, Tag, TodoItem, TodoList, TodoLister, TriedoList, Word};
pub use trie::Trie1;
