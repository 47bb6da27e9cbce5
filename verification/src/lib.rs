//! Random word selection from fixed vocabularies.
//!
//! Each vocabulary ships as a brotli-compressed word list. A [`WordDb`] is
//! built once from those payloads: the text is split into words on line
//! boundaries, and the words are indexed by character count and by leading
//! character. Queries then return whole word tables, index buckets, or a
//! uniformly chosen word.

use vstd::prelude::*;

pub mod db;
pub mod ext;
pub mod index;
pub mod text;

pub use db::WordDb;

verus! {

/// One selectable vocabulary variant.
#[derive(Debug, Clone, Copy, PartialEq, Eq, Hash, Structural)]
pub enum Lang {
    Simple,
    Full,
    Nerd,
}

/// How many vocabulary variants there are.
pub const LANG_COUNT: usize = 3;

/// The position of a vocabulary's table within a database.
pub open spec fn lang_index_spec(lang: Lang) -> int {
    match lang {
        Lang::Simple => 0,
        Lang::Full => 1,
        Lang::Nerd => 2,
    }
}

/// Maps each vocabulary to the position of its table within a database.
pub fn lang_index(lang: Lang) -> (i: usize)
    ensures
        i == lang_index_spec(lang),
        i < LANG_COUNT,
{
    match lang {
        Lang::Simple => 0,
        Lang::Full => 1,
        Lang::Nerd => 2,
    }
}

} // verus!
