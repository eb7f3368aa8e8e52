//! The records of the store: words as the application shows them, the rows
//! they are kept in, learned records, and the errors of the store.

use vstd::prelude::*;
use crate::text::{decimal, signed_decimal, push_decimal, push_signed_decimal};

verus! {

/// A word as the application shows it.
#[derive(Debug, Clone)]
pub struct Word {
    pub id: i64,
    pub word: String,
    pub meaning: String,
    pub success_count: i32,
    pub threshold: i32,
}

/// The mathematical value of a [`Word`].
pub struct WordView {
    pub id: i64,
    pub word: Seq<char>,
    pub meaning: Seq<char>,
    pub success_count: i32,
    pub threshold: i32,
}

impl View for Word {
    type V = WordView;

    open spec fn view(&self) -> WordView {
        WordView {
            id: self.id,
            word: self.word@,
            meaning: self.meaning@,
            success_count: self.success_count,
            threshold: self.threshold,
        }
    }
}

/// The views of a sequence of words.
pub open spec fn views(ws: Seq<Word>) -> Seq<WordView> {
    ws.map_values(|w: Word| w@)
}

impl Word {
    /// A copy of this word.
    pub fn duplicate(&self) -> (r: Word)
        ensures
            r@ == self@,
    {
        Word {
            id: self.id,
            word: self.word.clone(),
            meaning: self.meaning.clone(),
            success_count: self.success_count,
            threshold: self.threshold,
        }
    }
}

/// A stored word row. Its counters are 64-bit, as the database keeps them; a
/// row whose counters do not fit 32 bits cannot be read back as a [`Word`].
#[derive(Debug)]
pub struct WordRow {
    pub id: i64,
    pub word: String,
    pub meaning: String,
    pub success_count: i64,
    pub threshold: i64,
}

/// The mathematical value of a [`WordRow`].
pub struct WordEntry {
    pub id: i64,
    pub word: Seq<char>,
    pub meaning: Seq<char>,
    pub success_count: i64,
    pub threshold: i64,
}

impl View for WordRow {
    type V = WordEntry;

    open spec fn view(&self) -> WordEntry {
        WordEntry {
            id: self.id,
            word: self.word@,
            meaning: self.meaning@,
            success_count: self.success_count,
            threshold: self.threshold,
        }
    }
}

impl WordRow {
    /// A copy of this row.
    pub fn duplicate(&self) -> (r: WordRow)
        ensures
            r@ == self@,
    {
        WordRow {
            id: self.id,
            word: self.word.clone(),
            meaning: self.meaning.clone(),
            success_count: self.success_count,
            threshold: self.threshold,
        }
    }
}

/// A record that a word has been learned, with the time it was learned.
#[derive(Debug)]
pub struct LearnedRow {
    pub id: i64,
    pub word_id: i64,
    pub learned_at: String,
}

/// The mathematical value of a [`LearnedRow`].
pub struct LearnedEntry {
    pub id: i64,
    pub word_id: i64,
    pub learned_at: Seq<char>,
}

impl View for LearnedRow {
    type V = LearnedEntry;

    open spec fn view(&self) -> LearnedEntry {
        LearnedEntry { id: self.id, word_id: self.word_id, learned_at: self.learned_at@ }
    }
}

impl LearnedRow {
    /// A copy of this record.
    pub fn duplicate(&self) -> (r: LearnedRow)
        ensures
            r@ == self@,
    {
        LearnedRow { id: self.id, word_id: self.word_id, learned_at: self.learned_at.clone() }
    }
}

/// Whether a 64-bit value can be read as a 32-bit one.
pub open spec fn fits_i32(x: i64) -> bool {
    i32::MIN <= x <= i32::MAX
}

/// Why an operation of the store failed.
#[derive(Debug, Clone, Copy, PartialEq, Eq, Structural)]
pub enum StoreError {
    /// No word has the requested id.
    WordNotFound,
    /// A counter could not be read as a 32-bit integer.
    ValueOutOfRange { column: u8, value: i64 },
    /// Every id has been handed out; no row can be added.
    StoreFull,
    /// A success counter already holds the largest 64-bit value.
    CounterOverflow,
    /// The import format is not one of `csv`, `json`, `txt`.
    UnsupportedFormat,
    /// More entries would be imported than a 32-bit count can hold.
    TooManyEntries,
    /// Stored rows break the store's rules (ids, uniqueness).
    CorruptData,
}

/// The value of a result that carries a word.
pub open spec fn result_view(r: Result<Word, StoreError>) -> Result<WordView, StoreError> {
    match r {
        Ok(w) => Ok(w@),
        Err(e) => Err(e),
    }
}

/// The text shown for an error.
pub open spec fn error_text(e: StoreError) -> Seq<char> {
    match e {
        StoreError::WordNotFound => "Query returned no rows"@,
        StoreError::ValueOutOfRange { column, value } => "Integer "@ + signed_decimal(value as int)
            + " out of range at index "@ + decimal(column as nat),
        StoreError::StoreFull => "database or disk is full"@,
        StoreError::CounterOverflow => "Integer overflow"@,
        StoreError::UnsupportedFormat => "Unsupported format"@,
        StoreError::TooManyEntries => "Too many entries"@,
        StoreError::CorruptData => "Stored data is inconsistent"@,
    }
}

impl StoreError {
    /// The text shown for this error.
    pub fn message(&self) -> (s: String)
        ensures
            s@ == error_text(*self),
    {
        match self {
            StoreError::WordNotFound => String::from_str("Query returned no rows"),
            StoreError::ValueOutOfRange { column, value } => {
                let mut s = String::from_str("Integer ");
                push_signed_decimal(&mut s, *value);
                s.append(" out of range at index ");
                push_decimal(&mut s, *column as u64);
                s
            },
            StoreError::StoreFull => String::from_str("database or disk is full"),
            StoreError::CounterOverflow => String::from_str("Integer overflow"),
            StoreError::UnsupportedFormat => String::from_str("Unsupported format"),
            StoreError::TooManyEntries => String::from_str("Too many entries"),
            StoreError::CorruptData => String::from_str("Stored data is inconsistent"),
        }
    }
}

} // verus!
