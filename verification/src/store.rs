//! The word store: the words table, the learned table and their id
//! sequences, with the operations of the application on them.

use vstd::prelude::*;
use crate::word::{Word, WordView, WordRow, WordEntry, LearnedRow, LearnedEntry, StoreError, fits_i32, views, result_view};
use crate::text::{same_text, text_less, text_le, lemma_text_less_total};
use crate::import::{format_of, import_pairs, parse_format, pairs_from, pairs_from_entries, pairs_view, json_pairs, entries_view};
use crate::clock::{chrono_lite_now, clock_seconds};
use crate::arrange::{sorted_by_text, sort_by_text, shuffled, shuffle_words, random_seed, lemma_shuffled_multiset, lemma_shuffled_views};
use crate::text::decimal;

verus! {

// ---------------------------------------------------------------------------
// The model
// ---------------------------------------------------------------------------

/// The mathematical value of a [`WordStore`]: the word rows in id order, the
/// learned records in id order, the largest id each table has handed out, and
/// the configured memory threshold (how many successful recalls make a word
/// learned).
pub struct StoreState {
    pub words: Seq<WordEntry>,
    pub learned: Seq<LearnedEntry>,
    pub word_seq: i64,
    pub learned_seq: i64,
    pub memory_threshold: i32,
}

/// Keeps the elements that satisfy `keep`, in order.
pub open spec fn retain<A>(s: Seq<A>, keep: spec_fn(A) -> bool) -> Seq<A>
    decreases s.len(),
{
    if s.len() == 0 {
        s
    } else {
        let r = retain(s.drop_last(), keep);
        if keep(s.last()) {
            r.push(s.last())
        } else {
            r
        }
    }
}

/// The rules every store keeps.
pub open spec fn store_rules(s: StoreState) -> bool {
    &&& 0 <= s.word_seq
    &&& 0 <= s.learned_seq
    &&& forall|i: int, j: int|
        0 <= i < j < s.words.len() ==> #[trigger] s.words[i].id < #[trigger] s.words[j].id
    &&& forall|i: int| 0 <= i < s.words.len() ==> #[trigger] s.words[i].id <= s.word_seq
    &&& forall|i: int, j: int|
        0 <= i < s.words.len() && 0 <= j < s.words.len() && i != j ==> #[trigger] s.words[i].word
            != #[trigger] s.words[j].word
    &&& forall|i: int, j: int|
        0 <= i < j < s.learned.len() ==> #[trigger] s.learned[i].id < #[trigger] s.learned[j].id
    &&& forall|i: int| 0 <= i < s.learned.len() ==> #[trigger] s.learned[i].id <= s.learned_seq
    &&& forall|i: int, j: int|
        0 <= i < s.learned.len() && 0 <= j < s.learned.len() && i != j
            ==> #[trigger] s.learned[i].word_id != #[trigger] s.learned[j].word_id
    &&& s.words.len() <= i64::MAX
    &&& s.learned.len() <= i64::MAX
    &&& forall|i: int| 0 <= i < s.words.len() ==> #[trigger] s.words[i].threshold == s.memory_threshold
    &&& forall|k: int| 0 <= k < s.learned.len() ==> has_id(s, #[trigger] s.learned[k].word_id)
}

/// Whether the words table can take no more rows: its ids are used up, or it
/// holds as many rows as a 64-bit count reaches.
pub open spec fn words_full(s: StoreState) -> bool {
    s.word_seq == i64::MAX || s.words.len() >= i64::MAX
}

/// Whether the learned table can take no more rows.
pub open spec fn learned_full(s: StoreState) -> bool {
    s.learned_seq == i64::MAX || s.learned.len() >= i64::MAX
}

/// Whether some word row has text `t`.
pub open spec fn has_text(s: StoreState, t: Seq<char>) -> bool {
    exists|i: int| 0 <= i < s.words.len() && #[trigger] s.words[i].word == t
}

/// Whether some word row has id `id`.
pub open spec fn has_id(s: StoreState, id: i64) -> bool {
    exists|i: int| 0 <= i < s.words.len() && #[trigger] s.words[i].id == id
}

/// Whether some learned record refers to word `id`.
pub open spec fn has_learned(s: StoreState, id: i64) -> bool {
    exists|k: int| 0 <= k < s.learned.len() && #[trigger] s.learned[k].word_id == id
}

/// A row read back as a word: its counters are read as 32-bit integers, the
/// success counter (column 3) first, then the threshold (column 4).
pub open spec fn entry_read(e: WordEntry) -> Result<WordView, StoreError> {
    if !fits_i32(e.success_count) {
        Err(StoreError::ValueOutOfRange { column: 3, value: e.success_count })
    } else if !fits_i32(e.threshold) {
        Err(StoreError::ValueOutOfRange { column: 4, value: e.threshold })
    } else {
        Ok(
            WordView {
                id: e.id,
                word: e.word,
                meaning: e.meaning,
                success_count: e.success_count as i32,
                threshold: e.threshold as i32,
            },
        )
    }
}

/// The word a row reads as, if it reads at all.
pub open spec fn entry_word(e: WordEntry) -> Option<WordView> {
    match entry_read(e) {
        Ok(w) => Some(w),
        Err(_) => None,
    }
}

/// Every readable word, in id order.
pub open spec fn all_words(s: StoreState) -> Seq<WordView> {
    s.words.filter_map(|e: WordEntry| entry_word(e))
}

/// The readable words that have a learned record, in id order.
pub open spec fn learned_words(s: StoreState) -> Seq<WordView> {
    s.words.filter_map(
        |e: WordEntry|
            if has_learned(s, e.id) {
                entry_word(e)
            } else {
                None
            },
    )
}

/// The readable words without a learned record, in id order.
pub open spec fn unlearned_words(s: StoreState) -> Seq<WordView> {
    s.words.filter_map(
        |e: WordEntry|
            if has_learned(s, e.id) {
                None
            } else {
                entry_word(e)
            },
    )
}

/// The row a new word gets.
pub open spec fn new_entry(s: StoreState, w: Seq<char>, m: Seq<char>) -> WordEntry {
    WordEntry {
        id: (s.word_seq + 1) as i64,
        word: w,
        meaning: m,
        success_count: 0,
        threshold: s.memory_threshold as i64,
    }
}

/// Inserting a word unless its text is present or the table is full.
pub open spec fn insert_or_ignore(s: StoreState, w: Seq<char>, m: Seq<char>) -> StoreState {
    if has_text(s, w) || words_full(s) {
        s
    } else {
        StoreState { words: s.words.push(new_entry(s, w, m)), word_seq: (s.word_seq + 1) as i64, ..s }
    }
}

/// Adding a word and reading back the row that holds its text.
pub open spec fn spec_add_word(s: StoreState, w: Seq<char>, m: Seq<char>) -> (
    StoreState,
    Result<WordView, StoreError>,
) {
    if has_text(s, w) {
        let i = choose|i: int| 0 <= i < s.words.len() && s.words[i].word == w;
        (s, entry_read(s.words[i]))
    } else if words_full(s) {
        (s, Err(StoreError::StoreFull))
    } else {
        (insert_or_ignore(s, w, m), entry_read(new_entry(s, w, m)))
    }
}

/// Inserting every pair in order, each with insert-or-ignore.
pub open spec fn insert_all(s: StoreState, pairs: Seq<(Seq<char>, Seq<char>)>) -> StoreState
    decreases pairs.len(),
{
    if pairs.len() == 0 {
        s
    } else {
        insert_all(insert_or_ignore(s, pairs[0].0, pairs[0].1), pairs.drop_first())
    }
}

/// Inserting every pair and counting them, unless there are more than a
/// 32-bit count holds.
pub open spec fn spec_import_pairs(s: StoreState, ps: Seq<(Seq<char>, Seq<char>)>) -> (
    StoreState,
    Result<i32, StoreError>,
) {
    if ps.len() > i32::MAX {
        (s, Err(StoreError::TooManyEntries))
    } else {
        (insert_all(s, ps), Ok(ps.len() as i32))
    }
}

/// Importing `content` in the format named `name`.
pub open spec fn spec_import(s: StoreState, content: Seq<char>, name: Seq<char>) -> (
    StoreState,
    Result<i32, StoreError>,
) {
    match format_of(name) {
        None => (s, Err(StoreError::UnsupportedFormat)),
        Some(f) => spec_import_pairs(s, import_pairs(content, f)),
    }
}

/// The word rows with the success counter of word `id` set to `c`.
pub open spec fn set_count(words: Seq<WordEntry>, id: i64, c: i64) -> Seq<WordEntry> {
    words.map_values(
        |e: WordEntry|
            if e.id == id {
                WordEntry { success_count: c, ..e }
            } else {
                e
            },
    )
}

/// The row of word `id` (meaningful when it exists).
pub open spec fn entry_of(s: StoreState, id: i64) -> WordEntry {
    s.words[choose|i: int| 0 <= i < s.words.len() && s.words[i].id == id]
}

/// Marking word `id` remembered at time `now`: its counter goes up by one,
/// both counters are read back, and a word whose counter has reached its
/// threshold (the configured memory threshold, which every row carries) gets
/// a learned record unless it has one.
pub open spec fn spec_mark_remembered(s: StoreState, id: i64, now: Seq<char>) -> (
    StoreState,
    Result<(), StoreError>,
) {
    if !has_id(s, id) {
        (s, Err(StoreError::WordNotFound))
    } else {
        let e = entry_of(s, id);
        if e.success_count == i64::MAX {
            (s, Err(StoreError::CounterOverflow))
        } else {
            let c = (e.success_count + 1) as i64;
            let s1 = StoreState { words: set_count(s.words, id, c), ..s };
            if !fits_i32(e.threshold) {
                (s1, Err(StoreError::ValueOutOfRange { column: 0, value: e.threshold }))
            } else if !fits_i32(c) {
                (s1, Err(StoreError::ValueOutOfRange { column: 0, value: c }))
            } else if c >= e.threshold && !has_learned(s, id) {
                if learned_full(s) {
                    (s1, Err(StoreError::StoreFull))
                } else {
                    let r = LearnedEntry {
                        id: (s.learned_seq + 1) as i64,
                        word_id: id,
                        learned_at: now,
                    };
                    (
                        StoreState {
                            learned: s.learned.push(r),
                            learned_seq: (s.learned_seq + 1) as i64,
                            ..s1
                        },
                        Ok(()),
                    )
                }
            } else {
                (s1, Ok(()))
            }
        }
    }
}

/// Deleting word `id` and its learned records.
pub open spec fn spec_delete_word(s: StoreState, id: i64) -> StoreState {
    StoreState {
        words: retain(s.words, |e: WordEntry| e.id != id),
        learned: retain(s.learned, |r: LearnedEntry| r.word_id != id),
        ..s
    }
}

/// All counters back to zero, no learned records.
pub open spec fn spec_reset_progress(s: StoreState) -> StoreState {
    StoreState {
        words: s.words.map_values(|e: WordEntry| WordEntry { success_count: 0, ..e }),
        learned: Seq::empty(),
        ..s
    }
}

/// Whether some word row has id `id`.
pub open spec fn row_has_id(words: Seq<WordEntry>, id: i64) -> bool {
    exists|i: int| 0 <= i < words.len() && #[trigger] words[i].id == id
}

/// A learned record is kept when no record for the same word has a smaller id.
pub open spec fn first_of_its_word(ls: Seq<LearnedEntry>, r: LearnedEntry) -> bool {
    forall|j: int| 0 <= j < ls.len() && #[trigger] ls[j].word_id == r.word_id ==> r.id <= ls[j].id
}

/// Whether rows as they were stored obey the store's rules on ids and texts:
/// ids rise strictly in each table, no two words share a text, and neither
/// table holds more rows than a 64-bit count reaches.
pub open spec fn rows_acceptable(words: Seq<WordEntry>, learned: Seq<LearnedEntry>) -> bool {
    &&& forall|i: int, j: int|
        0 <= i < j < words.len() ==> #[trigger] words[i].id < #[trigger] words[j].id
    &&& forall|i: int, j: int|
        0 <= i < words.len() && 0 <= j < words.len() && i != j ==> #[trigger] words[i].word
            != #[trigger] words[j].word
    &&& forall|i: int, j: int|
        0 <= i < j < learned.len() ==> #[trigger] learned[i].id < #[trigger] learned[j].id
    &&& words.len() <= i64::MAX
    &&& learned.len() <= i64::MAX
}

/// The word rows with every threshold set to `t`.
pub open spec fn with_threshold(words: Seq<WordEntry>, t: i32) -> Seq<WordEntry> {
    words.map_values(|e: WordEntry| WordEntry { threshold: t as i64, ..e })
}

/// Configuring the memory threshold: it applies to every word.
pub open spec fn spec_set_memory_threshold(s: StoreState, t: i32) -> StoreState {
    StoreState { words: with_threshold(s.words, t), memory_threshold: t, ..s }
}

/// The largest of three integers.
pub open spec fn max3(a: int, b: int, c: int) -> int {
    if a >= b && a >= c {
        a
    } else if b >= c {
        b
    } else {
        c
    }
}

/// The store rebuilt from stored rows under memory threshold `t`: every word
/// takes the threshold `t`, duplicate learned records are dropped (only the
/// one with the smallest id per word stays), then records that refer to no
/// word are dropped, and each sequence is at least the largest id of its
/// table and at least 0.
pub open spec fn spec_restore(
    words: Seq<WordEntry>,
    learned: Seq<LearnedEntry>,
    word_seq: i64,
    learned_seq: i64,
    t: i32,
) -> StoreState {
    StoreState {
        words: with_threshold(words, t),
        memory_threshold: t,
        learned: retain(
            retain(learned, |r: LearnedEntry| first_of_its_word(learned, r)),
            |r: LearnedEntry| row_has_id(words, r.word_id),
        ),
        word_seq: max3(
            word_seq as int,
            if words.len() > 0 {
                words.last().id as int
            } else {
                0
            },
            0,
        ) as i64,
        learned_seq: max3(
            learned_seq as int,
            if learned.len() > 0 {
                learned.last().id as int
            } else {
                0
            },
            0,
        ) as i64,
    }
}

// ---------------------------------------------------------------------------
// Lemmas
// ---------------------------------------------------------------------------

pub proof fn lemma_retain_take_succ<A>(s: Seq<A>, keep: spec_fn(A) -> bool, i: int)
    requires
        0 <= i < s.len(),
    ensures
        retain(s.take(i + 1), keep) == if keep(s[i]) {
            retain(s.take(i), keep).push(s[i])
        } else {
            retain(s.take(i), keep)
        },
{
    assert(s.take(i + 1).drop_last() =~= s.take(i));
}

pub proof fn lemma_retain_all<A>(s: Seq<A>, keep: spec_fn(A) -> bool)
    requires
        forall|j: int| 0 <= j < s.len() ==> keep(#[trigger] s[j]),
    ensures
        retain(s, keep) == s,
    decreases s.len(),
{
    if s.len() > 0 {
        lemma_retain_all(s.drop_last(), keep);
        assert(s.drop_last().push(s.last()) =~= s);
    }
}

pub proof fn lemma_retain_one_out<A>(s: Seq<A>, keep: spec_fn(A) -> bool, i: int)
    requires
        0 <= i < s.len(),
        !keep(s[i]),
        forall|j: int| 0 <= j < s.len() && j != i ==> keep(#[trigger] s[j]),
    ensures
        retain(s, keep) == s.remove(i),
    decreases s.len(),
{
    if i == s.len() - 1 {
        lemma_retain_all(s.drop_last(), keep);
        assert(s.drop_last() =~= s.remove(i));
    } else {
        lemma_retain_one_out(s.drop_last(), keep, i);
        assert(s.drop_last().remove(i).push(s.last()) =~= s.remove(i));
    }
}

pub proof fn lemma_retain_ordered<A>(s: Seq<A>, keep: spec_fn(A) -> bool, rel: spec_fn(A, A) -> bool)
    requires
        forall|i: int, j: int| 0 <= i < j < s.len() ==> rel(#[trigger] s[i], #[trigger] s[j]),
    ensures
        forall|i: int, j: int|
            0 <= i < j < retain(s, keep).len() ==> rel(#[trigger] retain(s, keep)[i], #[trigger] retain(s, keep)[j]),
    decreases s.len(),
{
    if s.len() > 0 {
        let d = s.drop_last();
        lemma_retain_ordered(d, keep, rel);
        lemma_retain_subset(d, keep);
        let r = retain(d, keep);
        if keep(s.last()) {
            let t = retain(s, keep);
            assert(t == r.push(s.last()));
            assert forall|i: int, j: int| 0 <= i < j < t.len() implies rel(#[trigger] t[i], #[trigger] t[j]) by {
                assert(t[i] == r[i]);
                if j == t.len() - 1 {
                    let k = choose|k: int| 0 <= k < d.len() && d[k] == #[trigger] r[i] && keep(d[k]);
                    assert(s[k] == d[k]);
                    assert(rel(s[k], s[s.len() - 1]));
                } else {
                    assert(t[j] == r[j]);
                }
            }
        }
    }
}

pub proof fn lemma_retain_subset<A>(s: Seq<A>, keep: spec_fn(A) -> bool)
    ensures
        retain(s, keep).len() <= s.len(),
        forall|k: int|
            0 <= k < retain(s, keep).len() ==> exists|j: int|
                0 <= j < s.len() && s[j] == #[trigger] retain(s, keep)[k] && keep(s[j]),
    decreases s.len(),
{
    if s.len() > 0 {
        lemma_retain_subset(s.drop_last(), keep);
        let r = retain(s.drop_last(), keep);
        assert forall|k: int|
            0 <= k < retain(s, keep).len() implies exists|j: int|
                0 <= j < s.len() && s[j] == #[trigger] retain(s, keep)[k] && keep(s[j]) by {
            if k < r.len() {
                let j = choose|j: int| 0 <= j < s.drop_last().len() && s.drop_last()[j] == r[k] && keep(s.drop_last()[j]);
                assert(s[j] == s.drop_last()[j]);
            } else {
                assert(s[s.len() - 1] == retain(s, keep)[k]);
            }
        }
    }
}

/// Every element of the selection of `ws[..i]` has the key of some row
/// before `i`, and when the rows' keys differ the selected keys differ; the
/// selection keeps the key of the row it reads (`kv` of the word read from a
/// row is `kw` of the row).
pub proof fn lemma_selected_keys<K>(
    ws: Seq<WordEntry>,
    f: spec_fn(WordEntry) -> Option<WordView>,
    kw: spec_fn(WordEntry) -> K,
    kv: spec_fn(WordView) -> K,
    i: int,
)
    requires
        0 <= i <= ws.len(),
        forall|e: WordEntry| (#[trigger] f(e)) is Some ==> kv(f(e)->0) == kw(e),
        forall|p: int, q: int| 0 <= p < ws.len() && 0 <= q < ws.len() && p != q ==> kw(#[trigger] ws[p]) != kw(#[trigger] ws[q]),
    ensures
        forall|a: int| 0 <= a < ws.take(i).filter_map(f).len() ==> exists|j: int| 0 <= j < i && kv(#[trigger] ws.take(i).filter_map(f)[a]) == kw(ws[j]),
        forall|a: int, b: int| 0 <= a < ws.take(i).filter_map(f).len() && 0 <= b < ws.take(i).filter_map(f).len() && a != b
            ==> kv(#[trigger] ws.take(i).filter_map(f)[a]) != kv(#[trigger] ws.take(i).filter_map(f)[b]),
    decreases i,
{
    if i == 0 {
        assert(ws.take(0) =~= Seq::<WordEntry>::empty());
        assert(ws.take(0).filter_map(f) =~= Seq::<WordView>::empty());
    } else {
        let j = i - 1;
        lemma_selected_keys(ws, f, kw, kv, j);
        ws.lemma_filter_map_take_succ(f, j);
        let prev = ws.take(j).filter_map(f);
        let cur = ws.take(i).filter_map(f);
        match f(ws[j]) {
            Some(w) => {
                assert(cur =~= prev.push(w));
                assert forall|a: int| 0 <= a < cur.len() implies exists|t: int| 0 <= t < i && kv(#[trigger] cur[a]) == kw(ws[t]) by {
                    if a < prev.len() {
                        assert(cur[a] == prev[a]);
                        let t = choose|t: int| 0 <= t < j && kv(#[trigger] prev[a]) == kw(ws[t]);
                    } else {
                        assert(kv(cur[a]) == kw(ws[j]));
                    }
                }
                assert forall|a: int, b: int| 0 <= a < cur.len() && 0 <= b < cur.len() && a != b implies kv(#[trigger] cur[a]) != kv(#[trigger] cur[b]) by {
                    if a < prev.len() && b < prev.len() {
                        assert(cur[a] == prev[a] && cur[b] == prev[b]);
                    } else if a < prev.len() {
                        let t = choose|t: int| 0 <= t < j && kv(#[trigger] prev[a]) == kw(ws[t]);
                        assert(cur[a] == prev[a]);
                        assert(kw(ws[t]) != kw(ws[j]));
                    } else {
                        let t = choose|t: int| 0 <= t < j && kv(#[trigger] prev[b]) == kw(ws[t]);
                        assert(cur[b] == prev[b]);
                        assert(kw(ws[t]) != kw(ws[j]));
                    }
                }
            },
            None => {
                assert(cur =~= prev);
                assert forall|a: int| 0 <= a < cur.len() implies exists|t: int| 0 <= t < i && kv(#[trigger] cur[a]) == kw(ws[t]) by {
                    let t = choose|t: int| 0 <= t < j && kv(#[trigger] prev[a]) == kw(ws[t]);
                }
            },
        }
    }
}

/// In a store that keeps its rules, the full and learned listings have no
/// two words with one text and the listing of words to learn has no two
/// words with one id.
pub proof fn lemma_listings_distinct(s: StoreState)
    requires
        store_rules(s),
    ensures
        distinct_texts(all_words(s)),
        distinct_texts(learned_words(s)),
        distinct_ids(unlearned_words(s)),
{
    let n = s.words.len() as int;
    assert(s.words.take(n) =~= s.words);
    let tw = |e: WordEntry| e.word;
    let tv = |w: WordView| w.word;
    lemma_selected_keys(s.words, |e: WordEntry| entry_word(e), tw, tv, n);
    lemma_selected_keys(s.words, |e: WordEntry| if has_learned(s, e.id) { entry_word(e) } else { None }, tw, tv, n);
    assert forall|p: int, q: int| 0 <= p < s.words.len() && 0 <= q < s.words.len() && p != q implies #[trigger] s.words[p].id != #[trigger] s.words[q].id by {
        if p < q {
            assert(s.words[p].id < s.words[q].id);
        } else {
            assert(s.words[q].id < s.words[p].id);
        }
    }
    lemma_selected_keys(s.words, |e: WordEntry| if has_learned(s, e.id) { None } else { entry_word(e) }, |e: WordEntry| e.id, |w: WordView| w.id, n);
}

/// Whether no two words of `ws` share a text.
pub open spec fn distinct_texts(ws: Seq<WordView>) -> bool {
    forall|i: int, j: int| 0 <= i < ws.len() && 0 <= j < ws.len() && i != j ==> #[trigger] ws[i].word != #[trigger] ws[j].word
}

/// Whether no two words of `ws` share an id.
pub open spec fn distinct_ids(ws: Seq<WordView>) -> bool {
    forall|i: int, j: int| 0 <= i < ws.len() && 0 <= j < ws.len() && i != j ==> #[trigger] ws[i].id != #[trigger] ws[j].id
}

/// Whether `ws` is in strictly rising text order.
pub open spec fn strictly_sorted_by_text(ws: Seq<WordView>) -> bool {
    forall|i: int, j: int| 0 <= i < j < ws.len() ==> text_less(#[trigger] ws[i].word, #[trigger] ws[j].word)
}

/// Two lists holding the same words: when one has no two elements with the
/// same key, neither has the other.
pub proof fn lemma_distinct_key_transfer<K>(a: Seq<WordView>, b: Seq<WordView>, key: spec_fn(WordView) -> K)
    requires
        a.to_multiset() == b.to_multiset(),
        forall|i: int, j: int| 0 <= i < a.len() && 0 <= j < a.len() && i != j ==> key(#[trigger] a[i]) != key(#[trigger] a[j]),
    ensures
        forall|i: int, j: int| 0 <= i < b.len() && 0 <= j < b.len() && i != j ==> key(#[trigger] b[i]) != key(#[trigger] b[j]),
{
    broadcast use vstd::seq_lib::group_to_multiset_ensures;
    assert forall|i: int, j: int| 0 <= i < b.len() && 0 <= j < b.len() && i != j implies key(#[trigger] b[i]) != key(#[trigger] b[j]) by {
        if key(b[i]) == key(b[j]) {
            assert(b.to_multiset().count(b[i]) > 0);
            assert(a.contains(b[i]));
            let p = choose|p: int| 0 <= p < a.len() && a[p] == b[i];
            assert(b.to_multiset().count(b[j]) > 0);
            assert(a.contains(b[j]));
            let q = choose|q: int| 0 <= q < a.len() && a[q] == b[j];
            assert(p == q);
            let x = b[i];
            let bi = b.remove(i);
            let jj = if j < i { j } else { j - 1 };
            assert(bi[jj] == x);
            assert(bi.to_multiset().count(x) > 0);
            assert(bi.to_multiset() == b.to_multiset().remove(x));
            let ap = a.remove(p);
            assert(ap.to_multiset() == a.to_multiset().remove(x));
            assert(ap.to_multiset().count(x) > 0);
            assert(ap.contains(x));
            let r = choose|r: int| 0 <= r < ap.len() && ap[r] == x;
            let r1 = if r < p { r } else { r + 1 };
            assert(a[r1] == x);
            assert(key(a[r1]) == key(a[p]));
        }
    }
}

/// A list ordered by text with no two equal texts is strictly ordered.
pub proof fn lemma_sorted_distinct_strict(ws: Seq<WordView>)
    requires
        sorted_by_text(ws),
        distinct_texts(ws),
    ensures
        strictly_sorted_by_text(ws),
{
    assert forall|i: int, j: int| 0 <= i < j < ws.len() implies text_less(#[trigger] ws[i].word, #[trigger] ws[j].word) by {
        assert(text_le(ws[i].word, ws[j].word));
        lemma_text_less_total(ws[i].word, ws[j].word);
    }
}

// ---------------------------------------------------------------------------
// The store
// ---------------------------------------------------------------------------

/// The words table, the learned table and the largest id each has handed out.
pub struct WordStore {
    words: Vec<WordRow>,
    learned: Vec<LearnedRow>,
    word_seq: i64,
    learned_seq: i64,
    memory_threshold: i32,
}

impl View for WordStore {
    type V = StoreState;

    closed spec fn view(&self) -> StoreState {
        StoreState {
            words: self.words@.map_values(|r: WordRow| r@),
            learned: self.learned@.map_values(|r: LearnedRow| r@),
            word_seq: self.word_seq,
            learned_seq: self.learned_seq,
            memory_threshold: self.memory_threshold,
        }
    }
}

impl WordStore {
    /// The store keeps its rules.
    pub open spec fn wf(&self) -> bool {
        store_rules(self@)
    }

    /// An empty store with the default memory threshold 5.
    pub fn new() -> (s: WordStore)
        ensures
            s.wf(),
            s@.words.len() == 0,
            s@.learned.len() == 0,
            s@.word_seq == 0,
            s@.learned_seq == 0,
            s@.memory_threshold == 5,
    {
        let s = WordStore {
            words: Vec::new(),
            learned: Vec::new(),
            word_seq: 0,
            learned_seq: 0,
            memory_threshold: 5,
        };
        assert(s@.words =~= Seq::<WordEntry>::empty());
        assert(s@.learned =~= Seq::<LearnedEntry>::empty());
        s
    }

    proof fn lemma_view_index(&self)
        ensures
            self@.words.len() == self.words@.len(),
            self@.learned.len() == self.learned@.len(),
            forall|i: int| 0 <= i < self.words@.len() ==> #[trigger] self@.words[i] == self.words@[i]@,
            forall|i: int| 0 <= i < self.learned@.len() ==> #[trigger] self@.learned[i] == self.learned@[i]@,
    {
    }

    /// Index of the word row with text `t`.
    fn find_text(&self, t: &str) -> (r: Option<usize>)
        ensures
            match r {
                Some(i) => i < self@.words.len() && self@.words[i as int].word == t@,
                None => !has_text(self@, t@),
            },
    {
        proof { self.lemma_view_index(); }
        let mut i: usize = 0;
        while i < self.words.len()
            invariant
                i <= self.words@.len(),
                self@.words.len() == self.words@.len(),
                forall|j: int| 0 <= j < self.words@.len() ==> #[trigger] self@.words[j] == self.words@[j]@,
                forall|j: int| 0 <= j < i ==> self@.words[j].word != t@,
            decreases self.words.len() - i,
        {
            if same_text(self.words[i].word.as_str(), t) {
                return Some(i);
            }
            i = i + 1;
        }
        None
    }

    /// Index of the word row with id `id`.
    fn find_id(&self, id: i64) -> (r: Option<usize>)
        ensures
            match r {
                Some(i) => i < self@.words.len() && self@.words[i as int].id == id,
                None => !has_id(self@, id),
            },
    {
        proof { self.lemma_view_index(); }
        let mut i: usize = 0;
        while i < self.words.len()
            invariant
                i <= self.words@.len(),
                self@.words.len() == self.words@.len(),
                forall|j: int| 0 <= j < self.words@.len() ==> #[trigger] self@.words[j] == self.words@[j]@,
                forall|j: int| 0 <= j < i ==> self@.words[j].id != id,
            decreases self.words.len() - i,
        {
            if self.words[i].id == id {
                return Some(i);
            }
            i = i + 1;
        }
        None
    }

    /// Index of the learned record for word `id`.
    fn find_learned(&self, id: i64) -> (r: Option<usize>)
        ensures
            match r {
                Some(k) => k < self@.learned.len() && self@.learned[k as int].word_id == id,
                None => !has_learned(self@, id),
            },
    {
        proof { self.lemma_view_index(); }
        let mut k: usize = 0;
        while k < self.learned.len()
            invariant
                k <= self.learned@.len(),
                self@.learned.len() == self.learned@.len(),
                forall|j: int| 0 <= j < self.learned@.len() ==> #[trigger] self@.learned[j] == self.learned@[j]@,
                forall|j: int| 0 <= j < k ==> self@.learned[j].word_id != id,
            decreases self.learned.len() - k,
        {
            if self.learned[k].word_id == id {
                return Some(k);
            }
            k = k + 1;
        }
        None
    }
}


/// Rules are kept when only word counters change.
proof fn lemma_rules_counters_only(a: StoreState, b: StoreState)
    requires
        store_rules(a),
        a.words.len() == b.words.len(),
        forall|i: int| 0 <= i < a.words.len() ==> (#[trigger] b.words[i]).id == a.words[i].id && b.words[i].word == a.words[i].word && b.words[i].threshold == a.words[i].threshold,
        a.learned == b.learned,
        a.word_seq == b.word_seq,
        a.learned_seq == b.learned_seq,
        a.memory_threshold == b.memory_threshold,
    ensures
        store_rules(b),
{
    assert forall|i: int, j: int| 0 <= i < j < b.words.len() implies #[trigger] b.words[i].id < #[trigger] b.words[j].id by {
        assert(a.words[i].id < a.words[j].id);
    }
    assert forall|i: int| 0 <= i < b.words.len() implies #[trigger] b.words[i].id <= b.word_seq && b.words[i].threshold == b.memory_threshold by {
        assert(a.words[i].id <= a.word_seq);
        assert(a.words[i].threshold == a.memory_threshold);
    }
    assert forall|i: int, j: int| 0 <= i < b.words.len() && 0 <= j < b.words.len() && i != j implies #[trigger] b.words[i].word != #[trigger] b.words[j].word by {
        assert(a.words[i].word != a.words[j].word);
    }
    assert forall|k: int| 0 <= k < b.learned.len() implies has_id(b, #[trigger] b.learned[k].word_id) by {
        let j = choose|j: int| 0 <= j < a.words.len() && #[trigger] a.words[j].id == a.learned[k].word_id;
        assert(b.words[j].id == a.words[j].id);
    }
}

/// In a store that keeps its rules, a row with id `id` at index `i` is the only one.
proof fn lemma_id_unique(s: StoreState, i: int, id: i64)
    requires
        store_rules(s),
        0 <= i < s.words.len(),
        s.words[i].id == id,
    ensures
        forall|j: int| 0 <= j < s.words.len() && j != i ==> (#[trigger] s.words[j]).id != id,
        entry_of(s, id) == s.words[i],
{
    assert forall|j: int| 0 <= j < s.words.len() && j != i implies (#[trigger] s.words[j]).id != id by {
        if j < i {
            assert(s.words[j].id < s.words[i].id);
        } else {
            assert(s.words[i].id < s.words[j].id);
        }
    }
}

/// In a store that keeps its rules, a row with text `t` at index `i` is the only one.
proof fn lemma_text_unique(s: StoreState, i: int, t: Seq<char>)
    requires
        store_rules(s),
        0 <= i < s.words.len(),
        s.words[i].word == t,
    ensures
        (choose|k: int| 0 <= k < s.words.len() && s.words[k].word == t) == i,
{
    let k = choose|k: int| 0 <= k < s.words.len() && s.words[k].word == t;
    if k != i {
        assert(s.words[k].word != s.words[i].word);
    }
}

/// In a store that keeps its rules, the learned record for `id` at index `k` is the only one.
proof fn lemma_learned_unique(s: StoreState, k: int, id: i64)
    requires
        store_rules(s),
        0 <= k < s.learned.len(),
        s.learned[k].word_id == id,
    ensures
        forall|j: int| 0 <= j < s.learned.len() && j != k ==> (#[trigger] s.learned[j]).word_id != id,
{
    assert forall|j: int| 0 <= j < s.learned.len() && j != k implies (#[trigger] s.learned[j]).word_id != id by {
        assert(s.learned[j].word_id != s.learned[k].word_id);
    }
}

/// Rules are kept when one word row without a learned record goes.
proof fn lemma_rules_remove_word(s: StoreState, i: int)
    requires
        store_rules(s),
        0 <= i < s.words.len(),
        !has_learned(s, s.words[i].id),
    ensures
        store_rules(StoreState { words: s.words.remove(i), ..s }),
{
    let w = s.words.remove(i);
    assert forall|k: int| 0 <= k < s.learned.len() implies has_id(StoreState { words: w, ..s }, #[trigger] s.learned[k].word_id) by {
        let j = choose|j: int| 0 <= j < s.words.len() && #[trigger] s.words[j].id == s.learned[k].word_id;
        if j == i {
            assert(has_learned(s, s.words[i].id));
        }
        let j1 = if j < i { j } else { j - 1 };
        assert(w[j1] == s.words[j]);
        assert((StoreState { words: w, ..s }).words[j1].id == s.learned[k].word_id);
    }
    assert forall|a: int, b: int| 0 <= a < b < w.len() implies #[trigger] w[a].id < #[trigger] w[b].id by {
        let a1 = if a < i { a } else { a + 1 };
        let b1 = if b < i { b } else { b + 1 };
        assert(w[a] == s.words[a1] && w[b] == s.words[b1]);
    }
    assert forall|a: int| 0 <= a < w.len() implies #[trigger] w[a].id <= s.word_seq && w[a].threshold == s.memory_threshold by {
        let a1 = if a < i { a } else { a + 1 };
        assert(w[a] == s.words[a1]);
    }
    assert forall|a: int, b: int| 0 <= a < w.len() && 0 <= b < w.len() && a != b implies #[trigger] w[a].word != #[trigger] w[b].word by {
        let a1 = if a < i { a } else { a + 1 };
        let b1 = if b < i { b } else { b + 1 };
        assert(w[a] == s.words[a1] && w[b] == s.words[b1]);
    }
}

/// Rules are kept when one learned record goes.
proof fn lemma_rules_remove_learned(s: StoreState, k: int)
    requires
        store_rules(s),
        0 <= k < s.learned.len(),
    ensures
        store_rules(StoreState { learned: s.learned.remove(k), ..s }),
{
    let l = s.learned.remove(k);
    assert forall|a: int, b: int| 0 <= a < b < l.len() implies #[trigger] l[a].id < #[trigger] l[b].id by {
        let a1 = if a < k { a } else { a + 1 };
        let b1 = if b < k { b } else { b + 1 };
        assert(l[a] == s.learned[a1] && l[b] == s.learned[b1]);
    }
    assert forall|a: int| 0 <= a < l.len() implies #[trigger] l[a].id <= s.learned_seq by {
        let a1 = if a < k { a } else { a + 1 };
        assert(l[a] == s.learned[a1]);
    }
    assert forall|a: int| 0 <= a < l.len() implies has_id(StoreState { learned: l, ..s }, #[trigger] l[a].word_id) by {
        let a1 = if a < k { a } else { a + 1 };
        assert(l[a] == s.learned[a1]);
        let j = choose|j: int| 0 <= j < s.words.len() && #[trigger] s.words[j].id == s.learned[a1].word_id;
        assert((StoreState { learned: l, ..s }).words[j].id == l[a].word_id);
    }
    assert forall|a: int, b: int| 0 <= a < l.len() && 0 <= b < l.len() && a != b implies #[trigger] l[a].word_id != #[trigger] l[b].word_id by {
        let a1 = if a < k { a } else { a + 1 };
        let b1 = if b < k { b } else { b + 1 };
        assert(l[a] == s.learned[a1] && l[b] == s.learned[b1]);
    }
}

impl WordStore {
    /// The number of words and the number of words with a learned record.
    pub fn get_word_stats(&self) -> (r: (i64, i64))
        requires
            self.wf(),
        ensures
            r.0 == self@.words.len(),
            r.1 == self@.learned.len(),
            r.1 == self@.learned.map_values(|l: LearnedEntry| l.word_id).to_set().len(),
    {
        proof {
            let ids = self@.learned.map_values(|l: LearnedEntry| l.word_id);
            assert forall|i: int, j: int| 0 <= i < ids.len() && 0 <= j < ids.len() && i != j implies ids[i] != ids[j] by {
                assert(self@.learned[i].word_id != self@.learned[j].word_id);
            }
            assert(ids.no_duplicates());
            ids.unique_seq_to_set();
        }
        (self.words.len() as i64, self.learned.len() as i64)
    }

    /// Sets the success counter of word `word_id` back to zero; a missing id
    /// changes nothing.
    pub fn mark_not_remembered(&mut self, word_id: i64) -> (r: Result<(), StoreError>)
        requires
            old(self).wf(),
        ensures
            final(self).wf(),
            final(self)@ == (StoreState { words: set_count(old(self)@.words, word_id, 0), ..old(self)@ }),
            r is Ok,
    {
        proof { self.lemma_view_index(); }
        let ghost s = self@;
        match self.find_id(word_id) {
            Some(i) => {
                proof { lemma_id_unique(s, i as int, word_id); }
                let row = WordRow {
                    id: self.words[i].id,
                    word: self.words[i].word.clone(),
                    meaning: self.words[i].meaning.clone(),
                    success_count: 0,
                    threshold: self.words[i].threshold,
                };
                self.words.set(i, row);
                proof {
                    assert(self@.words =~= set_count(s.words, word_id, 0));
                    lemma_rules_counters_only(s, self@);
                }
            },
            None => {
                assert(set_count(s.words, word_id, 0) =~= s.words);
            },
        }
        Ok(())
    }

    /// Every success counter back to zero and every learned record gone.
    pub fn reset_progress(&mut self) -> (r: Result<(), StoreError>)
        requires
            old(self).wf(),
        ensures
            final(self).wf(),
            final(self)@ == spec_reset_progress(old(self)@),
            r is Ok,
    {
        let ghost s = self@;
        proof { self.lemma_view_index(); }
        let mut words: Vec<WordRow> = Vec::new();
        let n = self.words.len();
        for i in 0..n
            invariant
                n == self.words@.len(),
                s == self@,
                s.words.len() == n,
                forall|j: int| 0 <= j < n ==> #[trigger] s.words[j] == self.words@[j]@,
                words@.len() == i,
                forall|j: int| 0 <= j < i ==> #[trigger] words@[j]@ == (WordEntry { success_count: 0, ..s.words[j] }),
        {
            let row = WordRow {
                id: self.words[i].id,
                word: self.words[i].word.clone(),
                meaning: self.words[i].meaning.clone(),
                success_count: 0,
                threshold: self.words[i].threshold,
            };
            words.push(row);
        }
        self.words = words;
        self.learned = Vec::new();
        proof {
            assert(self@.words =~= spec_reset_progress(s).words);
            assert(self@.learned =~= Seq::<LearnedEntry>::empty());
            lemma_rules_counters_only(s, StoreState { learned: s.learned, ..self@ });
        }
        Ok(())
    }

    /// Deletes word `word_id` together with its learned record; a missing id
    /// changes nothing.
    pub fn delete_word(&mut self, word_id: i64) -> (r: Result<(), StoreError>)
        requires
            old(self).wf(),
        ensures
            final(self).wf(),
            final(self)@ == spec_delete_word(old(self)@, word_id),
            r is Ok,
    {
        let ghost s = self@;
        proof { self.lemma_view_index(); }
        match self.find_learned(word_id) {
            Some(k) => {
                proof {
                    lemma_learned_unique(s, k as int, word_id);
                    lemma_retain_one_out(s.learned, |r: LearnedEntry| r.word_id != word_id, k as int);
                }
                self.learned.remove(k);
                assert(self@.learned =~= s.learned.remove(k as int));
                assert(self@.words =~= s.words);
            },
            None => {
                proof { lemma_retain_all(s.learned, |r: LearnedEntry| r.word_id != word_id); }
            },
        }
        let ghost s1 = self@;
        proof {
            self.lemma_view_index();
            if has_learned(s, word_id) {
                let k = choose|k: int| 0 <= k < s.learned.len() && s.learned[k].word_id == word_id;
                lemma_rules_remove_learned(s, k);
                lemma_learned_unique(s, k, word_id);
                assert(s1.learned =~= s.learned.remove(k));
                assert forall|a: int| 0 <= a < s1.learned.len() implies #[trigger] s1.learned[a].word_id != word_id by {
                    let a1 = if a < k { a } else { a + 1 };
                    assert(s1.learned[a] == s.learned[a1]);
                }
            } else {
                assert(s1 == s);
            }
            assert(!has_learned(s1, word_id));
        }
        match self.find_id(word_id) {
            Some(i) => {
                proof {
                    lemma_id_unique(s, i as int, word_id);
                    lemma_retain_one_out(s.words, |e: WordEntry| e.id != word_id, i as int);
                    lemma_rules_remove_word(s1, i as int);
                }
                self.words.remove(i);
                assert(self@.words =~= s1.words.remove(i as int));
            },
            None => {
                proof { lemma_retain_all(s.words, |e: WordEntry| e.id != word_id); }
            },
        }
        Ok(())
    }
}


impl WordStore {
    /// Adds a word with meaning `meaning` unless a word with the same text is
    /// present (then nothing changes), and reads back the row holding the text.
    /// A new word gets an id above every id in the store, and so starts out
    /// with no learned record.
    pub fn add_word(&mut self, word: String, meaning: String) -> (r: Result<Word, StoreError>)
        requires
            old(self).wf(),
        ensures
            final(self).wf(),
            (final(self)@, result_view(r)) == spec_add_word(old(self)@, word@, meaning@),
            r is Ok && !has_text(old(self)@, word@) ==> forall|i: int|
                0 <= i < old(self)@.words.len() ==> #[trigger] old(self)@.words[i].id < r->Ok_0.id,
            r is Ok && !has_text(old(self)@, word@) ==> !has_learned(final(self)@, r->Ok_0.id),
    {
        let ghost s = self@;
        proof { self.lemma_view_index(); }
        match self.find_text(word.as_str()) {
            Some(i) => {
                proof { lemma_text_unique(s, i as int, word@); }
                read_row(&self.words[i])
            },
            None => {
                if self.word_seq == i64::MAX || self.words.len() as u64 >= 9223372036854775807u64 {
                    return Err(StoreError::StoreFull);
                }
                let id = self.word_seq + 1;
                let row = WordRow {
                    id,
                    word,
                    meaning,
                    success_count: 0,
                    threshold: self.memory_threshold as i64,
                };
                let w = read_row(&row);
                self.words.push(row);
                self.word_seq = id;
                proof {
                    let t = self@;
                    assert(t.words =~= s.words.push(new_entry(s, word@, meaning@)));
                    assert(t == insert_or_ignore(s, word@, meaning@));
                    assert forall|a: int, b: int| 0 <= a < b < t.words.len() implies #[trigger] t.words[a].id < #[trigger] t.words[b].id by {
                        if b == t.words.len() - 1 {
                            assert(t.words[a] == s.words[a]);
                            assert(s.words[a].id <= s.word_seq);
                        } else {
                            assert(t.words[a] == s.words[a] && t.words[b] == s.words[b]);
                        }
                    }
                    assert forall|a: int| 0 <= a < t.words.len() implies #[trigger] t.words[a].id <= t.word_seq && t.words[a].threshold == t.memory_threshold by {
                        if a < s.words.len() {
                            assert(t.words[a] == s.words[a]);
                        }
                    }
                    assert forall|a: int, b: int| 0 <= a < t.words.len() && 0 <= b < t.words.len() && a != b implies #[trigger] t.words[a].word != #[trigger] t.words[b].word by {
                        if a < s.words.len() && b < s.words.len() {
                            assert(t.words[a] == s.words[a] && t.words[b] == s.words[b]);
                        } else if a < s.words.len() {
                            assert(t.words[a] == s.words[a]);
                        } else {
                            assert(t.words[b] == s.words[b]);
                        }
                    }
                    assert forall|k: int| 0 <= k < t.learned.len() implies has_id(t, #[trigger] t.learned[k].word_id) && t.learned[k].word_id != id by {
                        let j = choose|j: int| 0 <= j < s.words.len() && #[trigger] s.words[j].id == s.learned[k].word_id;
                        assert(t.words[j] == s.words[j]);
                        assert(s.words[j].id <= s.word_seq);
                    }
                }
                w
            },
        }
    }

    /// Marks word `word_id` remembered at time `now` (see [`spec_mark_remembered`]).
    pub fn mark_remembered_at(&mut self, word_id: i64, now: String) -> (r: Result<(), StoreError>)
        requires
            old(self).wf(),
        ensures
            final(self).wf(),
            (final(self)@, r) == spec_mark_remembered(old(self)@, word_id, now@),
    {
        let ghost s = self@;
        proof { self.lemma_view_index(); }
        let i = match self.find_id(word_id) {
            None => {
                return Err(StoreError::WordNotFound);
            },
            Some(i) => i,
        };
        proof { lemma_id_unique(s, i as int, word_id); }
        let count = self.words[i].success_count;
        if count == i64::MAX {
            return Err(StoreError::CounterOverflow);
        }
        let c = count + 1;
        let threshold = self.words[i].threshold;
        let row = WordRow {
            id: self.words[i].id,
            word: self.words[i].word.clone(),
            meaning: self.words[i].meaning.clone(),
            success_count: c,
            threshold,
        };
        self.words.set(i, row);
        let ghost s1 = StoreState { words: set_count(s.words, word_id, c), ..s };
        proof {
            assert(self@.words =~= s1.words);
            assert(self@ == s1);
            lemma_rules_counters_only(s, s1);
        }
        if threshold < i32::MIN as i64 || threshold > i32::MAX as i64 {
            return Err(StoreError::ValueOutOfRange { column: 0, value: threshold });
        }
        if c < i32::MIN as i64 || c > i32::MAX as i64 {
            return Err(StoreError::ValueOutOfRange { column: 0, value: c });
        }
        if c >= threshold {
            proof { self.lemma_view_index(); }
            match self.find_learned(word_id) {
                Some(_) => {},
                None => {
                    if self.learned_seq == i64::MAX || self.learned.len() as u64 >= 9223372036854775807u64 {
                        return Err(StoreError::StoreFull);
                    }
                    let lid = self.learned_seq + 1;
                    let ghost rec = LearnedEntry { id: lid, word_id, learned_at: now@ };
                    self.learned.push(LearnedRow { id: lid, word_id, learned_at: now });
                    self.learned_seq = lid;
                    proof {
                        let t = self@;
                        assert(t.learned =~= s1.learned.push(rec));
                        assert forall|a: int, b: int| 0 <= a < b < t.learned.len() implies #[trigger] t.learned[a].id < #[trigger] t.learned[b].id by {
                            if b == t.learned.len() - 1 {
                                assert(t.learned[a] == s1.learned[a]);
                                assert(s1.learned[a].id <= s1.learned_seq);
                            } else {
                                assert(t.learned[a] == s1.learned[a] && t.learned[b] == s1.learned[b]);
                            }
                        }
                        assert forall|a: int| 0 <= a < t.learned.len() implies #[trigger] t.learned[a].id <= t.learned_seq by {
                            if a < s1.learned.len() {
                                assert(t.learned[a] == s1.learned[a]);
                            }
                        }
                        assert forall|a: int, b: int| 0 <= a < t.learned.len() && 0 <= b < t.learned.len() && a != b implies #[trigger] t.learned[a].word_id != #[trigger] t.learned[b].word_id by {
                            if a < s1.learned.len() && b < s1.learned.len() {
                                assert(t.learned[a] == s1.learned[a] && t.learned[b] == s1.learned[b]);
                            } else if a < s1.learned.len() {
                                assert(t.learned[a] == s1.learned[a]);
                            } else {
                                assert(t.learned[b] == s1.learned[b]);
                            }
                        }
                        assert forall|a: int| 0 <= a < t.learned.len() implies has_id(t, #[trigger] t.learned[a].word_id) by {
                            if a < s1.learned.len() {
                                assert(t.learned[a] == s1.learned[a]);
                                assert(has_id(s1, s1.learned[a].word_id));
                                let j = choose|j: int| 0 <= j < s1.words.len() && #[trigger] s1.words[j].id == s1.learned[a].word_id;
                                assert(t.words[j].id == t.learned[a].word_id);
                            } else {
                                assert(t.words == s1.words);
                                assert(s1.words[i as int].id == s.words[i as int].id);
                                assert(t.learned[a].word_id == word_id);
                                assert(t.words[i as int].id == word_id);
                            }
                        }
                    }
                },
            }
        }
        Ok(())
    }

    /// Marks word `word_id` remembered now: as [`WordStore::mark_remembered_at`]
    /// with the current time as a decimal count of seconds since the Unix epoch
    /// (`0` for a clock reading before it).
    pub fn mark_remembered(&mut self, word_id: i64) -> (r: Result<(), StoreError>)
        requires
            old(self).wf(),
        ensures
            final(self).wf(),
            exists|secs: Option<u64>| (final(self)@, r) == spec_mark_remembered(old(self)@, word_id, decimal(clock_seconds(secs))),
    {
        let now = chrono_lite_now();
        let ghost secs = choose|secs: Option<u64>| now@ == decimal(clock_seconds(secs));
        let r = self.mark_remembered_at(word_id, now);
        assert((self@, r) == spec_mark_remembered(old(self)@, word_id, decimal(clock_seconds(secs))));
        r
    }
}


/// Which words a listing takes.
pub enum Selection {
    All,
    Learned,
    Unlearned,
}

/// The listing a selection stands for.
pub open spec fn selected(s: StoreState, sel: Selection) -> Seq<WordView> {
    match sel {
        Selection::All => all_words(s),
        Selection::Learned => learned_words(s),
        Selection::Unlearned => unlearned_words(s),
    }
}

impl WordStore {
    /// The readable words of a selection, in id order.
    fn collect(&self, sel: Selection) -> (r: Vec<Word>)
        requires
            self.wf(),
        ensures
            views(r@) == selected(self@, sel),
    {
        let ghost s = self@;
        proof { self.lemma_view_index(); }
        let mut out: Vec<Word> = Vec::new();
        let n = self.words.len();
        assert(views(out@) =~= selected(StoreState { words: s.words.take(0), ..s }, sel)) by {
            assert(s.words.take(0) =~= Seq::<WordEntry>::empty());
        }
        for i in 0..n
            invariant
                n == self.words@.len(),
                s == self@,
                s.words.len() == n,
                forall|j: int| 0 <= j < n ==> #[trigger] s.words[j] == self.words@[j]@,
                forall|j: int| 0 <= j < self.learned@.len() ==> #[trigger] s.learned[j] == self.learned@[j]@,
                s.learned.len() == self.learned@.len(),
                views(out@) == match sel {
                    Selection::All => s.words.take(i as int).filter_map(|e: WordEntry| entry_word(e)),
                    Selection::Learned => s.words.take(i as int).filter_map(
                        |e: WordEntry|
                            if has_learned(s, e.id) {
                                entry_word(e)
                            } else {
                                None
                            },
                    ),
                    Selection::Unlearned => s.words.take(i as int).filter_map(
                        |e: WordEntry|
                            if has_learned(s, e.id) {
                                None
                            } else {
                                entry_word(e)
                            },
                    ),
                },
        {
            let take = match sel {
                Selection::All => true,
                Selection::Learned => self.find_learned(self.words[i].id).is_some(),
                Selection::Unlearned => self.find_learned(self.words[i].id).is_none(),
            };
            let ghost before = out@;
            if take {
                match read_row(&self.words[i]) {
                    Ok(w) => {
                        out.push(w);
                    },
                    Err(_) => {},
                }
            }
            proof {
                assert(views(out@) =~= views(before) + match entry_word(s.words[i as int]) {
                    Some(w) => if take { seq![w] } else { Seq::empty() },
                    None => Seq::empty(),
                });
                match sel {
                    Selection::All => {
                        s.words.lemma_filter_map_take_succ(|e: WordEntry| entry_word(e), i as int);
                    },
                    Selection::Learned => {
                        s.words.lemma_filter_map_take_succ(
                            |e: WordEntry|
                                if has_learned(s, e.id) {
                                    entry_word(e)
                                } else {
                                    None
                                },
                            i as int,
                        );
                    },
                    Selection::Unlearned => {
                        s.words.lemma_filter_map_take_succ(
                            |e: WordEntry|
                                if has_learned(s, e.id) {
                                    None
                                } else {
                                    entry_word(e)
                                },
                            i as int,
                        );
                    },
                }
            }
        }
        proof {
            assert(s.words.take(n as int) =~= s.words);
        }
        out
    }

    /// Every readable word, ordered by text.
    pub fn get_all_words(&self) -> (r: Vec<Word>)
        requires
            self.wf(),
        ensures
            strictly_sorted_by_text(views(r@)),
            views(r@).to_multiset() == all_words(self@).to_multiset(),
    {
        let v = self.collect(Selection::All);
        let r = sort_by_text(&v);
        proof {
            lemma_listings_distinct(self@);
            lemma_distinct_key_transfer(all_words(self@), views(r@), |w: WordView| w.word);
            lemma_sorted_distinct_strict(views(r@));
        }
        r
    }

    /// The readable words that have been learned, ordered by text.
    pub fn get_learned_words(&self) -> (r: Vec<Word>)
        requires
            self.wf(),
        ensures
            strictly_sorted_by_text(views(r@)),
            views(r@).to_multiset() == learned_words(self@).to_multiset(),
    {
        let v = self.collect(Selection::Learned);
        let r = sort_by_text(&v);
        proof {
            lemma_listings_distinct(self@);
            lemma_distinct_key_transfer(learned_words(self@), views(r@), |w: WordView| w.word);
            lemma_sorted_distinct_strict(views(r@));
        }
        r
    }

    /// The readable words still to be learned, shuffled from generator state `seed`.
    pub fn get_words_shuffled(&self, seed: u64) -> (r: Vec<Word>)
        requires
            self.wf(),
        ensures
            views(r@) == shuffled(unlearned_words(self@), seed),
            distinct_ids(views(r@)),
    {
        let v = self.collect(Selection::Unlearned);
        let ghost vv = v@;
        let r = shuffle_words(v, seed);
        proof {
            lemma_shuffled_views(vv, seed);
            lemma_shuffled_multiset(unlearned_words(self@), seed);
            lemma_listings_distinct(self@);
            lemma_distinct_key_transfer(unlearned_words(self@), views(r@), |w: WordView| w.id);
        }
        r
    }

    /// The readable words still to be learned, in a random order.
    pub fn get_words(&self) -> (r: Vec<Word>)
        requires
            self.wf(),
        ensures
            exists|seed: u64| views(r@) == shuffled(unlearned_words(self@), seed),
            views(r@).to_multiset() == unlearned_words(self@).to_multiset(),
            distinct_ids(views(r@)),
    {
        let seed = random_seed();
        let r = self.get_words_shuffled(seed);
        proof { lemma_shuffled_multiset(unlearned_words(self@), seed); }
        r
    }
}


impl WordStore {
    /// Inserts every pair with insert-or-ignore and counts them.
    fn insert_pairs(&mut self, ps: &Vec<(String, String)>) -> (r: Result<i32, StoreError>)
        requires
            old(self).wf(),
        ensures
            final(self).wf(),
            (final(self)@, r) == spec_import_pairs(old(self)@, pairs_view(ps@)),
    {
        if ps.len() > i32::MAX as usize {
            return Err(StoreError::TooManyEntries);
        }
        let ghost s0 = self@;
        let ghost pv = pairs_view(ps@);
        let n = ps.len();
        assert(pv.skip(0) =~= pv);
        for i in 0..n
            invariant
                n == ps@.len(),
                pv == pairs_view(ps@),
                self.wf(),
                insert_all(s0, pv) == insert_all(self@, pv.skip(i as int)),
        {
            let w = ps[i].0.clone();
            let m = ps[i].1.clone();
            let ghost before = self@;
            let _ = self.add_word(w, m);
            proof {
                assert(pv.skip(i as int).drop_first() =~= pv.skip(i + 1));
                assert(pv.skip(i as int)[0] == pv[i as int]);
                assert(self@ == insert_or_ignore(before, pv[i as int].0, pv[i as int].1));
            }
        }
        assert(pv.skip(n as int) =~= Seq::<(Seq<char>, Seq<char>)>::empty());
        Ok(n as i32)
    }

    /// Imports the items of a JSON array as read by the JSON reader: every
    /// item whose `word` and `meaning` are non-empty strings is inserted
    /// unless its word is present, and counted either way.
    pub fn import_json_entries(&mut self, entries: &Vec<(Option<String>, Option<String>)>) -> (r: Result<i32, StoreError>)
        requires
            old(self).wf(),
        ensures
            final(self).wf(),
            (final(self)@, r) == spec_import_pairs(old(self)@, json_pairs(entries_view(entries@))),
    {
        let ps = pairs_from_entries(entries);
        self.insert_pairs(&ps)
    }

    /// Imports `content` in the format named `format` (`csv`, `json`, `txt`):
    /// every entry that gives a non-empty word and meaning is inserted unless
    /// its word is present, and counted either way. In the line formats a
    /// first line that is the column header (`word` and `meaning`) is skipped.
    pub fn import_words(&mut self, content: &str, format: &str) -> (r: Result<i32, StoreError>)
        requires
            old(self).wf(),
        ensures
            final(self).wf(),
            (final(self)@, r) == spec_import(old(self)@, content@, format@),
    {
        match parse_format(format) {
            None => Err(StoreError::UnsupportedFormat),
            Some(f) => {
                let ps = pairs_from(content, f);
                self.insert_pairs(&ps)
            },
        }
    }
}


/// The values of word rows.
pub open spec fn word_entries(rows: Seq<WordRow>) -> Seq<WordEntry> {
    rows.map_values(|r: WordRow| r@)
}

/// The values of learned rows.
pub open spec fn learned_entries(rows: Seq<LearnedRow>) -> Seq<LearnedEntry> {
    rows.map_values(|r: LearnedRow| r@)
}

/// The rows with every threshold set to `t`.
fn rows_with_threshold(words: &Vec<WordRow>, t: i32) -> (r: Vec<WordRow>)
    ensures
        word_entries(r@) == with_threshold(word_entries(words@), t),
{
    let ghost w = word_entries(words@);
    let mut out: Vec<WordRow> = Vec::new();
    let n = words.len();
    for i in 0..n
        invariant
            n == words@.len(),
            w == word_entries(words@),
            out@.len() == i,
            forall|j: int| 0 <= j < i ==> #[trigger] out@[j]@ == (WordEntry { threshold: t as i64, ..w[j] }),
    {
        assert(w[i as int] == words@[i as int]@);
        out.push(WordRow {
            id: words[i].id,
            word: words[i].word.clone(),
            meaning: words[i].meaning.clone(),
            success_count: words[i].success_count,
            threshold: t as i64,
        });
    }
    assert(word_entries(out@) =~= with_threshold(w, t));
    out
}

/// The records that refer to a stored word, in order.
fn linked_records(kept: Vec<LearnedRow>, words: &Vec<WordRow>) -> (r: Vec<LearnedRow>)
    ensures
        learned_entries(r@) == retain(
            learned_entries(kept@),
            |x: LearnedEntry| row_has_id(word_entries(words@), x.word_id),
        ),
{
    let ghost ks = learned_entries(kept@);
    let ghost has = |x: LearnedEntry| row_has_id(word_entries(words@), x.word_id);
    let mut out: Vec<LearnedRow> = Vec::new();
    let n = kept.len();
    assert(learned_entries(out@) =~= retain(ks.take(0), has));
    for k in 0..n
        invariant
            n == kept@.len(),
            ks == learned_entries(kept@),
            has == (|x: LearnedEntry| row_has_id(word_entries(words@), x.word_id)),
            learned_entries(out@) == retain(ks.take(k as int), has),
    {
        let known = rows_have_id(words, kept[k].word_id);
        proof {
            assert(ks[k as int] == kept@[k as int]@);
            lemma_retain_take_succ(ks, has, k as int);
        }
        if known {
            let ghost before = out@;
            out.push(kept[k].duplicate());
            proof {
                assert(learned_entries(out@) =~= learned_entries(before).push(ks[k as int]));
            }
        }
    }
    proof {
        assert(ks.take(n as int) =~= ks);
    }
    out
}

/// Whether some word row has id `id`.
fn rows_have_id(words: &Vec<WordRow>, id: i64) -> (b: bool)
    ensures
        b == row_has_id(word_entries(words@), id),
{
    let ghost w = word_entries(words@);
    let n = words.len();
    for i in 0..n
        invariant
            n == words@.len(),
            w == word_entries(words@),
            forall|a: int| 0 <= a < i ==> #[trigger] w[a].id != id,
    {
        assert(w[i as int] == words@[i as int]@);
        if words[i].id == id {
            assert(w[i as int].id == id);
            return true;
        }
    }
    false
}

/// Checks that word rows have rising ids, distinct texts, and no more rows
/// than a 64-bit count reaches.
fn word_rows_acceptable(words: &Vec<WordRow>) -> (ok: bool)
    ensures
        ok == {
            let w = word_entries(words@);
            &&& forall|i: int, j: int| 0 <= i < j < w.len() ==> #[trigger] w[i].id < #[trigger] w[j].id
            &&& forall|i: int, j: int|
                0 <= i < w.len() && 0 <= j < w.len() && i != j ==> #[trigger] w[i].word != #[trigger] w[j].word
            &&& w.len() <= i64::MAX
        },
{
    let ghost w = word_entries(words@);
    let n = words.len();
    if n as u64 > 9223372036854775807u64 {
        return false;
    }
    for i in 0..n
        invariant
            n == words@.len(),
            w == word_entries(words@),
            n <= i64::MAX,
            forall|a: int, b: int| 0 <= a < b < i ==> #[trigger] w[a].id < #[trigger] w[b].id,
            forall|a: int, b: int| 0 <= a < i && 0 <= b < i && a != b ==> #[trigger] w[a].word != #[trigger] w[b].word,
    {
        if i > 0 && words[i - 1].id >= words[i].id {
            assert(!(w[i - 1].id < w[i as int].id));
            return false;
        }
        assert forall|a: int, b: int| 0 <= a < b < i + 1 implies #[trigger] w[a].id < #[trigger] w[b].id by {
            if b == i && a < i - 1 {
                assert(w[a].id < w[i - 1].id);
            }
        }
        for j in 0..i
            invariant
                n == words@.len(),
                i < n,
                w == word_entries(words@),
                forall|a: int| 0 <= a < j ==> w[a].word != w[i as int].word,
        {
            if same_text(words[j].word.as_str(), words[i].word.as_str()) {
                assert(w[j as int].word == w[i as int].word);
                return false;
            }
        }
    }
    true
}

/// Checks that learned rows have rising ids and no more rows than a 64-bit
/// count reaches.
fn learned_rows_acceptable(learned: &Vec<LearnedRow>) -> (ok: bool)
    ensures
        ok == {
            let l = learned_entries(learned@);
            &&& forall|i: int, j: int| 0 <= i < j < l.len() ==> #[trigger] l[i].id < #[trigger] l[j].id
            &&& l.len() <= i64::MAX
        },
{
    let ghost l = learned_entries(learned@);
    let n = learned.len();
    if n as u64 > 9223372036854775807u64 {
        return false;
    }
    for i in 0..n
        invariant
            n == learned@.len(),
            l == learned_entries(learned@),
            n <= i64::MAX,
            forall|a: int, b: int| 0 <= a < b < i ==> #[trigger] l[a].id < #[trigger] l[b].id,
    {
        if i > 0 && learned[i - 1].id >= learned[i].id {
            assert(!(l[i - 1].id < l[i as int].id));
            return false;
        }
        assert forall|a: int, b: int| 0 <= a < b < i + 1 implies #[trigger] l[a].id < #[trigger] l[b].id by {
            if b == i && a < i - 1 {
                assert(l[a].id < l[i - 1].id);
            }
        }
    }
    true
}

impl WordStore {
    /// Rebuilds a store from stored rows (words and learned records each in id
    /// order), the largest ids their tables have handed out, and the configured
    /// memory threshold. Every word takes that threshold, only the learned
    /// record with the smallest id is kept for each word, and learned records
    /// that refer to no stored word are dropped. Rows whose ids do not rise, or
    /// two words with the same text, are refused.
    pub fn restore(
        words: Vec<WordRow>,
        learned: Vec<LearnedRow>,
        word_seq: i64,
        learned_seq: i64,
        memory_threshold: i32,
    ) -> (r: Result<WordStore, StoreError>)
        ensures
            match r {
                Ok(st) => {
                    &&& rows_acceptable(word_entries(words@), learned_entries(learned@))
                    &&& st.wf()
                    &&& st@ == spec_restore(
                        word_entries(words@),
                        learned_entries(learned@),
                        word_seq,
                        learned_seq,
                        memory_threshold,
                    )
                },
                Err(e) => {
                    &&& e == StoreError::CorruptData
                    &&& !rows_acceptable(word_entries(words@), learned_entries(learned@))
                },
            },
    {
        let ghost w = word_entries(words@);
        let ghost l = learned_entries(learned@);
        if !word_rows_acceptable(&words) || !learned_rows_acceptable(&learned) {
            return Err(StoreError::CorruptData);
        }
        let ghost keep = |r: LearnedEntry| first_of_its_word(l, r);
        let mut kept: Vec<LearnedRow> = Vec::new();
        let n = learned.len();
        assert(learned_entries(kept@) =~= retain(l.take(0), keep));
        for k in 0..n
            invariant
                n == learned@.len(),
                l == learned_entries(learned@),
                keep == (|r: LearnedEntry| first_of_its_word(l, r)),
                forall|i: int, j: int| 0 <= i < j < l.len() ==> #[trigger] l[i].id < #[trigger] l[j].id,
                learned_entries(kept@) == retain(l.take(k as int), keep),
                forall|a: int| 0 <= a < kept@.len() ==> exists|j: int| 0 <= j < k && #[trigger] kept@[a]@ == l[j] && keep(l[j]),
                forall|a: int, b: int| 0 <= a < b < kept@.len() ==> #[trigger] kept@[a].id < #[trigger] kept@[b].id,
                forall|a: int, b: int| 0 <= a < kept@.len() && 0 <= b < kept@.len() && a != b ==> #[trigger] kept@[a].word_id != #[trigger] kept@[b].word_id,
        {
            let mut first = true;
            for j in 0..k
                invariant
                    n == learned@.len(),
                    k < n,
                    l == learned_entries(learned@),
                    first == forall|a: int| 0 <= a < j ==> l[a].word_id != l[k as int].word_id,
            {
                assert(l[j as int] == learned@[j as int]@ && l[k as int] == learned@[k as int]@);
                if learned[j].word_id == learned[k].word_id {
                    first = false;
                }
            }
            proof {
                assert(l[k as int] == learned@[k as int]@);
                lemma_retain_take_succ(l, keep, k as int);
                if first {
                    assert forall|j: int| 0 <= j < l.len() && #[trigger] l[j].word_id == l[k as int].word_id implies l[k as int].id <= l[j].id by {
                        if j < k {
                        } else if j > k {
                            assert(l[k as int].id < l[j].id);
                        }
                    }
                } else {
                    let a = choose|a: int| 0 <= a < k && l[a].word_id == l[k as int].word_id;
                    assert(l[a].id < l[k as int].id);
                    assert(!keep(l[k as int]));
                }
            }
            if first {
                let ghost before = kept@;
                kept.push(learned[k].duplicate());
                proof {
                    assert(learned_entries(kept@) =~= learned_entries(before).push(l[k as int]));
                    assert forall|a: int| 0 <= a < kept@.len() implies exists|j: int| 0 <= j < k + 1 && #[trigger] kept@[a]@ == l[j] && keep(l[j]) by {
                        if a < before.len() {
                            assert(kept@[a] == before[a]);
                        } else {
                            assert(kept@[a]@ == l[k as int]);
                        }
                    }
                    assert forall|a: int, b: int| 0 <= a < b < kept@.len() implies #[trigger] kept@[a].id < #[trigger] kept@[b].id by {
                        if b == kept@.len() - 1 {
                            let j = choose|j: int| 0 <= j < k && #[trigger] before[a]@ == l[j] && keep(l[j]);
                            assert(kept@[a] == before[a]);
                            assert(l[j].id < l[k as int].id);
                        } else {
                            assert(kept@[a] == before[a] && kept@[b] == before[b]);
                        }
                    }
                    assert forall|a: int, b: int| 0 <= a < kept@.len() && 0 <= b < kept@.len() && a != b implies #[trigger] kept@[a].word_id != #[trigger] kept@[b].word_id by {
                        if a < before.len() && b < before.len() {
                            assert(kept@[a] == before[a] && kept@[b] == before[b]);
                        } else if a < before.len() {
                            let j = choose|j: int| 0 <= j < k && #[trigger] before[a]@ == l[j] && keep(l[j]);
                            assert(kept@[a] == before[a]);
                        } else {
                            let j = choose|j: int| 0 <= j < k && #[trigger] before[b]@ == l[j] && keep(l[j]);
                            assert(kept@[b] == before[b]);
                        }
                    }
                }
            } else {
                proof {
                    assert forall|a: int| 0 <= a < kept@.len() implies exists|j: int| 0 <= j < k + 1 && #[trigger] kept@[a]@ == l[j] && keep(l[j]) by {
                        let j = choose|j: int| 0 <= j < k && #[trigger] kept@[a]@ == l[j] && keep(l[j]);
                    }
                }
            }
        }
        proof {
            assert(l.take(n as int) =~= l);
        }
        let last_word = if words.len() > 0 { words[words.len() - 1].id } else { 0 };
        let last_learned = if learned.len() > 0 { learned[learned.len() - 1].id } else { 0 };
        let ws = if word_seq >= last_word && word_seq >= 0 { word_seq } else if last_word >= 0 { last_word } else { 0 };
        let ls = if learned_seq >= last_learned && learned_seq >= 0 { learned_seq } else if last_learned >= 0 { last_learned } else { 0 };
        let ghost k1 = learned_entries(kept@);
        let ghost has = |x: LearnedEntry| row_has_id(w, x.word_id);
        proof {
            assert(k1 =~= retain(l, keep));
            assert forall|a: int| 0 <= a < k1.len() implies #[trigger] k1[a].id <= ls by {
                assert(k1[a] == kept@[a]@);
                let j = choose|j: int| 0 <= j < n && #[trigger] kept@[a]@ == l[j] && keep(l[j]);
                if j < l.len() - 1 {
                    assert(l[j].id < l[l.len() - 1].id);
                }
            }
            assert forall|a: int, b: int| 0 <= a < b < k1.len() implies (|x: LearnedEntry, y: LearnedEntry| x.id < y.id)(#[trigger] k1[a], #[trigger] k1[b]) by {
                assert(k1[a] == kept@[a]@ && k1[b] == kept@[b]@);
            }
            assert forall|a: int, b: int| 0 <= a < b < k1.len() implies (|x: LearnedEntry, y: LearnedEntry| x.word_id != y.word_id)(#[trigger] k1[a], #[trigger] k1[b]) by {
                assert(k1[a] == kept@[a]@ && k1[b] == kept@[b]@);
            }
            lemma_retain_ordered(k1, has, |x: LearnedEntry, y: LearnedEntry| x.id < y.id);
            lemma_retain_ordered(k1, has, |x: LearnedEntry, y: LearnedEntry| x.word_id != y.word_id);
            lemma_retain_subset(k1, has);
            lemma_retain_subset(l, keep);
            assert(retain(k1, has).len() <= l.len());
        }
        let linked = linked_records(kept, &words);
        let rows = rows_with_threshold(&words, memory_threshold);
        let st = WordStore { words: rows, learned: linked, word_seq: ws, learned_seq: ls, memory_threshold };
        proof {
            let v = st@;
            let t = retain(k1, has);
            assert(v.words =~= with_threshold(w, memory_threshold));
            assert(v.learned =~= t);
            assert(v == spec_restore(w, l, word_seq, learned_seq, memory_threshold));
            assert forall|i: int| 0 <= i < v.words.len() implies #[trigger] v.words[i].id <= v.word_seq && v.words[i].threshold == v.memory_threshold by {
                assert(v.words[i].id == w[i].id);
                if i < v.words.len() - 1 {
                    assert(w[i].id < w[w.len() - 1].id);
                }
            }
            assert forall|i: int, j: int| 0 <= i < j < v.words.len() implies #[trigger] v.words[i].id < #[trigger] v.words[j].id by {
                assert(v.words[i].id == w[i].id && v.words[j].id == w[j].id);
            }
            assert forall|i: int, j: int| 0 <= i < v.words.len() && 0 <= j < v.words.len() && i != j implies #[trigger] v.words[i].word != #[trigger] v.words[j].word by {
                assert(v.words[i].word == w[i].word && v.words[j].word == w[j].word);
            }
            assert forall|i: int| 0 <= i < v.learned.len() implies #[trigger] v.learned[i].id <= v.learned_seq by {
                let j = choose|j: int| 0 <= j < k1.len() && k1[j] == #[trigger] t[i] && has(k1[j]);
            }
            assert forall|a: int, b: int| 0 <= a < b < v.learned.len() implies #[trigger] v.learned[a].id < #[trigger] v.learned[b].id by {
                assert((|x: LearnedEntry, y: LearnedEntry| x.id < y.id)(t[a], t[b]));
            }
            assert forall|a: int, b: int| 0 <= a < v.learned.len() && 0 <= b < v.learned.len() && a != b implies #[trigger] v.learned[a].word_id != #[trigger] v.learned[b].word_id by {
                if a < b {
                    assert((|x: LearnedEntry, y: LearnedEntry| x.word_id != y.word_id)(t[a], t[b]));
                } else {
                    assert((|x: LearnedEntry, y: LearnedEntry| x.word_id != y.word_id)(t[b], t[a]));
                }
            }
            assert forall|a: int| 0 <= a < v.learned.len() implies has_id(v, #[trigger] v.learned[a].word_id) by {
                let j = choose|j: int| 0 <= j < k1.len() && k1[j] == #[trigger] t[a] && has(k1[j]);
                let q = choose|q: int| 0 <= q < w.len() && #[trigger] w[q].id == k1[j].word_id;
                assert(v.words[q].id == w[q].id);
            }
        }
        Ok(st)
    }

    /// The word rows, in id order.
    pub fn word_rows(&self) -> (r: Vec<WordRow>)
        ensures
            word_entries(r@) == self@.words,
    {
        proof { self.lemma_view_index(); }
        let mut out: Vec<WordRow> = Vec::new();
        let n = self.words.len();
        for i in 0..n
            invariant
                n == self.words@.len(),
                self@.words.len() == n,
                forall|j: int| 0 <= j < n ==> #[trigger] self@.words[j] == self.words@[j]@,
                word_entries(out@) == self@.words.take(i as int),
        {
            let ghost before = out@;
            out.push(self.words[i].duplicate());
            assert(word_entries(out@) =~= word_entries(before).push(self@.words[i as int]));
            assert(word_entries(out@) =~= self@.words.take(i + 1));
        }
        assert(self@.words.take(n as int) =~= self@.words);
        out
    }

    /// The learned records, in id order.
    pub fn learned_rows(&self) -> (r: Vec<LearnedRow>)
        ensures
            learned_entries(r@) == self@.learned,
    {
        proof { self.lemma_view_index(); }
        let mut out: Vec<LearnedRow> = Vec::new();
        let n = self.learned.len();
        for i in 0..n
            invariant
                n == self.learned@.len(),
                self@.learned.len() == n,
                forall|j: int| 0 <= j < n ==> #[trigger] self@.learned[j] == self.learned@[j]@,
                learned_entries(out@) == self@.learned.take(i as int),
        {
            let ghost before = out@;
            out.push(self.learned[i].duplicate());
            assert(learned_entries(out@) =~= learned_entries(before).push(self@.learned[i as int]));
            assert(learned_entries(out@) =~= self@.learned.take(i + 1));
        }
        assert(self@.learned.take(n as int) =~= self@.learned);
        out
    }

    /// The largest id the words table has handed out.
    pub fn word_sequence(&self) -> (r: i64)
        ensures
            r == self@.word_seq,
    {
        self.word_seq
    }

    /// The largest id the learned table has handed out.
    pub fn learned_sequence(&self) -> (r: i64)
        ensures
            r == self@.learned_seq,
    {
        self.learned_seq
    }

    /// The configured memory threshold.
    pub fn memory_threshold(&self) -> (r: i32)
        ensures
            r == self@.memory_threshold,
    {
        self.memory_threshold
    }

    /// Configures the memory threshold: every word, present and future, is
    /// learned once its success counter reaches `t`.
    pub fn set_memory_threshold(&mut self, t: i32)
        requires
            old(self).wf(),
        ensures
            final(self).wf(),
            final(self)@ == spec_set_memory_threshold(old(self)@, t),
    {
        let ghost s = self@;
        let rows = rows_with_threshold(&self.words, t);
        self.words = rows;
        self.memory_threshold = t;
        proof {
            let v = self@;
            assert(v.words =~= with_threshold(s.words, t));
            assert forall|i: int| 0 <= i < v.words.len() implies #[trigger] v.words[i].id <= v.word_seq && v.words[i].threshold == v.memory_threshold by {
                assert(v.words[i].id == s.words[i].id);
            }
            assert forall|i: int, j: int| 0 <= i < j < v.words.len() implies #[trigger] v.words[i].id < #[trigger] v.words[j].id by {
                assert(v.words[i].id == s.words[i].id && v.words[j].id == s.words[j].id);
            }
            assert forall|i: int, j: int| 0 <= i < v.words.len() && 0 <= j < v.words.len() && i != j implies #[trigger] v.words[i].word != #[trigger] v.words[j].word by {
                assert(v.words[i].word == s.words[i].word && v.words[j].word == s.words[j].word);
            }
            assert forall|k: int| 0 <= k < v.learned.len() implies has_id(v, #[trigger] v.learned[k].word_id) by {
                let j = choose|j: int| 0 <= j < s.words.len() && #[trigger] s.words[j].id == s.learned[k].word_id;
                assert(v.words[j].id == s.words[j].id);
            }
        }
    }
}

/// Reads a row back as a word.
pub fn read_row(r: &WordRow) -> (res: Result<Word, StoreError>)
    ensures
        result_view(res) == entry_read(r@),
{
    if r.success_count < i32::MIN as i64 || r.success_count > i32::MAX as i64 {
        Err(StoreError::ValueOutOfRange { column: 3, value: r.success_count })
    } else if r.threshold < i32::MIN as i64 || r.threshold > i32::MAX as i64 {
        Err(StoreError::ValueOutOfRange { column: 4, value: r.threshold })
    } else {
        Ok(
            Word {
                id: r.id,
                word: r.word.clone(),
                meaning: r.meaning.clone(),
                success_count: r.success_count as i32,
                threshold: r.threshold as i32,
            },
        )
    }
}

} // verus!
