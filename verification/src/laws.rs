//! Properties of the store that span several operations.

use vstd::prelude::*;
use vstd::seq_lib::to_multiset_build;
use crate::word::{WordView, WordEntry, LearnedEntry};
use crate::arrange::sorted_by_text;
use crate::text::{lemma_text_less_total, text_less, is_white_space, lines, lemma_field_end_at, trim, trim_quotes};
use crate::import::{ImportFormat, separator, line_pair, text_pairs, pairs_of_lines, is_header};
use crate::store::{
    StoreState, store_rules, has_text, has_id, has_learned, entry_word, entry_of, all_words,
    learned_words, unlearned_words, insert_or_ignore, insert_all, spec_add_word, spec_mark_remembered,
    spec_delete_word, spec_reset_progress, spec_restore, spec_set_memory_threshold, spec_import_pairs, rows_acceptable, row_has_id, words_full, with_threshold, retain, first_of_its_word, set_count,
    lemma_retain_all, lemma_retain_subset, lemma_retain_ordered, lemma_selected_keys,
};

verus! {

proof fn lemma_partition_prefix(s: StoreState, i: int)
    requires
        0 <= i <= s.words.len(),
    ensures
        s.words.take(i).filter_map(|e: WordEntry| entry_word(e)).to_multiset() == s.words.take(i).filter_map(
            |e: WordEntry| if has_learned(s, e.id) { entry_word(e) } else { None },
        ).to_multiset().add(
            s.words.take(i).filter_map(|e: WordEntry| if has_learned(s, e.id) { None } else { entry_word(e) }).to_multiset(),
        ),
    decreases i,
{
    broadcast use vstd::multiset::group_multiset_axioms;
    let fa = |e: WordEntry| entry_word(e);
    let fl = |e: WordEntry| if has_learned(s, e.id) { entry_word(e) } else { None };
    let fu = |e: WordEntry| if has_learned(s, e.id) { None } else { entry_word(e) };
    if i == 0 {
        assert(s.words.take(0) =~= Seq::<WordEntry>::empty());
        assert(s.words.take(0).filter_map(fa) =~= Seq::<WordView>::empty());
        assert(s.words.take(0).filter_map(fl) =~= Seq::<WordView>::empty());
        assert(s.words.take(0).filter_map(fu) =~= Seq::<WordView>::empty());
        assert(Seq::<WordView>::empty().to_multiset() =~= vstd::multiset::Multiset::empty()) by {
            broadcast use vstd::seq_lib::group_to_multiset_ensures;
        }
    } else {
        let j = i - 1;
        lemma_partition_prefix(s, j);
        s.words.lemma_filter_map_take_succ(fa, j);
        s.words.lemma_filter_map_take_succ(fl, j);
        s.words.lemma_filter_map_take_succ(fu, j);
        match entry_word(s.words[j]) {
            Some(w) => {
                to_multiset_build(s.words.take(j).filter_map(fa), w);
                assert(s.words.take(j).filter_map(fa).push(w) =~= s.words.take(j).filter_map(fa) + seq![w]);
                if has_learned(s, s.words[j].id) {
                    to_multiset_build(s.words.take(j).filter_map(fl), w);
                    assert(s.words.take(j).filter_map(fl).push(w) =~= s.words.take(j).filter_map(fl) + seq![w]);
                    assert(s.words.take(i).filter_map(fu) =~= s.words.take(j).filter_map(fu));
                } else {
                    to_multiset_build(s.words.take(j).filter_map(fu), w);
                    assert(s.words.take(j).filter_map(fu).push(w) =~= s.words.take(j).filter_map(fu) + seq![w]);
                    assert(s.words.take(i).filter_map(fl) =~= s.words.take(j).filter_map(fl));
                }
                assert(s.words.take(i).filter_map(fa).to_multiset() =~= s.words.take(i).filter_map(fl).to_multiset().add(
                    s.words.take(i).filter_map(fu).to_multiset()));
            },
            None => {
                assert(s.words.take(i).filter_map(fa) =~= s.words.take(j).filter_map(fa));
                assert(s.words.take(i).filter_map(fl) =~= s.words.take(j).filter_map(fl));
                assert(s.words.take(i).filter_map(fu) =~= s.words.take(j).filter_map(fu));
            },
        }
    }
}

/// Every readable word is listed either as learned or as still to learn,
/// never both: the full list is the two lists together.
pub proof fn law_lists_partition(s: StoreState)
    ensures
        all_words(s).to_multiset() == learned_words(s).to_multiset().add(unlearned_words(s).to_multiset()),
{
    lemma_partition_prefix(s, s.words.len() as int);
    assert(s.words.take(s.words.len() as int) =~= s.words);
}

/// Adding a word whose text is already present changes nothing and gives
/// back the stored word, whatever meaning comes with it: a second add of the
/// same text after a successful one leaves the store as the first left it and
/// returns the same word.
pub proof fn law_add_word_idempotent(s: StoreState, w: Seq<char>, m1: Seq<char>, m2: Seq<char>)
    requires
        store_rules(s),
        spec_add_word(s, w, m1).1 is Ok,
    ensures
        spec_add_word(spec_add_word(s, w, m1).0, w, m2) == spec_add_word(s, w, m1),
{
    let s1 = spec_add_word(s, w, m1).0;
    if has_text(s, w) {
        let i = choose|i: int| 0 <= i < s.words.len() && s.words[i].word == w;
        assert(s1 == s);
    } else {
        let k = s1.words.len() - 1;
        assert(s1.words[k].word == w);
        let i = choose|i: int| 0 <= i < s1.words.len() && s1.words[i].word == w;
        if i != k {
            assert(s1.words[i] == s.words[i]);
            assert(has_text(s, w));
        }
    }
}

proof fn lemma_insert_keeps(s: StoreState, w: Seq<char>, m: Seq<char>)
    ensures
        insert_or_ignore(s, w, m).words.take(s.words.len() as int) == s.words,
        insert_or_ignore(s, w, m).words.len() >= s.words.len(),
        insert_or_ignore(s, w, m).word_seq >= s.word_seq,
        has_text(insert_or_ignore(s, w, m), w) || words_full(insert_or_ignore(s, w, m)),
        forall|t: Seq<char>| has_text(s, t) ==> has_text(insert_or_ignore(s, w, m), t),
        words_full(s) ==> insert_or_ignore(s, w, m) == s,
        insert_or_ignore(s, w, m).learned == s.learned,
{
    let s1 = insert_or_ignore(s, w, m);
    assert(s1.words.take(s.words.len() as int) =~= s.words);
    if !(has_text(s, w) || words_full(s)) {
        assert(s1.words[s1.words.len() - 1].word == w);
        assert forall|t: Seq<char>| has_text(s, t) implies has_text(s1, t) by {
            let i = choose|i: int| 0 <= i < s.words.len() && s.words[i].word == t;
            assert(s1.words[i] == s.words[i]);
        }
    }
}

/// Importing never changes a word row that was there before, nor any
/// learned record: the rows before are the first rows after.
pub proof fn law_import_keeps_rows(s: StoreState, ps: Seq<(Seq<char>, Seq<char>)>)
    ensures
        insert_all(s, ps).words.len() >= s.words.len(),
        insert_all(s, ps).words.take(s.words.len() as int) == s.words,
        insert_all(s, ps).learned == s.learned,
    decreases ps.len(),
{
    if ps.len() > 0 {
        let s1 = insert_or_ignore(s, ps[0].0, ps[0].1);
        lemma_insert_keeps(s, ps[0].0, ps[0].1);
        law_import_keeps_rows(s1, ps.drop_first());
        let s2 = insert_all(s1, ps.drop_first());
        assert(s2.words.take(s.words.len() as int) =~= s2.words.take(s1.words.len() as int).take(s.words.len() as int));
    }
}

proof fn lemma_insert_all_grows(s: StoreState, ps: Seq<(Seq<char>, Seq<char>)>)
    ensures
        forall|t: Seq<char>| has_text(s, t) ==> has_text(insert_all(s, ps), t),
        insert_all(s, ps).word_seq >= s.word_seq,
        words_full(s) ==> insert_all(s, ps) == s,
    decreases ps.len(),
{
    if ps.len() > 0 {
        let s1 = insert_or_ignore(s, ps[0].0, ps[0].1);
        lemma_insert_keeps(s, ps[0].0, ps[0].1);
        lemma_insert_all_grows(s1, ps.drop_first());
    }
}

/// After an import every imported word is present, unless the store ran out
/// of ids on the way.
pub proof fn law_import_adds_every_word(s: StoreState, ps: Seq<(Seq<char>, Seq<char>)>)
    ensures
        forall|k: int|
            0 <= k < ps.len() ==> has_text(insert_all(s, ps), #[trigger] ps[k].0) || words_full(insert_all(s, ps)),
    decreases ps.len(),
{
    if ps.len() > 0 {
        let s1 = insert_or_ignore(s, ps[0].0, ps[0].1);
        let rest = ps.drop_first();
        lemma_insert_keeps(s, ps[0].0, ps[0].1);
        law_import_adds_every_word(s1, rest);
        lemma_insert_all_grows(s1, rest);
        assert forall|k: int| 0 <= k < ps.len() implies has_text(insert_all(s, ps), #[trigger] ps[k].0)
            || words_full(insert_all(s, ps)) by {
            if k > 0 {
                assert(ps[k] == rest[k - 1]);
            } else {
                if words_full(s1) {
                    assert(insert_all(s1, rest) == s1);
                }
            }
        }
    }
}

proof fn lemma_insert_all_no_change(t: StoreState, ps: Seq<(Seq<char>, Seq<char>)>)
    requires
        forall|k: int| 0 <= k < ps.len() ==> has_text(t, #[trigger] ps[k].0) || words_full(t),
    ensures
        insert_all(t, ps) == t,
    decreases ps.len(),
{
    if ps.len() > 0 {
        assert(has_text(t, ps[0].0) || words_full(t));
        assert(insert_or_ignore(t, ps[0].0, ps[0].1) == t);
        assert forall|k: int| 0 <= k < ps.drop_first().len() implies has_text(t, #[trigger] ps.drop_first()[k].0)
            || words_full(t) by {
            assert(ps.drop_first()[k] == ps[k + 1]);
        }
        lemma_insert_all_no_change(t, ps.drop_first());
    }
}

/// Importing the same entries a second time changes nothing.
pub proof fn law_import_idempotent(s: StoreState, ps: Seq<(Seq<char>, Seq<char>)>)
    ensures
        insert_all(insert_all(s, ps), ps) == insert_all(s, ps),
{
    law_import_adds_every_word(s, ps);
    lemma_insert_all_no_change(insert_all(s, ps), ps);
}

/// Marking a word remembered raises its success counter by exactly one when
/// it succeeds, and a word whose counter reaches the configured memory
/// threshold is learned afterwards: it leaves the list of words to learn and,
/// when readable, enters the list of learned words.
pub proof fn law_threshold_moves_word(s: StoreState, id: i64, now: Seq<char>)
    requires
        store_rules(s),
        spec_mark_remembered(s, id, now).1 is Ok,
    ensures
        has_id(spec_mark_remembered(s, id, now).0, id),
        entry_of(spec_mark_remembered(s, id, now).0, id).success_count == entry_of(s, id).success_count + 1,
        entry_of(spec_mark_remembered(s, id, now).0, id).success_count >= s.memory_threshold
            ==> has_learned(spec_mark_remembered(s, id, now).0, id),
        has_learned(s, id) ==> has_learned(spec_mark_remembered(s, id, now).0, id),
        forall|w: WordView|
            #![trigger unlearned_words(spec_mark_remembered(s, id, now).0).contains(w)]
            w.id == id && entry_of(spec_mark_remembered(s, id, now).0, id).success_count >= s.memory_threshold
                ==> !unlearned_words(spec_mark_remembered(s, id, now).0).contains(w),
        entry_of(spec_mark_remembered(s, id, now).0, id).success_count >= s.memory_threshold
            && entry_word(entry_of(spec_mark_remembered(s, id, now).0, id)) is Some
            ==> learned_words(spec_mark_remembered(s, id, now).0).contains(
                entry_word(entry_of(spec_mark_remembered(s, id, now).0, id))->0,
            ),
{
    let i = choose|i: int| 0 <= i < s.words.len() && s.words[i].id == id;
    let e = entry_of(s, id);
    let c = (e.success_count + 1) as i64;
    let t = spec_mark_remembered(s, id, now).0;
    assert(e == s.words[i]);
    assert(e.threshold == s.memory_threshold);
    assert forall|j: int| 0 <= j < s.words.len() && j != i implies (#[trigger] s.words[j]).id != id by {
        if j < i {
            assert(s.words[j].id < s.words[i].id);
        } else {
            assert(s.words[i].id < s.words[j].id);
        }
    }
    assert(e == s.words[i]);
    assert(t.words[i].id == id);
    let k = choose|k: int| 0 <= k < t.words.len() && t.words[k].id == id;
    assert(k == i) by {
        if k != i {
            assert(t.words[k].id == s.words[k].id);
        }
    }
    assert(entry_of(t, id) == t.words[i]);
    if has_learned(s, id) {
        let j = choose|j: int| 0 <= j < s.learned.len() && s.learned[j].word_id == id;
        assert(t.learned[j] == s.learned[j]);
    }
    if c >= e.threshold && !has_learned(s, id) {
        assert(t.learned[t.learned.len() - 1].word_id == id);
    }
    assert forall|w: WordView|
        #![trigger unlearned_words(t).contains(w)]
        w.id == id && entry_of(t, id).success_count >= e.threshold implies !unlearned_words(t).contains(w) by {
        if unlearned_words(t).contains(w) {
            let fu = |x: WordEntry| if has_learned(t, x.id) { None } else { entry_word(x) };
            t.words.lemma_filter_map_contains(fu, w);
            let j = choose|j: int| 0 <= j < t.words.len() && fu(t.words[j]) == Some(w);
            assert(t.words[j].id == w.id);
        }
    }
    if c >= s.memory_threshold && entry_word(t.words[i]) is Some {
        let fl = |x: WordEntry| if has_learned(t, x.id) { entry_word(x) } else { None };
        lemma_filter_map_includes(t.words, fl, i);
    }
}

/// The value an element maps to is in the `filter_map` of the sequence.
proof fn lemma_filter_map_includes<A, B>(ws: Seq<A>, f: spec_fn(A) -> Option<B>, i: int)
    requires
        0 <= i < ws.len(),
        f(ws[i]) is Some,
    ensures
        ws.filter_map(f).contains(f(ws[i])->0),
    decreases ws.len(),
{
    let r = ws.drop_last().filter_map(f);
    if i == ws.len() - 1 {
        assert(ws.filter_map(f) == r + seq![f(ws[i])->0]);
        assert((r + seq![f(ws[i])->0])[r.len() as int] == f(ws[i])->0);
    } else {
        assert(ws.drop_last()[i] == ws[i]);
        lemma_filter_map_includes(ws.drop_last(), f, i);
        let k = choose|k: int| 0 <= k < r.len() && r[k] == f(ws[i])->0;
        match f(ws.last()) {
            Some(b) => {
                assert((r + seq![b])[k] == r[k]);
            },
            None => {},
        }
    }
}

/// Forgetting a word sets its success counter to zero and leaves everything
/// else as it was, learned records included.
pub proof fn law_forget_keeps_learned(s: StoreState, id: i64)
    ensures
        (StoreState { words: set_count(s.words, id, 0), ..s }).learned == s.learned,
        forall|i: int| 0 <= i < s.words.len() && s.words[i].id == id ==> (#[trigger] set_count(s.words, id, 0)[i]).success_count == 0,
        forall|i: int| 0 <= i < s.words.len() && s.words[i].id != id ==> #[trigger] set_count(s.words, id, 0)[i] == s.words[i],
{
}

/// Deleting a word leaves neither its row nor a learned record for it, and
/// keeps every other row and record.
pub proof fn law_delete_cleans_up(s: StoreState, id: i64)
    ensures
        !has_id(spec_delete_word(s, id), id),
        !has_learned(spec_delete_word(s, id), id),
        forall|i: int| 0 <= i < s.words.len() && s.words[i].id != id ==> spec_delete_word(s, id).words.contains(#[trigger] s.words[i]),
        forall|k: int| 0 <= k < s.learned.len() && s.learned[k].word_id != id ==> spec_delete_word(s, id).learned.contains(#[trigger] s.learned[k]),
{
    let t = spec_delete_word(s, id);
    let kw = |e: WordEntry| e.id != id;
    let kl = |r: LearnedEntry| r.word_id != id;
    lemma_retain_subset(s.words, kw);
    lemma_retain_subset(s.learned, kl);
    lemma_retain_contains(s.words, kw);
    lemma_retain_contains(s.learned, kl);
    if has_id(t, id) {
        let i = choose|i: int| 0 <= i < t.words.len() && t.words[i].id == id;
        let j = choose|j: int| 0 <= j < s.words.len() && s.words[j] == t.words[i] && kw(s.words[j]);
    }
    if has_learned(t, id) {
        let i = choose|i: int| 0 <= i < t.learned.len() && t.learned[i].word_id == id;
        let j = choose|j: int| 0 <= j < s.learned.len() && s.learned[j] == t.learned[i] && kl(s.learned[j]);
    }
}

proof fn lemma_retain_contains<A>(s: Seq<A>, keep: spec_fn(A) -> bool)
    ensures
        forall|j: int| 0 <= j < s.len() && keep(s[j]) ==> retain(s, keep).contains(#[trigger] s[j]),
    decreases s.len(),
{
    if s.len() > 0 {
        lemma_retain_contains(s.drop_last(), keep);
        assert forall|j: int| 0 <= j < s.len() && keep(s[j]) implies retain(s, keep).contains(#[trigger] s[j]) by {
            if j < s.len() - 1 {
                assert(s[j] == s.drop_last()[j]);
                let r = retain(s.drop_last(), keep);
                let k = choose|k: int| 0 <= k < r.len() && r[k] == s[j];
                if keep(s.last()) {
                    assert(retain(s, keep)[k] == r[k]);
                }
            } else {
                assert(retain(s, keep)[retain(s, keep).len() - 1] == s[j]);
            }
        }
    }
}

/// After a reset no word is learned, every counter is zero, and every
/// readable word is to be learned again.
pub proof fn law_reset_relearns_all(s: StoreState)
    ensures
        spec_reset_progress(s).learned.len() == 0,
        forall|i: int| 0 <= i < spec_reset_progress(s).words.len() ==> (#[trigger] spec_reset_progress(s).words[i]).success_count == 0,
        unlearned_words(spec_reset_progress(s)) == all_words(spec_reset_progress(s)),
        learned_words(spec_reset_progress(s)).len() == 0,
{
    let t = spec_reset_progress(s);
    let fa = |e: WordEntry| entry_word(e);
    let fl = |e: WordEntry| if has_learned(t, e.id) { entry_word(e) } else { None };
    let fu = |e: WordEntry| if has_learned(t, e.id) { None } else { entry_word(e) };
    assert forall|e: WordEntry| #[trigger] fu(e) == fa(e) by {}
    assert forall|e: WordEntry| #[trigger] fl(e) == None::<WordView> by {}
    assert(fu =~= fa);
    lemma_filter_map_none(t.words, fl);
}

proof fn lemma_filter_map_none<A, B>(s: Seq<A>, f: spec_fn(A) -> Option<B>)
    requires
        forall|a: A| #[trigger] f(a) == None::<B>,
    ensures
        s.filter_map(f).len() == 0,
    decreases s.len(),
{
    if s.len() > 0 {
        lemma_filter_map_none(s.drop_last(), f);
    }
}

/// Rebuilding a store from its own rows and sequences is accepted and gives
/// the same store: what is written out reads back unchanged.
pub proof fn law_restore_round_trip(s: StoreState)
    requires
        store_rules(s),
    ensures
        rows_acceptable(s.words, s.learned),
        spec_restore(s.words, s.learned, s.word_seq, s.learned_seq, s.memory_threshold) == s,
{
    let keep = |r: LearnedEntry| first_of_its_word(s.learned, r);
    let has = |r: LearnedEntry| row_has_id(s.words, r.word_id);
    assert forall|k: int| 0 <= k < s.learned.len() implies keep(#[trigger] s.learned[k]) && has(s.learned[k]) by {
        assert(has_id(s, s.learned[k].word_id));
        assert forall|j: int| 0 <= j < s.learned.len() && #[trigger] s.learned[j].word_id == s.learned[k].word_id implies s.learned[k].id <= s.learned[j].id by {
            if j != k {
                assert(s.learned[j].word_id != s.learned[k].word_id);
            }
        }
    }
    lemma_retain_all(s.learned, keep);
    lemma_retain_all(s.learned, has);
    assert forall|i: int| 0 <= i < s.words.len() implies #[trigger] with_threshold(s.words, s.memory_threshold)[i] == s.words[i] by {
        assert(s.words[i].threshold == s.memory_threshold);
    }
    assert(with_threshold(s.words, s.memory_threshold) =~= s.words);
    if s.words.len() > 0 {
        assert(s.words[s.words.len() - 1].id <= s.word_seq);
    }
    if s.learned.len() > 0 {
        assert(s.learned[s.learned.len() - 1].id <= s.learned_seq);
    }
}

/// A list ordered by text in which no two words share a text is fixed by
/// the words it holds: the listings ordered by text name one list each.
pub proof fn law_listing_determined(a: Seq<WordView>, b: Seq<WordView>)
    requires
        sorted_by_text(a),
        sorted_by_text(b),
        a.to_multiset() == b.to_multiset(),
        forall|i: int, j: int| 0 <= i < a.len() && 0 <= j < a.len() && i != j ==> #[trigger] a[i].word != #[trigger] a[j].word,
    ensures
        a == b,
    decreases a.len(),
{
    broadcast use vstd::seq_lib::group_to_multiset_ensures;
    assert(a.len() == a.to_multiset().len());
    assert(b.len() == b.to_multiset().len());
    if a.len() == 0 {
        assert(a =~= b);
    } else {
        assert(a.to_multiset().count(a[0]) > 0);
        assert(b.contains(a[0]));
        let k = choose|k: int| 0 <= k < b.len() && b[k] == a[0];
        assert(b.to_multiset().count(b[0]) > 0);
        assert(a.contains(b[0]));
        let m = choose|m: int| 0 <= m < a.len() && a[m] == b[0];
        if k > 0 {
            assert(crate::text::text_le(b[0].word, b[k].word));
        }
        if m > 0 {
            assert(crate::text::text_le(a[0].word, a[m].word));
        }
        if a[0].word != b[0].word {
            lemma_text_less_total(a[0].word, b[0].word);
        }
        assert(m == 0);
        assert(a[0] == b[0]);
        let a1 = a.remove(0);
        let b1 = b.remove(0);
        assert(a1.to_multiset() == a.to_multiset().remove(a[0]));
        assert(b1.to_multiset() == b.to_multiset().remove(b[0]));
        assert forall|i: int, j: int| 0 <= i < j < a1.len() implies crate::text::text_le(#[trigger] a1[i].word, #[trigger] a1[j].word) by {
            assert(a1[i] == a[i + 1] && a1[j] == a[j + 1]);
        }
        assert forall|i: int, j: int| 0 <= i < j < b1.len() implies crate::text::text_le(#[trigger] b1[i].word, #[trigger] b1[j].word) by {
            assert(b1[i] == b[i + 1] && b1[j] == b[j + 1]);
        }
        assert forall|i: int, j: int| 0 <= i < a1.len() && 0 <= j < a1.len() && i != j implies #[trigger] a1[i].word != #[trigger] a1[j].word by {
            assert(a1[i] == a[i + 1] && a1[j] == a[j + 1]);
        }
        law_listing_determined(a1, b1);
        assert(a =~= b) by {
            assert forall|i: int| 0 <= i < a.len() implies a[i] == b[i] by {
                if i > 0 {
                    assert(a[i] == a1[i - 1] && b[i] == b1[i - 1]);
                }
            }
        }
    }
}

/// The words of every listing have distinct texts, so each listing ordered
/// by text is a single list (see [`law_listing_determined`]).
pub proof fn law_listed_texts_distinct(s: StoreState)
    requires
        store_rules(s),
    ensures
        forall|a: int, b: int| 0 <= a < all_words(s).len() && 0 <= b < all_words(s).len() && a != b
            ==> #[trigger] all_words(s)[a].word != #[trigger] all_words(s)[b].word,
        forall|a: int, b: int| 0 <= a < learned_words(s).len() && 0 <= b < learned_words(s).len() && a != b
            ==> #[trigger] learned_words(s)[a].word != #[trigger] learned_words(s)[b].word,
        forall|a: int, b: int| 0 <= a < unlearned_words(s).len() && 0 <= b < unlearned_words(s).len() && a != b
            ==> #[trigger] unlearned_words(s)[a].word != #[trigger] unlearned_words(s)[b].word,
{
    let n = s.words.len() as int;
    assert(s.words.take(n) =~= s.words);
    let tw = |e: WordEntry| e.word;
    let tv = |w: WordView| w.word;
    lemma_selected_keys(s.words, |e: WordEntry| entry_word(e), tw, tv, n);
    lemma_selected_keys(s.words, |e: WordEntry| if has_learned(s, e.id) { entry_word(e) } else { None }, tw, tv, n);
    lemma_selected_keys(s.words, |e: WordEntry| if has_learned(s, e.id) { None } else { entry_word(e) }, tw, tv, n);
}

proof fn lemma_filter_map_all_some<A, B>(ws: Seq<A>, f: spec_fn(A) -> Option<B>)
    requires
        forall|i: int| 0 <= i < ws.len() ==> f(#[trigger] ws[i]) is Some,
    ensures
        ws.filter_map(f).len() == ws.len(),
    decreases ws.len(),
{
    if ws.len() > 0 {
        assert forall|i: int| 0 <= i < ws.drop_last().len() implies f(#[trigger] ws.drop_last()[i]) is Some by {
            assert(ws.drop_last()[i] == ws[i]);
        }
        lemma_filter_map_all_some(ws.drop_last(), f);
        assert(f(ws[ws.len() - 1]) is Some);
    }
}

/// When every word row reads as a word, the counts of the statistics are the
/// lengths of the listings:
/// the total is the number of listed words, the learned count the number of
/// listed learned words, and no more words are learned than stored.
pub proof fn law_stats_match_listings(s: StoreState)
    requires
        store_rules(s),
        forall|i: int| 0 <= i < s.words.len() ==> entry_word(#[trigger] s.words[i]) is Some,
    ensures
        all_words(s).len() == s.words.len(),
        learned_words(s).len() == s.learned.len(),
        s.learned.len() <= s.words.len(),
{
    let fa = |e: WordEntry| entry_word(e);
    let fl = |e: WordEntry| if has_learned(s, e.id) { entry_word(e) } else { None };
    lemma_filter_map_all_some(s.words, fa);
    let lw = learned_words(s);
    let n = s.words.len() as int;
    assert(s.words.take(n) =~= s.words);
    assert forall|p: int, q: int| 0 <= p < s.words.len() && 0 <= q < s.words.len() && p != q implies #[trigger] s.words[p].id != #[trigger] s.words[q].id by {
        if p < q {
            assert(s.words[p].id < s.words[q].id);
        } else {
            assert(s.words[q].id < s.words[p].id);
        }
    }
    lemma_selected_keys(s.words, fl, |e: WordEntry| e.id, |w: WordView| w.id, n);
    let a = lw.map_values(|w: WordView| w.id);
    let b = s.learned.map_values(|l: LearnedEntry| l.word_id);
    assert forall|i: int, j: int| 0 <= i < a.len() && 0 <= j < a.len() && i != j implies a[i] != a[j] by {
        assert(lw[i].id != lw[j].id);
    }
    assert forall|i: int, j: int| 0 <= i < b.len() && 0 <= j < b.len() && i != j implies b[i] != b[j] by {
        assert(s.learned[i].word_id != s.learned[j].word_id);
    }
    assert(a.no_duplicates());
    assert(b.no_duplicates());
    a.unique_seq_to_set();
    b.unique_seq_to_set();
    assert forall|x: i64| a.to_set().contains(x) implies b.to_set().contains(x) by {
        let i = choose|i: int| 0 <= i < a.len() && a[i] == x;
        assert(lw.contains(lw[i]));
        s.words.lemma_filter_map_contains(fl, lw[i]);
        let e = choose|e: WordEntry| #[trigger] s.words.contains(e) && fl(e) == Some(lw[i]);
        assert(has_learned(s, e.id));
        let k = choose|k: int| 0 <= k < s.learned.len() && s.learned[k].word_id == e.id;
        assert(b[k] == x);
    }
    assert forall|x: i64| b.to_set().contains(x) implies a.to_set().contains(x) by {
        let k = choose|k: int| 0 <= k < b.len() && b[k] == x;
        assert(has_id(s, s.learned[k].word_id));
        let i = choose|i: int| 0 <= i < s.words.len() && s.words[i].id == x;
        assert(entry_word(s.words[i]) is Some);
        assert(has_learned(s, s.words[i].id));
        lemma_filter_map_includes(s.words, fl, i);
        let w = fl(s.words[i])->0;
        let j = choose|j: int| 0 <= j < lw.len() && lw[j] == w;
        assert(a[j] == x);
    }
    assert(a.to_set() =~= b.to_set());
    lemma_filter_map_len_le(s.words, fl);
}

proof fn lemma_filter_map_len_le<A, B>(ws: Seq<A>, f: spec_fn(A) -> Option<B>)
    ensures
        ws.filter_map(f).len() <= ws.len(),
    decreases ws.len(),
{
    if ws.len() > 0 {
        lemma_filter_map_len_le(ws.drop_last(), f);
    }
}

/// Marking a word remembered touches no other word: the table keeps its
/// length, every row of another id is unchanged, and every row, the marked
/// one included, keeps its id, text, meaning and threshold.
pub proof fn law_mark_remembered_touches_one_row(s: StoreState, id: i64, now: Seq<char>)
    ensures
        spec_mark_remembered(s, id, now).0.words.len() == s.words.len(),
        forall|i: int|
            0 <= i < s.words.len() && s.words[i].id != id
                ==> #[trigger] spec_mark_remembered(s, id, now).0.words[i] == s.words[i],
        forall|i: int|
            0 <= i < s.words.len() ==> {
                let e = #[trigger] spec_mark_remembered(s, id, now).0.words[i];
                &&& e.id == s.words[i].id
                &&& e.word == s.words[i].word
                &&& e.meaning == s.words[i].meaning
                &&& e.threshold == s.words[i].threshold
            },
{
}

/// Forgetting a word changes nothing but its counter: the table keeps its
/// length, every row keeps its id, text, meaning and threshold, the row of
/// that id has counter 0 and every other row keeps its counter.
pub proof fn law_forget_changes_only_counter(s: StoreState, id: i64)
    ensures
        set_count(s.words, id, 0).len() == s.words.len(),
        forall|i: int|
            0 <= i < s.words.len() ==> {
                let e = #[trigger] set_count(s.words, id, 0)[i];
                &&& e.id == s.words[i].id
                &&& e.word == s.words[i].word
                &&& e.meaning == s.words[i].meaning
                &&& e.threshold == s.words[i].threshold
                &&& e.success_count == (if s.words[i].id == id { 0 } else { s.words[i].success_count })
            },
{
}

/// A reset keeps every word row but its counter: row `i` after has the id,
/// text, meaning and threshold of row `i` before and counter 0; the id
/// sequences and the configured threshold stay.
pub proof fn law_reset_keeps_rows(s: StoreState)
    ensures
        spec_reset_progress(s).words.len() == s.words.len(),
        forall|i: int|
            0 <= i < s.words.len() ==> {
                let e = #[trigger] spec_reset_progress(s).words[i];
                &&& e.id == s.words[i].id
                &&& e.word == s.words[i].word
                &&& e.meaning == s.words[i].meaning
                &&& e.threshold == s.words[i].threshold
                &&& e.success_count == 0
            },
        spec_reset_progress(s).word_seq == s.word_seq,
        spec_reset_progress(s).learned_seq == s.learned_seq,
        spec_reset_progress(s).memory_threshold == s.memory_threshold,
{
}

/// A word whose text is absent is stored and returned exactly as given: with
/// the next id, the given text and meaning, counter 0 and the configured
/// threshold, appended after the rows already there; the learned records
/// stay.
pub proof fn law_new_word_stored_as_given(s: StoreState, w: Seq<char>, m: Seq<char>)
    requires
        !has_text(s, w),
        !words_full(s),
    ensures
        spec_add_word(s, w, m).1 == Ok::<WordView, crate::word::StoreError>(
            WordView { id: (s.word_seq + 1) as i64, word: w, meaning: m, success_count: 0, threshold: s.memory_threshold },
        ),
        spec_add_word(s, w, m).0.words.len() == s.words.len() + 1,
        spec_add_word(s, w, m).0.words.take(s.words.len() as int) == s.words,
        spec_add_word(s, w, m).0.words.last() == (WordEntry {
            id: (s.word_seq + 1) as i64,
            word: w,
            meaning: m,
            success_count: 0,
            threshold: s.memory_threshold as i64,
        }),
        spec_add_word(s, w, m).0.learned == s.learned,
{
    let t = spec_add_word(s, w, m).0;
    assert(t.words.take(s.words.len() as int) =~= s.words);
}

/// `b` continues `a`: `a` is a proper prefix of `b`.
pub open spec fn proper_prefix(a: Seq<char>, b: Seq<char>) -> bool {
    a.len() < b.len() && b.take(a.len() as int) == a
}

/// `a` and `b` agree before position `k` and `a` has the smaller character
/// at `k`.
pub open spec fn first_difference_less(a: Seq<char>, b: Seq<char>, k: int) -> bool {
    &&& 0 <= k < a.len()
    &&& k < b.len()
    &&& a.take(k) == b.take(k)
    &&& (a[k] as int) < (b[k] as int)
}

/// Text order is lexicographic code-point order: `a` sorts before `b` exactly
/// when `a` is a proper prefix of `b`, or the first character where they
/// differ is smaller in `a`.
pub proof fn law_text_order(a: Seq<char>, b: Seq<char>)
    ensures
        text_less(a, b) <==> (proper_prefix(a, b) || exists|k: int| first_difference_less(a, b, k)),
    decreases a.len(),
{
    if a.len() == 0 {
        assert(b.take(0) =~= a);
    } else if b.len() == 0 {
    } else if a[0] == b[0] {
        let a1 = a.drop_first();
        let b1 = b.drop_first();
        law_text_order(a1, b1);
        if proper_prefix(a, b) {
            assert forall|i: int| 0 <= i < a1.len() implies #[trigger] b1.take(a1.len() as int)[i] == a1[i] by {
                assert(b.take(a.len() as int)[i + 1] == a[i + 1]);
            }
            assert(b1.take(a1.len() as int) =~= a1);
        }
        if proper_prefix(a1, b1) {
            assert forall|i: int| 0 <= i < a.len() implies #[trigger] b.take(a.len() as int)[i] == a[i] by {
                if i > 0 {
                    assert(b1.take(a1.len() as int)[i - 1] == a1[i - 1]);
                }
            }
            assert(b.take(a.len() as int) =~= a);
        }
        if exists|k: int| first_difference_less(a, b, k) {
            let k = choose|k: int| first_difference_less(a, b, k);
            assert(k != 0);
            assert forall|i: int| 0 <= i < k - 1 implies #[trigger] a1.take(k - 1)[i] == b1.take(k - 1)[i] by {
                assert(a.take(k)[i + 1] == b.take(k)[i + 1]);
            }
            assert(a1.take(k - 1) =~= b1.take(k - 1));
            assert(first_difference_less(a1, b1, k - 1));
        }
        if exists|k: int| first_difference_less(a1, b1, k) {
            let k = choose|k: int| first_difference_less(a1, b1, k);
            assert forall|i: int| 0 <= i < k + 1 implies #[trigger] a.take(k + 1)[i] == b.take(k + 1)[i] by {
                if i > 0 {
                    assert(a1.take(k)[i - 1] == b1.take(k)[i - 1]);
                }
            }
            assert(a.take(k + 1) =~= b.take(k + 1));
            assert(first_difference_less(a, b, k + 1));
        }
    } else {
        if proper_prefix(a, b) {
            assert(b.take(a.len() as int)[0] == a[0]);
        }
        if exists|k: int| first_difference_less(a, b, k) {
            let k = choose|k: int| first_difference_less(a, b, k);
            if k > 0 {
                assert(a.take(k)[0] == b.take(k)[0]);
            }
        }
        if (a[0] as int) < (b[0] as int) {
            assert(a.take(0) =~= b.take(0));
            assert(first_difference_less(a, b, 0));
        }
    }
}

/// Marking a word remembered adds at most one learned record, for that word
/// and stamped with the given time, under the next learned id, and only when
/// the word had none; earlier records stay as they were, and the word id
/// sequence and the configured threshold do not change.
pub proof fn law_mark_remembered_records(s: StoreState, id: i64, now: Seq<char>)
    ensures
        spec_mark_remembered(s, id, now).0.learned == s.learned
            && spec_mark_remembered(s, id, now).0.learned_seq == s.learned_seq
        || (!has_learned(s, id) && spec_mark_remembered(s, id, now).0.learned == s.learned.push(
            LearnedEntry { id: (s.learned_seq + 1) as i64, word_id: id, learned_at: now },
        ) && spec_mark_remembered(s, id, now).0.learned_seq == s.learned_seq + 1),
        spec_mark_remembered(s, id, now).0.word_seq == s.word_seq,
        spec_mark_remembered(s, id, now).0.memory_threshold == s.memory_threshold,
{
}

/// Deleting a word adds nothing: every row and record left was there before
/// and belongs to another word, and the id sequences and the configured
/// threshold stay.
pub proof fn law_delete_adds_nothing(s: StoreState, id: i64)
    ensures
        forall|j: int| 0 <= j < spec_delete_word(s, id).words.len() ==>
            s.words.contains(#[trigger] spec_delete_word(s, id).words[j]) && spec_delete_word(s, id).words[j].id != id,
        forall|j: int| 0 <= j < spec_delete_word(s, id).learned.len() ==>
            s.learned.contains(#[trigger] spec_delete_word(s, id).learned[j]) && spec_delete_word(s, id).learned[j].word_id != id,
        spec_delete_word(s, id).words.len() <= s.words.len(),
        spec_delete_word(s, id).learned.len() <= s.learned.len(),
        spec_delete_word(s, id).word_seq == s.word_seq,
        spec_delete_word(s, id).learned_seq == s.learned_seq,
        spec_delete_word(s, id).memory_threshold == s.memory_threshold,
{
    let t = spec_delete_word(s, id);
    let kw = |e: WordEntry| e.id != id;
    let kl = |r: LearnedEntry| r.word_id != id;
    lemma_retain_subset(s.words, kw);
    lemma_retain_subset(s.learned, kl);
    assert forall|j: int| 0 <= j < t.words.len() implies s.words.contains(#[trigger] t.words[j]) && t.words[j].id != id by {
        let i = choose|i: int| 0 <= i < s.words.len() && s.words[i] == t.words[j] && kw(s.words[i]);
    }
    assert forall|j: int| 0 <= j < t.learned.len() implies s.learned.contains(#[trigger] t.learned[j]) && t.learned[j].word_id != id by {
        let i = choose|i: int| 0 <= i < s.learned.len() && s.learned[i] == t.learned[j] && kl(s.learned[i]);
    }
}

/// Configuring the memory threshold gives every word that threshold and
/// changes nothing else: each row keeps its id, text, meaning and counter,
/// and the learned records and id sequences stay.
pub proof fn law_set_threshold_keeps_rows(s: StoreState, t: i32)
    ensures
        spec_set_memory_threshold(s, t).words.len() == s.words.len(),
        forall|i: int|
            0 <= i < s.words.len() ==> {
                let e = #[trigger] spec_set_memory_threshold(s, t).words[i];
                &&& e.id == s.words[i].id
                &&& e.word == s.words[i].word
                &&& e.meaning == s.words[i].meaning
                &&& e.success_count == s.words[i].success_count
                &&& e.threshold == t
            },
        spec_set_memory_threshold(s, t).learned == s.learned,
        spec_set_memory_threshold(s, t).word_seq == s.word_seq,
        spec_set_memory_threshold(s, t).learned_seq == s.learned_seq,
        spec_set_memory_threshold(s, t).memory_threshold == t,
{
}

/// A field with no separator, double quote or white space in it.
pub open spec fn plain_field(x: Seq<char>, sep: char) -> bool {
    x.len() > 0 && forall|i: int| 0 <= i < x.len() ==> #[trigger] x[i] != sep && x[i] != '"' && !is_white_space(x[i])
}

/// A line of two plain fields gives exactly those two fields as its pair.
pub proof fn law_plain_line_pair(w: Seq<char>, m: Seq<char>, f: ImportFormat)
    requires
        plain_field(w, separator(f)),
        plain_field(m, separator(f)),
    ensures
        line_pair(w + seq![separator(f)] + m, f) == Some((w, m)),
{
    let sep = separator(f);
    let line = w + seq![sep] + m;
    assert forall|j: int| 0 <= j < w.len() implies line[j] != sep by {
        assert(line[j] == w[j]);
    }
    assert(line[w.len() as int] == sep);
    lemma_field_end_at(line, sep, w.len() as int);
    assert(line.take(w.len() as int) =~= w);
    assert(line.skip(w.len() as int + 1) =~= m);
    lemma_field_end_at(m, sep, m.len() as int);
    assert(m.take(m.len() as int) =~= m);
    assert(!is_white_space(w[0]) && !is_white_space(w[w.len() - 1]));
    assert(!is_white_space(m[0]) && !is_white_space(m[m.len() - 1]));
    assert(trim(w) == w);
    assert(trim(m) == m);
    assert(trim_quotes(w) == w);
    assert(trim_quotes(m) == m);
}

/// Lines joined with `\n`.
pub open spec fn joined_lines(ls: Seq<Seq<char>>) -> Seq<char>
    decreases ls.len(),
{
    if ls.len() == 0 {
        Seq::empty()
    } else if ls.len() == 1 {
        ls[0]
    } else {
        ls[0] + seq!['\n'] + joined_lines(ls.drop_first())
    }
}

/// A non-empty line with no line break in it and no carriage return at its end.
pub open spec fn simple_line(l: Seq<char>) -> bool {
    &&& l.len() > 0
    &&& forall|i: int| 0 <= i < l.len() ==> #[trigger] l[i] != '\n'
    &&& l.last() != '\r'
}

/// Splitting text into lines undoes joining simple lines with `\n`.
pub proof fn law_lines_of_joined(ls: Seq<Seq<char>>)
    requires
        forall|k: int| 0 <= k < ls.len() ==> simple_line(#[trigger] ls[k]),
    ensures
        lines(joined_lines(ls)) == ls,
    decreases ls.len(),
{
    if ls.len() == 1 {
        let l0 = ls[0];
        assert(simple_line(ls[0]));
        lemma_field_end_at(l0, '\n', l0.len() as int);
        assert(seq![l0] =~= ls);
    } else if ls.len() > 1 {
        let l0 = ls[0];
        assert(simple_line(ls[0]));
        let rest = ls.drop_first();
        assert forall|k: int| 0 <= k < rest.len() implies simple_line(#[trigger] rest[k]) by {
            assert(rest[k] == ls[k + 1]);
        }
        law_lines_of_joined(rest);
        let j = joined_lines(rest);
        let s = l0 + seq!['\n'] + j;
        assert(s == joined_lines(ls));
        assert forall|i: int| 0 <= i < l0.len() implies s[i] != '\n' by {
            assert(s[i] == l0[i]);
        }
        assert(s[l0.len() as int] == '\n');
        lemma_field_end_at(s, '\n', l0.len() as int);
        assert(s.take(l0.len() as int) =~= l0);
        assert(s.skip(l0.len() as int + 1) =~= j);
        assert(seq![l0] + rest =~= ls);
    }
}

/// The pairs of a text made of simple lines, whose first line is no column
/// header, are the pairs of those lines in order.
pub proof fn law_text_pairs_of_joined(ls: Seq<Seq<char>>, f: ImportFormat)
    requires
        forall|k: int| 0 <= k < ls.len() ==> simple_line(#[trigger] ls[k]),
        ls.len() > 0 ==> !is_header(ls[0], f),
    ensures
        text_pairs(joined_lines(ls), f) == pairs_of_lines(ls, f),
{
    law_lines_of_joined(ls);
}

/// Word `w` shows row `e`: the same id, text, meaning and counters.
pub open spec fn shows_row(w: WordView, e: WordEntry) -> bool {
    &&& w.id == e.id
    &&& w.word == e.word
    &&& w.meaning == e.meaning
    &&& w.success_count as int == e.success_count as int
    &&& w.threshold as int == e.threshold as int
}

/// The full listing shows the rows as they are stored: every listed word
/// shows some row, and every row whose counters fit in 32 bits is listed as
/// a word showing it.
pub proof fn law_listing_shows_rows(s: StoreState)
    ensures
        forall|a: int| 0 <= a < all_words(s).len() ==>
            exists|i: int| 0 <= i < s.words.len() && shows_row(#[trigger] all_words(s)[a], s.words[i]),
        forall|i: int|
            0 <= i < s.words.len() && i32::MIN <= s.words[i].success_count <= i32::MAX
                && i32::MIN <= s.words[i].threshold <= i32::MAX
                ==> exists|a: int| 0 <= a < all_words(s).len() && shows_row(all_words(s)[a], #[trigger] s.words[i]),
{
    let f = |e: WordEntry| entry_word(e);
    let aw = all_words(s);
    assert forall|a: int| 0 <= a < aw.len() implies exists|i: int| 0 <= i < s.words.len() && shows_row(#[trigger] aw[a], s.words[i]) by {
        assert(aw.contains(aw[a]));
        s.words.lemma_filter_map_contains(f, aw[a]);
        let e = choose|e: WordEntry| #[trigger] s.words.contains(e) && f(e) == Some(aw[a]);
        let i = choose|i: int| 0 <= i < s.words.len() && s.words[i] == e;
        assert(shows_row(aw[a], s.words[i]));
    }
    assert forall|i: int|
        0 <= i < s.words.len() && i32::MIN <= s.words[i].success_count <= i32::MAX
            && i32::MIN <= s.words[i].threshold <= i32::MAX
        implies exists|a: int| 0 <= a < aw.len() && shows_row(aw[a], #[trigger] s.words[i]) by {
        assert(f(s.words[i]) is Some);
        lemma_filter_map_includes(s.words, f, i);
        let w = f(s.words[i])->0;
        let a = choose|a: int| 0 <= a < aw.len() && aw[a] == w;
        assert(shows_row(aw[a], s.words[i]));
    }
}

proof fn lemma_first_index(l: Seq<LearnedEntry>, x: i64, k: int) -> (j: int)
    requires
        0 <= k < l.len(),
        l[k].word_id == x,
    ensures
        0 <= j <= k,
        l[j].word_id == x,
        forall|q: int| 0 <= q < j ==> (#[trigger] l[q]).word_id != x,
    decreases k,
{
    if exists|q: int| 0 <= q < k && (#[trigger] l[q]).word_id == x {
        let q = choose|q: int| 0 <= q < k && (#[trigger] l[q]).word_id == x;
        lemma_first_index(l, x, q)
    } else {
        k
    }
}

/// Rebuilding keeps exactly one learned record for each stored word that has
/// any, the one with the smallest id: every kept record is a stored record of
/// a stored word, no two kept records share a word, and every stored word
/// with a record keeps one whose id is no larger than any of its records.
pub proof fn law_restore_learned(
    words: Seq<WordEntry>,
    learned: Seq<LearnedEntry>,
    word_seq: i64,
    learned_seq: i64,
    t: i32,
)
    requires
        forall|i: int, j: int| 0 <= i < j < learned.len() ==> #[trigger] learned[i].id < #[trigger] learned[j].id,
    ensures
        forall|j: int| 0 <= j < spec_restore(words, learned, word_seq, learned_seq, t).learned.len() ==> {
            let r = #[trigger] spec_restore(words, learned, word_seq, learned_seq, t).learned[j];
            &&& learned.contains(r)
            &&& row_has_id(words, r.word_id)
        },
        forall|a: int, b: int|
            0 <= a < spec_restore(words, learned, word_seq, learned_seq, t).learned.len()
                && 0 <= b < spec_restore(words, learned, word_seq, learned_seq, t).learned.len() && a != b
                ==> #[trigger] spec_restore(words, learned, word_seq, learned_seq, t).learned[a].word_id
                    != #[trigger] spec_restore(words, learned, word_seq, learned_seq, t).learned[b].word_id,
        forall|k: int| 0 <= k < learned.len() && row_has_id(words, #[trigger] learned[k].word_id) ==>
            exists|j: int| 0 <= j < spec_restore(words, learned, word_seq, learned_seq, t).learned.len()
                && (#[trigger] spec_restore(words, learned, word_seq, learned_seq, t).learned[j]).word_id == learned[k].word_id
                && spec_restore(words, learned, word_seq, learned_seq, t).learned[j].id <= learned[k].id,
{
    let keep = |r: LearnedEntry| first_of_its_word(learned, r);
    let has = |r: LearnedEntry| row_has_id(words, r.word_id);
    let k1 = retain(learned, keep);
    let out = retain(k1, has);
    assert(out == spec_restore(words, learned, word_seq, learned_seq, t).learned);
    lemma_retain_subset(learned, keep);
    lemma_retain_subset(k1, has);
    assert forall|j: int| 0 <= j < out.len() implies learned.contains(#[trigger] out[j]) && row_has_id(words, out[j].word_id) by {
        let i = choose|i: int| 0 <= i < k1.len() && k1[i] == out[j] && has(k1[i]);
        let q = choose|q: int| 0 <= q < learned.len() && learned[q] == k1[i] && keep(learned[q]);
    }
    // records that are first of their word have distinct words
    assert forall|a: int, b: int| 0 <= a < out.len() && 0 <= b < out.len() && a != b implies #[trigger] out[a].word_id != #[trigger] out[b].word_id by {
        let ia = choose|i: int| 0 <= i < k1.len() && k1[i] == out[a] && has(k1[i]);
        let ib = choose|i: int| 0 <= i < k1.len() && k1[i] == out[b] && has(k1[i]);
        let qa = choose|q: int| 0 <= q < learned.len() && learned[q] == k1[ia] && keep(learned[q]);
        let qb = choose|q: int| 0 <= q < learned.len() && learned[q] == k1[ib] && keep(learned[q]);
        lemma_retain_ordered(learned, keep, |x: LearnedEntry, y: LearnedEntry| x.id < y.id);
        lemma_retain_ordered(k1, has, |x: LearnedEntry, y: LearnedEntry| x.id < y.id);
        if out[a].word_id == out[b].word_id {
            assert(learned[qa].id <= learned[qb].id);
            assert(learned[qb].id <= learned[qa].id);
            if a < b {
                assert((|x: LearnedEntry, y: LearnedEntry| x.id < y.id)(out[a], out[b]));
            } else {
                assert((|x: LearnedEntry, y: LearnedEntry| x.id < y.id)(out[b], out[a]));
            }
        }
    }
    assert forall|k: int| 0 <= k < learned.len() && row_has_id(words, #[trigger] learned[k].word_id) implies
        exists|j: int| 0 <= j < out.len() && out[j].word_id == learned[k].word_id && out[j].id <= learned[k].id by {
        let x = learned[k].word_id;
        let f = lemma_first_index(learned, x, k);
        assert(keep(learned[f])) by {
            assert forall|q: int| 0 <= q < learned.len() && #[trigger] learned[q].word_id == learned[f].word_id implies learned[f].id <= learned[q].id by {
                if q < f {
                    assert(learned[q].word_id != x);
                } else if q > f {
                    assert(learned[f].id < learned[q].id);
                }
            }
        }
        lemma_retain_contains(learned, keep);
        assert(k1.contains(learned[f]));
        let i = choose|i: int| 0 <= i < k1.len() && k1[i] == learned[f];
        assert(has(k1[i]));
        lemma_retain_contains(k1, has);
        assert(out.contains(k1[i]));
        let j = choose|j: int| 0 <= j < out.len() && out[j] == k1[i];
        if f < k {
            assert(learned[f].id < learned[k].id);
        }
        assert(out[j].word_id == learned[k].word_id && out[j].id <= learned[k].id);
    }
}

/// An import reports every entry it read, stored or already present: the
/// count is the number of pairs, unless there are more than a 32-bit count
/// holds, in which case nothing changes.
pub proof fn law_import_counts_every_entry(s: StoreState, ps: Seq<(Seq<char>, Seq<char>)>)
    ensures
        ps.len() <= i32::MAX ==> spec_import_pairs(s, ps).1 == Ok::<i32, crate::word::StoreError>(ps.len() as i32),
        ps.len() > i32::MAX ==> spec_import_pairs(s, ps) == (s, Err::<i32, crate::word::StoreError>(crate::word::StoreError::TooManyEntries)),
{
}

} // verus!
