//! The mathematical model of segmentation: how a sequence of characters
//! splits into maximal runs, and which runs are words.

use vstd::prelude::*;

verus! {

/// Whether `c` is a word character: a letter or a digit, in any script.
/// The classification is Unicode's; `entries::char_is_word` computes it.
pub uninterp spec fn is_word_char(c: char) -> bool;

/// One classified run: its tag and the characters it spans.
pub ghost struct EntryModel {
    /// True for a word run, false for a run of everything else.
    pub word: bool,
    /// The characters of the run, in text order.
    pub chars: Seq<char>,
}

/// Length of the maximal leading run of `t`: how many leading characters
/// share the class of `t[0]`.
pub open spec fn run_len(t: Seq<char>) -> nat
    decreases t.len(),
{
    if t.len() == 0 {
        0
    } else if t.len() >= 2 && is_word_char(t[1]) == is_word_char(t[0]) {
        (run_len(t.skip(1)) + 1) as nat
    } else {
        1
    }
}

/// A non-empty sequence has a non-empty leading run, and the run does not
/// reach past the end.
pub proof fn lemma_run_len_bounds(t: Seq<char>)
    ensures
        t.len() > 0 ==> 1 <= run_len(t) <= t.len(),
    decreases t.len(),
{
    if t.len() >= 2 && is_word_char(t[1]) == is_word_char(t[0]) {
        lemma_run_len_bounds(t.skip(1));
    }
}

/// Every character of the leading run shares the class of the first one,
/// and the run ends at a class change or at the end of the text.
pub proof fn lemma_run_len_char(t: Seq<char>)
    requires
        t.len() > 0,
    ensures
        1 <= run_len(t) <= t.len(),
        forall|i: int| 0 <= i < run_len(t) ==> #[trigger] is_word_char(t[i]) == is_word_char(
            t[0],
        ),
        run_len(t) < t.len() ==> is_word_char(t[run_len(t) as int]) != is_word_char(t[0]),
    decreases t.len(),
{
    lemma_run_len_bounds(t);
    if t.len() >= 2 && is_word_char(t[1]) == is_word_char(t[0]) {
        let u = t.skip(1);
        lemma_run_len_char(u);
        assert forall|i: int| 0 <= i < run_len(t) implies #[trigger] is_word_char(t[i])
            == is_word_char(t[0]) by {
            if i >= 1 {
                assert(u[i - 1] == t[i]);
            }
        }
        if run_len(t) < t.len() {
            assert(u[run_len(t) - 1] == t[run_len(t) as int]);
        }
    }
}

/// The leading run's length is the only cut that closes at a class change
/// (or at the end) while covering characters of one class alone.
pub proof fn lemma_run_len_unique(t: Seq<char>, k: int)
    requires
        t.len() > 0,
        1 <= k <= t.len(),
        forall|i: int| 0 <= i < k ==> #[trigger] is_word_char(t[i]) == is_word_char(t[0]),
        k < t.len() ==> is_word_char(t[k]) != is_word_char(t[0]),
    ensures
        run_len(t) == k,
    decreases t.len(),
{
    if k >= 2 {
        let u = t.skip(1);
        assert(is_word_char(t[1]) == is_word_char(t[0]));
        assert forall|i: int| 0 <= i < k - 1 implies #[trigger] is_word_char(u[i])
            == is_word_char(u[0]) by {
            assert(u[i] == t[i + 1]);
            assert(u[0] == t[1]);
        }
        if k - 1 < u.len() {
            assert(u[k - 1] == t[k]);
        }
        lemma_run_len_unique(u, k - 1);
    }
}

/// The entries of `t`: the leading run, then the entries of the rest.
pub open spec fn entry_seq(t: Seq<char>) -> Seq<EntryModel>
    decreases t.len(),
    via entry_seq_decreases
{
    if t.len() == 0 {
        Seq::empty()
    } else {
        seq![
            EntryModel { word: is_word_char(t[0]), chars: t.take(run_len(t) as int) },
        ] + entry_seq(t.skip(run_len(t) as int))
    }
}

#[via_fn]
proof fn entry_seq_decreases(t: Seq<char>) {
    lemma_run_len_bounds(t);
}

/// Splitting off one maximal run: if the characters from `start` up to `j`
/// share one class, and `j` sits at a class change or at the end of the
/// text, then the entries of the suffix from `start` are that run followed
/// by the entries of the suffix from `j`.
pub proof fn lemma_entry_seq_step(t: Seq<char>, start: int, j: int)
    requires
        0 <= start < j <= t.len(),
        forall|i: int| start <= i < j ==> #[trigger] is_word_char(t[i]) == is_word_char(
            t[start],
        ),
        j < t.len() ==> is_word_char(t[j]) != is_word_char(t[start]),
    ensures
        entry_seq(t.skip(start)) == seq![
            EntryModel { word: is_word_char(t[start]), chars: t.subrange(start, j) },
        ] + entry_seq(t.skip(j)),
{
    let u = t.skip(start);
    assert(u[0] == t[start]);
    assert forall|i: int| 0 <= i < j - start implies #[trigger] is_word_char(u[i])
        == is_word_char(u[0]) by {
        assert(u[i] == t[start + i]);
    }
    if j - start < u.len() {
        assert(u[j - start] == t[j]);
    }
    lemma_run_len_unique(u, j - start);
    assert(u.take(j - start) =~= t.subrange(start, j));
    assert(u.skip(j - start) =~= t.skip(j));
}

/// The word runs' characters, kept in entry order.
pub open spec fn word_seq(es: Seq<EntryModel>) -> Seq<Seq<char>>
    decreases es.len(),
{
    if es.len() == 0 {
        Seq::empty()
    } else if es[0].word {
        seq![es[0].chars] + word_seq(es.drop_first())
    } else {
        word_seq(es.drop_first())
    }
}

/// The characters of all entries, concatenated in order.
pub open spec fn concat_entries(es: Seq<EntryModel>) -> Seq<char>
    decreases es.len(),
{
    if es.len() == 0 {
        Seq::empty()
    } else {
        es[0].chars + concat_entries(es.drop_first())
    }
}

/// The entries tile the text: their characters, concatenated in order, are
/// exactly the text, and no entry is empty.
pub proof fn lemma_entries_cover(t: Seq<char>)
    ensures
        concat_entries(entry_seq(t)) == t,
        forall|i: int|
            0 <= i < entry_seq(t).len() ==> (#[trigger] entry_seq(t)[i]).chars.len() > 0,
    decreases t.len(),
{
    if t.len() > 0 {
        lemma_run_len_bounds(t);
        let n = run_len(t) as int;
        let rest = t.skip(n);
        lemma_entries_cover(rest);
        let es = entry_seq(t);
        assert(es.drop_first() =~= entry_seq(rest));
        assert(t.take(n) + t.skip(n) =~= t);
        assert forall|i: int| 0 <= i < es.len() implies (#[trigger] es[i]).chars.len() > 0 by {
            if i > 0 {
                assert(es[i] == entry_seq(rest)[i - 1]);
            }
        }
    }
}

/// Runs are maximal: no two adjacent entries share a tag.
pub proof fn lemma_entries_alternate(t: Seq<char>)
    ensures
        forall|i: int|
            0 <= i && i + 1 < entry_seq(t).len() ==> (#[trigger] entry_seq(t)[i]).word
                != entry_seq(t)[i + 1].word,
    decreases t.len(),
{
    if t.len() > 0 {
        lemma_run_len_char(t);
        let n = run_len(t) as int;
        let rest = t.skip(n);
        lemma_entries_alternate(rest);
        let es = entry_seq(t);
        assert forall|i: int| 0 <= i && i + 1 < es.len() implies (#[trigger] es[i]).word
            != es[i + 1].word by {
            if i == 0 {
                assert(rest.len() > 0);
                assert(rest[0] == t[n]);
                assert(es[1] == entry_seq(rest)[0]);
            } else {
                assert(es[i] == entry_seq(rest)[i - 1]);
                assert(es[i + 1] == entry_seq(rest)[i]);
            }
        }
    }
}

/// An empty text yields no entries, and so no words either.
pub proof fn lemma_empty_text(t: Seq<char>)
    requires
        t.len() == 0,
    ensures
        entry_seq(t) == Seq::<EntryModel>::empty(),
        word_seq(entry_seq(t)) == Seq::<Seq<char>>::empty(),
{
}

/// A text without a single word character yields no word runs at all.
pub proof fn lemma_no_word_chars_no_words(t: Seq<char>)
    requires
        forall|i: int| 0 <= i < t.len() ==> !(#[trigger] is_word_char(t[i])),
    ensures
        word_seq(entry_seq(t)) == Seq::<Seq<char>>::empty(),
    decreases t.len(),
{
    if t.len() > 0 {
        lemma_run_len_bounds(t);
        let n = run_len(t) as int;
        let rest = t.skip(n);
        assert forall|i: int| 0 <= i < rest.len() implies !(#[trigger] is_word_char(
            rest[i],
        )) by {
            assert(rest[i] == t[n + i]);
        }
        lemma_no_word_chars_no_words(rest);
        let es = entry_seq(t);
        assert(!is_word_char(t[0]));
        assert(es.drop_first() =~= entry_seq(rest));
    }
}

/// Appending one entry appends its characters to the word view exactly when
/// the entry is a word.
pub proof fn lemma_word_seq_push(es: Seq<EntryModel>, e: EntryModel)
    ensures
        word_seq(es.push(e)) == if e.word {
            word_seq(es).push(e.chars)
        } else {
            word_seq(es)
        },
    decreases es.len(),
{
    let p = es.push(e);
    if es.len() == 0 {
        assert(p[0] == e);
        assert(p.drop_first() =~= Seq::<EntryModel>::empty());
        if e.word {
            assert(seq![e.chars] + word_seq(p.drop_first()) =~= Seq::<Seq<
                char,
            >>::empty().push(e.chars));
        }
    } else {
        assert(p[0] == es[0]);
        assert(p.drop_first() =~= es.drop_first().push(e));
        lemma_word_seq_push(es.drop_first(), e);
        if es[0].word && e.word {
            assert(seq![es[0].chars] + word_seq(es.drop_first()).push(e.chars) =~= (seq![
                es[0].chars,
            ] + word_seq(es.drop_first())).push(e.chars));
        }
    }
}

/// The word view is the entry sequence filtered to its word entries and
/// mapped to their characters.
pub proof fn lemma_word_seq_is_filtered(es: Seq<EntryModel>)
    ensures
        word_seq(es) == es.filter(|e: EntryModel| e.word).map_values(|e: EntryModel| e.chars),
    decreases es.len(),
{
    reveal(Seq::filter);
    if es.len() == 0 {
        assert(es.filter(|e: EntryModel| e.word).map_values(|e: EntryModel| e.chars) =~= Seq::<
            Seq<char>,
        >::empty());
    } else {
        let d = es.drop_last();
        let l = es.last();
        lemma_word_seq_is_filtered(d);
        assert(es =~= d.push(l));
        lemma_word_seq_push(d, l);
        if l.word {
            assert(d.filter(|e: EntryModel| e.word).push(l).map_values(
                |e: EntryModel| e.chars,
            ) =~= d.filter(|e: EntryModel| e.word).map_values(|e: EntryModel| e.chars).push(
                l.chars,
            ));
        }
    }
}

} // verus!
