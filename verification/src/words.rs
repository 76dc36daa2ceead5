//! The word filter: the entry segmenter's output restricted to word runs.

use vstd::prelude::*;

use crate::entries::Entries;
use crate::entries::Entry;
use crate::model::entry_seq;
use crate::model::word_seq;

verus! {

/// A producer of the text's word runs, in text order, one per call of
/// `next`.
pub struct Words<'a> {
    entries: Entries<'a>,
}

impl<'a> Words<'a> {
    /// The underlying segmenter's state is consistent.
    pub closed spec fn wf(self) -> bool {
        self.entries.wf()
    }

    /// The text being filtered, as its sequence of characters.
    pub closed spec fn text_view(self) -> Seq<char> {
        self.entries.text_view()
    }

    /// A producer that has not yet been asked for a word.
    pub closed spec fn fresh(self) -> bool {
        self.entries.fresh()
    }

    /// The word slices this producer has still to yield: the word entries
    /// among the ones the underlying segmenter has still to yield.
    pub closed spec fn remaining(self) -> Seq<Seq<char>> {
        word_seq(self.entries.remaining())
    }

    /// Yields the next word slice, skipping runs of non-word characters, or
    /// nothing once the text is exhausted. Each produced slice is the head
    /// of what remained; once nothing remains, every further call keeps
    /// yielding nothing.
    pub fn next(&mut self) -> (r: Option<&'a str>)
        requires
            old(self).wf(),
        ensures
            final(self).wf(),
            match r {
                Option::None => {
                    &&& old(self).remaining().len() == 0
                    &&& final(self).remaining().len() == 0
                },
                Option::Some(s) => {
                    &&& old(self).remaining().len() > 0
                    &&& s@ == old(self).remaining()[0]
                    &&& final(self).remaining() == old(self).remaining().drop_first()
                },
            },
    {
        loop
            invariant
                self.entries.wf(),
                word_seq(self.entries.remaining()) == word_seq(old(self).entries.remaining()),
            decreases self.entries.remaining().len(),
        {
            let ghost es = self.entries.remaining();
            match self.entries.next() {
                Option::None => {
                    return None;
                },
                Option::Some(e) => {
                    proof {
                        assert(es.drop_first() =~= self.entries.remaining());
                    }
                    match e {
                        Entry::Word(s) => {
                            proof {
                                assert((seq![es[0].chars] + word_seq(es.drop_first())).drop_first()
                                    =~= word_seq(es.drop_first()));
                            }
                            return Some(s);
                        },
                        Entry::Other(_) => {},
                    }
                },
            }
        }
    }
}

/// Creates a producer of the word runs of `text`, positioned before the
/// first one: the words are the text's word-tagged entries, in order.
pub fn extract_words<'a>(text: &'a str) -> (r: Words<'a>)
    ensures
        r.wf(),
        r.fresh(),
        r.text_view() == text@,
        r.remaining() == word_seq(entry_seq(text@)),
{
    Words { entries: Entries::new(text) }
}

/// Construction is deterministic: two word producers built independently
/// over the same text have the same words still to yield, so draining each
/// gives identical word sequences.
pub proof fn lemma_independent_words_agree<'a, 'b>(a: Words<'a>, b: Words<'b>)
    requires
        a.fresh(),
        b.fresh(),
        a.text_view() == b.text_view(),
    ensures
        a.remaining() == b.remaining(),
{
    crate::entries::lemma_independent_entries_agree(a.entries, b.entries);
}

} // verus!
