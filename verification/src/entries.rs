//! The entry segmenter: a pull-based producer of classified maximal runs.

use vstd::prelude::*;
use vstd::string::StrSliceExecFns;

use crate::model::EntryModel;
use crate::model::entry_seq;
use crate::model::is_word_char;
use crate::model::lemma_entry_seq_step;

verus! {

/// Relies on char::is_alphanumeric: whether a character is a letter or a
/// digit is a property of the character alone, given by Unicode's general
/// categories.
#[verifier::external_body]
pub(crate) fn char_is_word(c: char) -> (r: bool)
    ensures
        r == is_word_char(c),
{
    c.is_alphanumeric()
}

/// One maximal run of the text, classified by the class of its characters.
#[derive(Debug, PartialEq)]
pub enum Entry<'a> {
    /// A run of non-word characters: punctuation, spaces, symbols.
    Other(&'a str),
    /// A run of word characters: letters and digits.
    Word(&'a str),
}

impl<'a> View for Entry<'a> {
    type V = EntryModel;

    open spec fn view(&self) -> EntryModel {
        match *self {
            Entry::Other(s) => EntryModel { word: false, chars: s@ },
            Entry::Word(s) => EntryModel { word: true, chars: s@ },
        }
    }
}

impl<'a> Entry<'a> {
    /// The run's text, whatever its tag.
    pub fn as_ref(&self) -> (r: &'a str)
        ensures
            r@ == self@.chars,
    {
        match *self {
            Entry::Other(s) => s,
            Entry::Word(s) => s,
        }
    }
}

/// The run the scan currently has open, if any, with its starting
/// character position.
enum Cursor {
    /// No run open: the scan has not started, or the text is exhausted.
    Idle,
    /// A run open since character position `start`, of class `word`.
    Run { word: bool, start: usize },
}

/// A producer of the text's entries, in text order, one per call of `next`.
pub struct Entries<'a> {
    text: &'a str,
    pos: usize,
    cur: Cursor,
}

impl<'a> Entries<'a> {
    /// The text being segmented, as its sequence of characters.
    pub closed spec fn text_view(self) -> Seq<char> {
        self.text@
    }

    /// A producer that has not yet been asked for an entry.
    pub closed spec fn fresh(self) -> bool {
        self.pos == 0 && self.cur is Idle
    }

    /// The scan state is consistent: the cursor sits inside the text, and an
    /// open run covers scanned characters of its own class only.
    pub closed spec fn wf(self) -> bool {
        let t = self.text@;
        &&& self.pos <= t.len()
        &&& match self.cur {
            Cursor::Idle => self.pos == 0 || self.pos == t.len(),
            Cursor::Run { word, start } => {
                &&& start < self.pos
                &&& forall|i: int| start <= i < self.pos ==> is_word_char(t[i]) == word
            },
        }
    }

    /// The entries this producer has still to yield.
    pub closed spec fn remaining(self) -> Seq<EntryModel> {
        match self.cur {
            Cursor::Idle => if self.pos == 0 {
                entry_seq(self.text@)
            } else {
                Seq::empty()
            },
            Cursor::Run { word, start } => entry_seq(self.text@.skip(start as int)),
        }
    }

    /// Creates a producer of the entries of `text`, positioned before the
    /// first one.
    pub fn new(text: &'a str) -> (r: Entries<'a>)
        ensures
            r.wf(),
            r.fresh(),
            r.text_view() == text@,
            r.remaining() == entry_seq(text@),
    {
        Entries { text, pos: 0, cur: Cursor::Idle }
    }

    /// Yields the next entry, or nothing once the text is exhausted. Each
    /// produced entry is the head of what remained; once nothing remains,
    /// every further call keeps yielding nothing.
    pub fn next(&mut self) -> (r: Option<Entry<'a>>)
        requires
            old(self).wf(),
        ensures
            final(self).wf(),
            final(self).text_view() == old(self).text_view(),
            match r {
                Option::None => {
                    &&& old(self).remaining().len() == 0
                    &&& final(self).remaining().len() == 0
                },
                Option::Some(e) => {
                    &&& old(self).remaining().len() > 0
                    &&& e@ == old(self).remaining()[0]
                    &&& final(self).remaining() == old(self).remaining().drop_first()
                },
            },
    {
        let text = self.text;
        let ghost t = text@;
        let len = text.unicode_len();
        while self.pos < len
            invariant
                self.wf(),
                self.text == text,
                old(self).text == text,
                text@ == t,
                len == t.len(),
                self.remaining() == old(self).remaining(),
            decreases len - self.pos,
        {
            let i = self.pos;
            let c = text.get_char(i);
            let w = char_is_word(c);
            self.pos = i + 1;
            match self.cur {
                Cursor::Idle => {
                    self.cur = Cursor::Run { word: w, start: i };
                    proof {
                        assert(t.skip(0) =~= t);
                    }
                },
                Cursor::Run { word, start } => {
                    if w != word {
                        self.cur = Cursor::Run { word: w, start: i };
                        proof {
                            lemma_entry_seq_step(t, start as int, i as int);
                            let head = EntryModel {
                                word: is_word_char(t[start as int]),
                                chars: t.subrange(start as int, i as int),
                            };
                            assert((seq![head] + entry_seq(t.skip(i as int))).drop_first()
                                =~= entry_seq(t.skip(i as int)));
                        }
                        let s = text.substring_char(start, i);
                        return Some(if word { Entry::Word(s) } else { Entry::Other(s) });
                    }
                },
            }
        }
        match self.cur {
            Cursor::Idle => None,
            Cursor::Run { word, start } => {
                self.cur = Cursor::Idle;
                if start < len {
                    proof {
                        lemma_entry_seq_step(t, start as int, len as int);
                        let head = EntryModel {
                            word: is_word_char(t[start as int]),
                            chars: t.subrange(start as int, len as int),
                        };
                        assert(t.skip(len as int) =~= Seq::<char>::empty());
                        assert((seq![head] + entry_seq(t.skip(len as int))).drop_first()
                            =~= Seq::<EntryModel>::empty());
                    }
                    let s = text.substring_char(start, len);
                    Some(if word { Entry::Word(s) } else { Entry::Other(s) })
                } else {
                    None
                }
            },
        }
    }
}

/// Construction is deterministic: two producers built independently over
/// the same text have the same entries still to yield, so draining each
/// gives identical entry sequences.
pub proof fn lemma_independent_entries_agree<'a, 'b>(a: Entries<'a>, b: Entries<'b>)
    requires
        a.fresh(),
        b.fresh(),
        a.text_view() == b.text_view(),
    ensures
        a.remaining() == b.remaining(),
{
}

} // verus!
