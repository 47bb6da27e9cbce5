//! Word Table construction: splitting a decompressed text blob into its
//! ordered list of words, one per non-empty line.

use vstd::prelude::*;

use crate::ext::string_of_chars;

verus! {

/// A line with one trailing carriage return dropped, so that both bare line
/// feeds and carriage-return/line-feed pairs act as line boundaries.
pub open spec fn strip_cr(line: Seq<char>) -> Seq<char> {
    if line.len() > 0 && line.last() == '\r' {
        line.drop_last()
    } else {
        line
    }
}

/// The words contributed by one finished line: the line itself, or nothing
/// when stripping leaves it empty (blank lines are not words).
pub open spec fn line_words(line: Seq<char>) -> Seq<Seq<char>> {
    if strip_cr(line).len() == 0 {
        Seq::<Seq<char>>::empty()
    } else {
        seq![strip_cr(line)]
    }
}

/// One left-to-right pass over the text: the words of every line finished by
/// a line feed, paired with the characters of the still-unfinished last line.
pub open spec fn scan_words(text: Seq<char>) -> (Seq<Seq<char>>, Seq<char>)
    decreases text.len(),
{
    if text.len() == 0 {
        (Seq::<Seq<char>>::empty(), Seq::<char>::empty())
    } else {
        let done = scan_words(text.drop_last()).0;
        let pending = scan_words(text.drop_last()).1;
        if text.last() == '\n' {
            (done + line_words(pending), Seq::<char>::empty())
        } else {
            (done, pending.push(text.last()))
        }
    }
}

/// The words contributed by the unterminated last line: the line itself,
/// kept verbatim (no carriage return is stripped, since none was part of a
/// line boundary), or nothing when it is empty.
pub open spec fn tail_words(pending: Seq<char>) -> Seq<Seq<char>> {
    if pending.len() == 0 {
        Seq::<Seq<char>>::empty()
    } else {
        seq![pending]
    }
}

/// The Word Table of a text blob: its non-empty lines, in order.
pub open spec fn words_of_text(text: Seq<char>) -> Seq<Seq<char>> {
    scan_words(text).0 + tail_words(scan_words(text).1)
}

/// Every word of a Word Table is a non-empty token.
pub proof fn lemma_words_nonempty(text: Seq<char>)
    ensures
        forall|i: int|
            0 <= i < words_of_text(text).len() ==> #[trigger] words_of_text(text)[i].len() > 0,
{
    lemma_scan_words_nonempty(text);
}

proof fn lemma_scan_words_nonempty(text: Seq<char>)
    ensures
        forall|i: int|
            0 <= i < scan_words(text).0.len() ==> #[trigger] scan_words(text).0[i].len() > 0,
    decreases text.len(),
{
    if text.len() > 0 {
        lemma_scan_words_nonempty(text.drop_last());
        let done = scan_words(text.drop_last()).0;
        let pending = scan_words(text.drop_last()).1;
        assert forall|i: int|
            0 <= i < scan_words(text).0.len() implies #[trigger] scan_words(text).0[i].len()
            > 0 by {
            if i < done.len() {
                assert(done[i].len() > 0);
                assert(scan_words(text).0[i] == done[i]);
            } else {
                assert(scan_words(text).0[i] == line_words(pending)[i - done.len()]);
            }
        }
    }
}

/// Splits a text blob into its Word Table. Returns each word both as a
/// string and as its vector of characters; the index builders read the
/// character form, the string form is what queries hand out.
pub fn tokenize(text: &Vec<char>) -> (r: (Vec<String>, Vec<Vec<char>>))
    ensures
        r.1.deep_view() == words_of_text(text@),
        r.0.deep_view() == r.1.deep_view(),
{
    let mut words: Vec<String> = Vec::new();
    let mut toks: Vec<Vec<char>> = Vec::new();
    let mut pending: Vec<char> = Vec::new();
    let mut i: usize = 0;
    while i < text.len()
        invariant
            i <= text.len(),
            toks.deep_view() == scan_words(text@.take(i as int)).0,
            pending@ == scan_words(text@.take(i as int)).1,
            words.deep_view() == toks.deep_view(),
        decreases text.len() - i,
    {
        let c = text[i];
        proof {
            assert(text@.take(i + 1).drop_last() =~= text@.take(i as int));
            assert(text@.take(i + 1).last() == text@[i as int]);
        }
        if c == '\n' {
            let mut tok = pending;
            pending = Vec::new();
            if tok.len() > 0 && tok[tok.len() - 1] == '\r' {
                tok.pop();
            }
            proof {
                assert(tok@ == strip_cr(scan_words(text@.take(i as int)).1));
            }
            if tok.len() > 0 {
                let w = string_of_chars(&tok);
                let ghost wv = w@;
                let ghost tokv = tok@;
                let ghost old_toks = toks.deep_view();
                let ghost old_words = words.deep_view();
                proof {
                    assert(tok.deep_view() =~= tokv);
                }
                words.push(w);
                toks.push(tok);
                proof {
                    assert(toks.deep_view() =~= old_toks.push(tokv));
                    assert(words.deep_view() =~= old_words.push(wv));
                    assert(toks.deep_view() =~= scan_words(text@.take(i + 1)).0);
                }
            } else {
                proof {
                    assert(toks.deep_view() =~= scan_words(text@.take(i + 1)).0);
                }
            }
        } else {
            pending.push(c);
        }
        i += 1;
    }
    proof {
        assert(text@.take(text@.len() as int) =~= text@);
    }
    let tok = pending;
    proof {
        assert(tok@ == scan_words(text@).1);
    }
    if tok.len() > 0 {
        let w = string_of_chars(&tok);
        let ghost wv = w@;
        let ghost tokv = tok@;
        let ghost old_toks = toks.deep_view();
        let ghost old_words = words.deep_view();
        proof {
            assert(tok.deep_view() =~= tokv);
        }
        words.push(w);
        toks.push(tok);
        proof {
            assert(toks.deep_view() =~= old_toks.push(tokv));
            assert(words.deep_view() =~= old_words.push(wv));
            assert(toks.deep_view() =~= words_of_text(text@));
        }
    } else {
        proof {
            assert(toks.deep_view() =~= words_of_text(text@));
        }
    }
    (words, toks)
}

} // verus!
